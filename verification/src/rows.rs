//! Queries over stored rows: the first row that fits, the rows that fit in an
//! order, how many there are.
use vstd::prelude::*;

verus! {

/// A stored row: it has an id, and a number by which listings order it before
/// they look at the id.
pub trait Row: Sized {
    /// The id of the row.
    spec fn row_id(&self) -> int;

    /// The number that listings compare first.
    spec fn rank(&self) -> int;

    /// The number that listings compare first, and the id.
    fn keys(&self) -> (keys: (i64, i64))
        ensures
            keys.0 == self.rank(),
            keys.1 == self.row_id(),
    ;

    /// A copy of the row.
    fn duplicate(&self) -> (copy: Self)
        ensures
            copy == *self,
    ;
}

/// An order in which rows are listed.
#[derive(Clone, Copy)]
pub enum Order {
    /// The highest rank first, and of equal ranks the highest id.
    Newest,
    /// The lowest rank first, and of equal ranks the lowest id.
    Oldest,
    /// The highest id first.
    HighestId,
    /// The lowest id first.
    LowestId,
}

/// Whether a row with rank `ra` and id `ia` comes before one with rank `rb` and
/// id `ib`.
pub open spec fn key_before(order: Order, ra: int, ia: int, rb: int, ib: int) -> bool {
    match order {
        Order::Newest => ra > rb || (ra == rb && ia > ib),
        Order::Oldest => ra < rb || (ra == rb && ia < ib),
        Order::HighestId => ia > ib,
        Order::LowestId => ia < ib,
    }
}

/// Whether `a` comes before `b`.
pub open spec fn row_before<T: Row>(order: Order, a: T, b: T) -> bool {
    key_before(order, a.rank(), a.row_id(), b.rank(), b.row_id())
}

/// Whether `a` comes before `b`.
fn comes_before<T: Row>(order: Order, a: &T, b: &T) -> (yes: bool)
    ensures
        yes == row_before(order, *a, *b),
{
    let x = a.keys();
    let y = b.keys();
    match order {
        Order::Newest => x.0 > y.0 || (x.0 == y.0 && x.1 > y.1),
        Order::Oldest => x.0 < y.0 || (x.0 == y.0 && x.1 < y.1),
        Order::HighestId => x.1 > y.1,
        Order::LowestId => x.1 < y.1,
    }
}

/// Whether the ids of rows grow from each row to the next.
pub open spec fn ids_grow<T: Row>(rows: Seq<T>) -> bool {
    forall|i: int, j: int|
        0 <= i < j < rows.len() ==> (#[trigger] rows[i]).row_id() < (#[trigger] rows[j]).row_id()
}

/// Whether `first` is the row that comes first, in the order, of the rows that
/// are kept.
pub open spec fn is_first<T: Row>(
    rows: Seq<T>,
    order: Order,
    keep: spec_fn(T) -> bool,
    first: Option<T>,
) -> bool {
    match first {
        Some(row) => {
            &&& rows.contains(row)
            &&& keep(row)
            &&& forall|i: int|
                0 <= i < rows.len() && keep(#[trigger] rows[i]) ==> rows[i] == row || row_before(
                    order,
                    row,
                    rows[i],
                )
        },
        None => forall|i: int| 0 <= i < rows.len() ==> !keep(#[trigger] rows[i]),
    }
}

/// The row that comes first, in the order, of the rows that are kept.
pub open spec fn pick<T: Row>(rows: Seq<T>, order: Order, keep: spec_fn(T) -> bool) -> Option<T> {
    choose|first: Option<T>| is_first(rows, order, keep, first)
}

/// Only one row can come first.
pub proof fn lemma_pick<T: Row>(
    rows: Seq<T>,
    order: Order,
    keep: spec_fn(T) -> bool,
    first: Option<T>,
)
    requires
        is_first(rows, order, keep, first),
    ensures
        first == pick(rows, order, keep),
{
    let other = pick(rows, order, keep);
    assert(is_first(rows, order, keep, other));
    if let Some(a) = first {
        let i = choose|i: int| 0 <= i < rows.len() && rows[i] == a;
        assert(keep(rows[i]));
        if let Some(b) = other {
            let j = choose|j: int| 0 <= j < rows.len() && rows[j] == b;
            assert(keep(rows[j]));
        }
    } else if let Some(b) = other {
        let j = choose|j: int| 0 <= j < rows.len() && rows[j] == b;
        assert(keep(rows[j]));
    }
}

/// Whether `list` holds exactly the rows that are kept, each before those that
/// come after it in the order.
pub open spec fn is_listing<T: Row>(
    rows: Seq<T>,
    order: Order,
    keep: spec_fn(T) -> bool,
    list: Seq<T>,
) -> bool {
    &&& forall|i: int| 0 <= i < list.len() ==> rows.contains(#[trigger] list[i]) && keep(list[i])
    &&& forall|i: int| 0 <= i < rows.len() && keep(#[trigger] rows[i]) ==> list.contains(rows[i])
    &&& forall|i: int, j: int|
        0 <= i < j < list.len() ==> row_before(order, #[trigger] list[i], #[trigger] list[j])
}

/// Whether `list` holds the first `limit` rows of a listing, or all of them
/// where there are fewer.
pub open spec fn is_limited<T: Row>(
    rows: Seq<T>,
    order: Order,
    keep: spec_fn(T) -> bool,
    limit: int,
    list: Seq<T>,
) -> bool {
    exists|full: Seq<T>|
        {
            &&& #[trigger] is_listing(rows, order, keep, full)
            &&& list == full.take(
                if limit < full.len() {
                    limit
                } else {
                    full.len() as int
                },
            )
        }
}

/// The test that an executable closure makes is `keep`.
pub open spec fn tests<T, F: Fn(&T) -> bool>(test: F, keep: spec_fn(T) -> bool) -> bool {
    &&& forall|row: T| #[trigger] test.requires((&row,))
    &&& forall|row: T, yes: bool| #[trigger] test.ensures((&row,), yes) ==> yes == keep(row)
}

/// Two rows of one table with the same id are one row.
proof fn lemma_same_id<T: Row>(rows: Seq<T>, i: int, j: int)
    requires
        ids_grow(rows),
        0 <= i < rows.len(),
        0 <= j < rows.len(),
        rows[i].row_id() == rows[j].row_id(),
    ensures
        i == j,
{
    if i < j {
        assert(rows[i].row_id() < rows[j].row_id());
    }
    if j < i {
        assert(rows[j].row_id() < rows[i].row_id());
    }
}

/// The first row, in the order, of those that pass the test.
pub fn first_row<T: Row, F: Fn(&T) -> bool>(
    rows: &Vec<T>,
    order: Order,
    test: F,
    Ghost(keep): Ghost<spec_fn(T) -> bool>,
) -> (first: Option<T>)
    requires
        ids_grow(rows@),
        tests(test, keep),
    ensures
        is_first(rows@, order, keep, first),
        first == pick(rows@, order, keep),
{
    let mut best: Option<usize> = None;
    let mut i: usize = 0;
    while i < rows.len()
        invariant
            i <= rows.len(),
            ids_grow(rows@),
            tests(test, keep),
            match best {
                Some(b) => {
                    &&& b < i
                    &&& keep(rows@[b as int])
                    &&& forall|k: int|
                        0 <= k < i && keep(#[trigger] rows@[k]) ==> rows@[k] == rows@[b as int]
                            || row_before(order, rows@[b as int], rows@[k])
                },
                None => forall|k: int| 0 <= k < i ==> !keep(#[trigger] rows@[k]),
            },
        decreases rows.len() - i,
    {
        if test(&rows[i]) {
            match best {
                Some(b) => {
                    if comes_before(order, &rows[i], &rows[b]) {
                        best = Some(i);
                    } else {
                        proof {
                            assert(rows@[b as int].row_id() < rows@[i as int].row_id());
                        }
                    }
                },
                None => {
                    best = Some(i);
                },
            }
        }
        i += 1;
    }
    match best {
        Some(b) => {
            proof {
                assert(rows@.contains(rows@[b as int]));
                lemma_pick(rows@, order, keep, Some(rows@[b as int]));
            }
            Some(rows[b].duplicate())
        },
        None => {
            proof {
                lemma_pick(rows@, order, keep, None);
            }
            None
        },
    }
}

/// Puts `row` in its place in an ordered list.
fn place<T: Row>(list: &mut Vec<T>, order: Order, row: T)
    requires
        forall|i: int, j: int|
            0 <= i < j < old(list)@.len() ==> row_before(
                order,
                #[trigger] old(list)@[i],
                #[trigger] old(list)@[j],
            ),
        forall|i: int|
            0 <= i < old(list)@.len() ==> (#[trigger] old(list)@[i]).row_id() != row.row_id(),
    ensures
        forall|i: int, j: int|
            0 <= i < j < final(list)@.len() ==> row_before(
                order,
                #[trigger] final(list)@[i],
                #[trigger] final(list)@[j],
            ),
        exists|k: int|
            0 <= k <= old(list)@.len() && final(list)@ == #[trigger] old(list)@.insert(k, row),
{
    let ghost start = list@;
    let mut k: usize = list.len();
    while k > 0 && comes_before(order, &row, &list[k - 1])
        invariant
            k <= list.len(),
            list@ == start,
            forall|i: int| k <= i < list.len() ==> row_before(order, row, #[trigger] list@[i]),
        decreases k,
    {
        k -= 1;
    }
    let ghost added = row;
    list.insert(k, row);
    proof {
        let now = list@;
        assert(now == start.insert(k as int, added));
        assert forall|i: int, j: int| 0 <= i < j < now.len() implies row_before(
            order,
            #[trigger] now[i],
            #[trigger] now[j],
        ) by {
            if j < k {
                assert(row_before(order, start[i], start[j]));
            } else if i > k {
                assert(row_before(order, start[i - 1], start[j - 1]));
            } else if i < k {
                assert(now[i] == start[i]);
                if j > k {
                    assert(row_before(order, start[i], start[j - 1]));
                } else {
                    assert(start[k - 1].row_id() != added.row_id());
                    assert(row_before(order, start[k - 1], added));
                    if i < k - 1 {
                        assert(row_before(order, start[i], start[k - 1]));
                    }
                }
            }
        }
    }
}

/// Two lists of the same rows in the same order are one list.
proof fn lemma_same_order<T: Row>(order: Order, a: Seq<T>, b: Seq<T>)
    requires
        forall|i: int, j: int|
            0 <= i < j < a.len() ==> row_before(order, #[trigger] a[i], #[trigger] a[j]),
        forall|i: int, j: int|
            0 <= i < j < b.len() ==> row_before(order, #[trigger] b[i], #[trigger] b[j]),
        forall|i: int| 0 <= i < a.len() ==> b.contains(#[trigger] a[i]),
        forall|i: int| 0 <= i < b.len() ==> a.contains(#[trigger] b[i]),
    ensures
        a == b,
    decreases a.len(),
{
    if a.len() == 0 {
        if b.len() > 0 {
            assert(a.contains(b[0]));
        }
        assert(a =~= b);
    } else {
        assert(b.contains(a[0]));
        let i = choose|i: int| 0 <= i < b.len() && b[i] == a[0];
        assert(a.contains(b[0]));
        let j = choose|j: int| 0 <= j < a.len() && a[j] == b[0];
        if i > 0 && j > 0 {
            assert(row_before(order, b[0], b[i]));
            assert(row_before(order, a[0], a[j]));
        }
        assert(a[0] == b[0]);
        let c = a.skip(1);
        let d = b.skip(1);
        assert forall|k: int| 0 <= k < c.len() implies d.contains(#[trigger] c[k]) by {
            assert(c[k] == a[k + 1]);
            assert(b.contains(a[k + 1]));
            let m = choose|m: int| 0 <= m < b.len() && b[m] == a[k + 1];
            assert(row_before(order, a[0], a[k + 1]));
            assert(m > 0);
            assert(d[m - 1] == c[k]);
        }
        assert forall|k: int| 0 <= k < d.len() implies c.contains(#[trigger] d[k]) by {
            assert(d[k] == b[k + 1]);
            assert(a.contains(b[k + 1]));
            let m = choose|m: int| 0 <= m < a.len() && a[m] == b[k + 1];
            assert(row_before(order, b[0], b[k + 1]));
            assert(m > 0);
            assert(c[m - 1] == d[k]);
        }
        assert forall|x: int, y: int| 0 <= x < y < c.len() implies row_before(
            order,
            #[trigger] c[x],
            #[trigger] c[y],
        ) by {
            assert(row_before(order, a[x + 1], a[y + 1]));
        }
        assert forall|x: int, y: int| 0 <= x < y < d.len() implies row_before(
            order,
            #[trigger] d[x],
            #[trigger] d[y],
        ) by {
            assert(row_before(order, b[x + 1], b[y + 1]));
        }
        lemma_same_order(order, c, d);
        assert(a =~= seq![a[0]] + c);
        assert(b =~= seq![b[0]] + d);
    }
}

/// The rows that pass a test, in an order.
pub open spec fn listed<T: Row>(rows: Seq<T>, order: Order, keep: spec_fn(T) -> bool) -> Seq<T> {
    choose|list: Seq<T>| is_listing(rows, order, keep, list)
}

/// There is only one listing of a table.
pub proof fn lemma_listed<T: Row>(
    rows: Seq<T>,
    order: Order,
    keep: spec_fn(T) -> bool,
    list: Seq<T>,
)
    requires
        is_listing(rows, order, keep, list),
    ensures
        list == listed(rows, order, keep),
{
    let other = listed(rows, order, keep);
    assert(is_listing(rows, order, keep, other));
    assert forall|i: int| 0 <= i < list.len() implies other.contains(#[trigger] list[i]) by {
        assert(rows.contains(list[i]));
        let k = choose|k: int| 0 <= k < rows.len() && rows[k] == list[i];
        assert(keep(rows[k]));
    }
    assert forall|i: int| 0 <= i < other.len() implies list.contains(#[trigger] other[i]) by {
        assert(rows.contains(other[i]));
        let k = choose|k: int| 0 <= k < rows.len() && rows[k] == other[i];
        assert(keep(rows[k]));
    }
    lemma_same_order(order, list, other);
}

/// A row put in its place in a listing.
spec fn placed<T: Row>(order: Order, list: Seq<T>, row: T) -> Seq<T>
    decreases list.len(),
{
    if list.len() > 0 && row_before(order, row, list.last()) {
        placed(order, list.drop_last(), row).push(list.last())
    } else {
        list.push(row)
    }
}

/// A listing with a row in its place holds that row and no other new one, in the
/// order.
proof fn lemma_placed<T: Row>(order: Order, list: Seq<T>, row: T)
    requires
        forall|i: int, j: int|
            0 <= i < j < list.len() ==> row_before(order, #[trigger] list[i], #[trigger] list[j]),
        forall|i: int| 0 <= i < list.len() ==> (#[trigger] list[i]).row_id() != row.row_id(),
    ensures
        forall|i: int, j: int|
            0 <= i < j < placed(order, list, row).len() ==> row_before(
                order,
                #[trigger] placed(order, list, row)[i],
                #[trigger] placed(order, list, row)[j],
            ),
        forall|i: int|
            0 <= i < placed(order, list, row).len() ==> list.contains(
                #[trigger] placed(order, list, row)[i],
            ) || placed(order, list, row)[i] == row,
        forall|i: int| 0 <= i < list.len() ==> placed(order, list, row).contains(#[trigger] list[i]),
        placed(order, list, row).contains(row),
    decreases list.len(),
{
    let all = placed(order, list, row);
    if list.len() > 0 && row_before(order, row, list.last()) {
        let front = list.drop_last();
        let n = list.len() - 1;
        assert forall|i: int, j: int| 0 <= i < j < front.len() implies row_before(
            order,
            #[trigger] front[i],
            #[trigger] front[j],
        ) by {
            assert(row_before(order, list[i], list[j]));
        }
        assert forall|i: int| 0 <= i < front.len() implies (#[trigger] front[i]).row_id()
            != row.row_id() by {
            assert(front[i] == list[i]);
        }
        lemma_placed(order, front, row);
        let before = placed(order, front, row);
        assert forall|i: int, j: int| 0 <= i < j < all.len() implies row_before(
            order,
            #[trigger] all[i],
            #[trigger] all[j],
        ) by {
            assert(all[i] == before[i]);
            if j < before.len() {
                assert(all[j] == before[j]);
            } else if before[i] != row {
                let k = choose|k: int| 0 <= k < front.len() && front[k] == before[i];
                assert(row_before(order, list[k], list[n]));
            }
        }
        assert forall|i: int| 0 <= i < all.len() implies list.contains(#[trigger] all[i]) || all[i]
            == row by {
            if i < before.len() {
                assert(all[i] == before[i]);
                if before[i] != row {
                    let k = choose|k: int| 0 <= k < front.len() && front[k] == before[i];
                    assert(list[k] == all[i]);
                }
            } else {
                assert(list[n] == all[i]);
            }
        }
        assert forall|i: int| 0 <= i < list.len() implies all.contains(#[trigger] list[i]) by {
            if i < n {
                assert(front[i] == list[i]);
                let k = choose|k: int| 0 <= k < before.len() && before[k] == front[i];
                assert(all[k] == list[i]);
            } else {
                assert(all[before.len() as int] == list[i]);
            }
        }
        let k = choose|k: int| 0 <= k < before.len() && before[k] == row;
        assert(all[k] == row);
    } else {
        let n = list.len() as int;
        assert forall|i: int, j: int| 0 <= i < j < all.len() implies row_before(
            order,
            #[trigger] all[i],
            #[trigger] all[j],
        ) by {
            assert(all[i] == list[i]);
            if j < n {
                assert(all[j] == list[j]);
            } else if i < n - 1 {
                assert(row_before(order, list[i], list[n - 1]));
            }
        }
        assert forall|i: int| 0 <= i < list.len() implies all.contains(#[trigger] list[i]) by {
            assert(all[i] == list[i]);
        }
        assert forall|i: int| 0 <= i < all.len() implies list.contains(#[trigger] all[i]) || all[i]
            == row by {
            if i < n {
                assert(list[i] == all[i]);
            }
        }
        assert(all[n] == row);
    }
}

/// A table whose ids grow has a listing.
pub proof fn lemma_listing<T: Row>(rows: Seq<T>, order: Order, keep: spec_fn(T) -> bool)
    requires
        ids_grow(rows),
    ensures
        is_listing(rows, order, keep, listed(rows, order, keep)),
{
    let list = lemma_some_listing(rows, order, keep);
    lemma_listed(rows, order, keep, list);
}

/// A listing of a table.
proof fn lemma_some_listing<T: Row>(rows: Seq<T>, order: Order, keep: spec_fn(T) -> bool) -> (list:
    Seq<T>)
    requires
        ids_grow(rows),
    ensures
        is_listing(rows, order, keep, list),
    decreases rows.len(),
{
    if rows.len() == 0 {
        Seq::empty()
    } else {
        let front = rows.drop_last();
        let n = rows.len() - 1;
        assert forall|i: int, j: int| 0 <= i < j < front.len() implies (
        #[trigger] front[i]).row_id() < (#[trigger] front[j]).row_id() by {
            assert(rows[i].row_id() < rows[j].row_id());
        }
        let before = lemma_some_listing(front, order, keep);
        assert forall|i: int| 0 <= i < before.len() implies rows.contains(#[trigger] before[i])
            && before[i].row_id() != rows[n].row_id() by {
            assert(front.contains(before[i]));
            let k = choose|k: int| 0 <= k < front.len() && front[k] == before[i];
            assert(rows[k] == before[i]);
            assert(rows[k].row_id() < rows[n].row_id());
        }
        let list = if keep(rows[n]) {
            placed(order, before, rows[n])
        } else {
            before
        };
        if keep(rows[n]) {
            lemma_placed(order, before, rows[n]);
        }
        assert forall|i: int| 0 <= i < list.len() implies rows.contains(#[trigger] list[i]) && keep(
            list[i],
        ) by {
            if keep(rows[n]) && list[i] != rows[n] {
                assert(before.contains(list[i]));
                let k = choose|k: int| 0 <= k < before.len() && before[k] == list[i];
                assert(rows.contains(before[k]));
            }
        }
        assert forall|i: int| 0 <= i < rows.len() && keep(#[trigger] rows[i]) implies list.contains(
            rows[i],
        ) by {
            if i < n {
                assert(front[i] == rows[i]);
                assert(before.contains(rows[i]));
                let k = choose|k: int| 0 <= k < before.len() && before[k] == rows[i];
                assert(list.contains(before[k]));
            }
        }
        list
    }
}

/// The rows that pass the test, in the order.
pub fn listing<T: Row, F: Fn(&T) -> bool>(
    rows: &Vec<T>,
    order: Order,
    test: F,
    Ghost(keep): Ghost<spec_fn(T) -> bool>,
) -> (list: Vec<T>)
    requires
        ids_grow(rows@),
        tests(test, keep),
    ensures
        is_listing(rows@, order, keep, list@),
        list@ == listed(rows@, order, keep),
{
    let mut list: Vec<T> = Vec::new();
    let backward = match order {
        Order::Newest => true,
        Order::HighestId => true,
        Order::Oldest => false,
        Order::LowestId => false,
    };
    let n: usize = rows.len();
    let mut i: usize = 0;
    // The rows are stored by growing id, so that a row mostly goes to the end.
    while i < n
        invariant
            i <= n,
            n == rows.len(),
            ids_grow(rows@),
            tests(test, keep),
            forall|k: int|
                0 <= k < list@.len() ==> keep(#[trigger] list@[k]) && exists|m: int|
                    (if backward {
                        n - i <= m < n
                    } else {
                        0 <= m < i
                    }) && list@[k] == #[trigger] rows@[m],
            forall|m: int|
                (if backward {
                    n - i <= m < n
                } else {
                    0 <= m < i
                }) && keep(#[trigger] rows@[m]) ==> list@.contains(rows@[m]),
            forall|a: int, b: int|
                0 <= a < b < list@.len() ==> row_before(
                    order,
                    #[trigger] list@[a],
                    #[trigger] list@[b],
                ),
        decreases n - i,
    {
        let at: usize = if backward {
            n - 1 - i
        } else {
            i
        };
        if test(&rows[at]) {
            let ghost earlier = list@;
            let row = rows[at].duplicate();
            proof {
                assert forall|k: int| 0 <= k < earlier.len() implies (
                #[trigger] earlier[k]).row_id() != row.row_id() by {
                    let m = choose|m: int|
                        (if backward {
                            n - i <= m < n
                        } else {
                            0 <= m < i
                        }) && earlier[k] == #[trigger] rows@[m];
                    if rows@[m].row_id() == rows@[at as int].row_id() {
                        lemma_same_id(rows@, m, at as int);
                    }
                }
            }
            let ghost added = row;
            place(&mut list, order, row);
            proof {
                let p = choose|p: int|
                    0 <= p <= earlier.len() && list@ == #[trigger] earlier.insert(p, added);
                assert(list@[p] == added);
                assert(list@.contains(rows@[at as int]));
                assert forall|k: int| 0 <= k < list@.len() implies keep(#[trigger] list@[k])
                    && exists|m: int|
                    (if backward {
                        n - (i + 1) <= m < n
                    } else {
                        0 <= m < i + 1
                    }) && list@[k] == #[trigger] rows@[m] by {
                    if k == p {
                        assert(list@[k] == rows@[at as int]);
                    } else {
                        let q = if k < p { k } else { k - 1 };
                        assert(list@[k] == earlier[q]);
                        let m = choose|m: int|
                            (if backward {
                                n - i <= m < n
                            } else {
                                0 <= m < i
                            }) && earlier[q] == #[trigger] rows@[m];
                        assert(list@[k] == rows@[m]);
                    }
                }
                assert forall|m: int|
                    (if backward {
                        n - (i + 1) <= m < n
                    } else {
                        0 <= m < i + 1
                    }) && keep(#[trigger] rows@[m]) implies list@.contains(rows@[m]) by {
                    if m != at {
                        assert(earlier.contains(rows@[m]));
                        let q = choose|q: int| 0 <= q < earlier.len() && earlier[q] == rows@[m];
                        let k = if q < p { q } else { q + 1 };
                        assert(list@[k] == rows@[m]);
                    }
                }
            }
        }
        i += 1;
    }
    proof {
        assert forall|k: int| 0 <= k < list@.len() implies rows@.contains(#[trigger] list@[k])
            && keep(list@[k]) by {
            let m = choose|m: int|
                (if backward {
                    n - i <= m < n
                } else {
                    0 <= m < i
                }) && list@[k] == #[trigger] rows@[m];
            assert(rows@[m] == list@[k]);
        }
        lemma_listed(rows@, order, keep, list@);
    }
    list
}

/// The first `limit` of the rows that pass the test, in the order.
pub fn limited<T: Row, F: Fn(&T) -> bool>(
    rows: &Vec<T>,
    order: Order,
    limit: usize,
    test: F,
    Ghost(keep): Ghost<spec_fn(T) -> bool>,
) -> (list: Vec<T>)
    requires
        ids_grow(rows@),
        tests(test, keep),
    ensures
        is_limited(rows@, order, keep, limit as int, list@),
{
    let mut list = listing(rows, order, test, Ghost(keep));
    let ghost full = list@;
    proof {
        assert(is_listing(rows@, order, keep, full));
        assert(full.take(full.len() as int) =~= full);
    }
    if limit < list.len() {
        list.truncate(limit);
        proof {
            assert(list@ =~= full.take(limit as int));
        }
    }
    list
}

/// How many rows are kept.
pub open spec fn kept<T>(rows: Seq<T>, keep: spec_fn(T) -> bool) -> nat
    decreases rows.len(),
{
    if rows.len() == 0 {
        0
    } else {
        kept(rows.drop_last(), keep) + if keep(rows.last()) {
            1nat
        } else {
            0nat
        }
    }
}

/// No more rows are kept than there are.
pub proof fn lemma_kept_bound<T>(rows: Seq<T>, keep: spec_fn(T) -> bool)
    ensures
        kept(rows, keep) <= rows.len(),
    decreases rows.len(),
{
    if rows.len() > 0 {
        lemma_kept_bound(rows.drop_last(), keep);
    }
}

/// Some row is kept exactly where the number of kept rows is not zero.
pub proof fn lemma_kept_some<T>(rows: Seq<T>, keep: spec_fn(T) -> bool)
    ensures
        kept(rows, keep) > 0 <==> exists|i: int| 0 <= i < rows.len() && keep(#[trigger] rows[i]),
    decreases rows.len(),
{
    if rows.len() > 0 {
        let front = rows.drop_last();
        lemma_kept_some(front, keep);
        if kept(front, keep) > 0 {
            let i = choose|i: int| 0 <= i < front.len() && keep(#[trigger] front[i]);
            assert(keep(rows[i]));
        }
        if keep(rows.last()) {
            assert(keep(rows[rows.len() - 1]));
        }
        if exists|i: int| 0 <= i < rows.len() && keep(#[trigger] rows[i]) {
            let i = choose|i: int| 0 <= i < rows.len() && keep(#[trigger] rows[i]);
            if i < front.len() {
                assert(keep(front[i]));
            }
        }
    }
}

/// How many rows pass the test.
pub fn count_rows<T, F: Fn(&T) -> bool>(
    rows: &Vec<T>,
    test: F,
    Ghost(keep): Ghost<spec_fn(T) -> bool>,
) -> (count: usize)
    requires
        tests(test, keep),
    ensures
        count == kept(rows@, keep),
{
    let mut count: usize = 0;
    let mut i: usize = 0;
    while i < rows.len()
        invariant
            i <= rows.len(),
            tests(test, keep),
            count == kept(rows@.take(i as int), keep),
            count <= i,
        decreases rows.len() - i,
    {
        proof {
            assert(rows@.take(i + 1).drop_last() =~= rows@.take(i as int));
        }
        if test(&rows[i]) {
            count += 1;
        }
        i += 1;
    }
    proof {
        assert(rows@.take(i as int) =~= rows@);
    }
    count
}

/// Where the first row that is kept is stored.
pub open spec fn is_found<T>(rows: Seq<T>, keep: spec_fn(T) -> bool, at: Option<int>) -> bool {
    match at {
        Some(i) => 0 <= i < rows.len() && keep(rows[i]) && forall|k: int|
            0 <= k < i ==> !keep(#[trigger] rows[k]),
        None => forall|k: int| 0 <= k < rows.len() ==> !keep(#[trigger] rows[k]),
    }
}

/// Where the first row that passes the test is stored.
pub fn position<T, F: Fn(&T) -> bool>(
    rows: &Vec<T>,
    test: F,
    Ghost(keep): Ghost<spec_fn(T) -> bool>,
) -> (at: Option<usize>)
    requires
        tests(test, keep),
    ensures
        match at {
            Some(i) => is_found(rows@, keep, Some(i as int)),
            None => is_found(rows@, keep, None),
        },
{
    let mut i: usize = 0;
    while i < rows.len()
        invariant
            i <= rows.len(),
            tests(test, keep),
            forall|k: int| 0 <= k < i ==> !keep(#[trigger] rows@[k]),
        decreases rows.len() - i,
    {
        if test(&rows[i]) {
            return Some(i);
        }
        i += 1;
    }
    None
}

/// The first stored row that is kept.
pub open spec fn lookup<T>(rows: Seq<T>, keep: spec_fn(T) -> bool) -> Option<T>
    decreases rows.len(),
{
    if rows.len() == 0 {
        None
    } else {
        match lookup(rows.drop_last(), keep) {
            Some(row) => Some(row),
            None => if keep(rows.last()) {
                Some(rows.last())
            } else {
                None
            },
        }
    }
}

/// A lookup gives the row at the first position that is kept.
pub proof fn lemma_lookup<T>(rows: Seq<T>, keep: spec_fn(T) -> bool, at: Option<int>)
    requires
        is_found(rows, keep, at),
    ensures
        lookup(rows, keep) == match at {
            Some(i) => Some(rows[i]),
            None => None,
        },
    decreases rows.len(),
{
    if rows.len() > 0 {
        let front = rows.drop_last();
        match at {
            Some(i) => {
                if i < front.len() {
                    assert(front[i] == rows[i]);
                    assert forall|k: int| 0 <= k < i implies !keep(#[trigger] front[k]) by {
                        assert(!keep(rows[k]));
                    }
                    lemma_lookup(front, keep, at);
                } else {
                    assert forall|k: int| 0 <= k < front.len() implies !keep(
                        #[trigger] front[k],
                    ) by {
                        assert(!keep(rows[k]));
                    }
                    lemma_lookup(front, keep, None);
                }
            },
            None => {
                assert forall|k: int| 0 <= k < front.len() implies !keep(#[trigger] front[k]) by {
                    assert(!keep(rows[k]));
                }
                lemma_lookup(front, keep, None);
                assert(!keep(rows[rows.len() - 1]));
            },
        }
    }
}

/// What a lookup gives is stored and kept; where it gives nothing, nothing is
/// kept.
pub proof fn lemma_lookup_kept<T>(rows: Seq<T>, keep: spec_fn(T) -> bool)
    ensures
        match lookup(rows, keep) {
            Some(row) => rows.contains(row) && keep(row),
            None => forall|k: int| 0 <= k < rows.len() ==> !keep(#[trigger] rows[k]),
        },
    decreases rows.len(),
{
    if rows.len() > 0 {
        let front = rows.drop_last();
        lemma_lookup_kept(front, keep);
        match lookup(front, keep) {
            Some(row) => {
                let i = choose|i: int| 0 <= i < front.len() && front[i] == row;
                assert(rows[i] == row);
            },
            None => {
                if keep(rows.last()) {
                    assert(rows[rows.len() - 1] == rows.last());
                } else {
                    assert forall|k: int| 0 <= k < rows.len() implies !keep(
                        #[trigger] rows[k],
                    ) by {
                        if k < front.len() {
                            assert(!keep(front[k]));
                        }
                    }
                }
            },
        }
    }
}

/// The first stored row that passes the test.
pub fn find_row<T: Row, F: Fn(&T) -> bool>(
    rows: &Vec<T>,
    test: F,
    Ghost(keep): Ghost<spec_fn(T) -> bool>,
) -> (row: Option<T>)
    requires
        tests(test, keep),
    ensures
        row == lookup(rows@, keep),
{
    match position(rows, test, Ghost(keep)) {
        Some(i) => {
            proof {
                lemma_lookup(rows@, keep, Some(i as int));
            }
            Some(rows[i].duplicate())
        },
        None => {
            proof {
                lemma_lookup(rows@, keep, None);
            }
            None
        },
    }
}

/// The rows that are kept, in the order in which they are stored.
pub open spec fn retained<T>(rows: Seq<T>, keep: spec_fn(T) -> bool) -> Seq<T>
    decreases rows.len(),
{
    if rows.len() == 0 {
        Seq::empty()
    } else if keep(rows.last()) {
        retained(rows.drop_last(), keep).push(rows.last())
    } else {
        retained(rows.drop_last(), keep)
    }
}

/// Where every row is kept, all are retained.
pub proof fn lemma_retained_all<T>(rows: Seq<T>, keep: spec_fn(T) -> bool)
    requires
        forall|i: int| 0 <= i < rows.len() ==> keep(#[trigger] rows[i]),
    ensures
        retained(rows, keep) == rows,
    decreases rows.len(),
{
    if rows.len() > 0 {
        assert(keep(rows[rows.len() - 1]));
        lemma_retained_all(rows.drop_last(), keep);
        assert(rows =~= rows.drop_last().push(rows.last()));
    }
}

/// A row is retained exactly where it is stored and kept.
pub proof fn lemma_retained_contains<T>(rows: Seq<T>, keep: spec_fn(T) -> bool)
    ensures
        forall|row: T|
            #[trigger] retained(rows, keep).contains(row) <==> rows.contains(row) && keep(row),
    decreases rows.len(),
{
    if rows.len() > 0 {
        let front = rows.drop_last();
        lemma_retained_contains(front, keep);
        assert forall|row: T|
            #[trigger] retained(rows, keep).contains(row) <==> rows.contains(row) && keep(row) by {
            if rows.contains(row) && keep(row) {
                let i = choose|i: int| 0 <= i < rows.len() && rows[i] == row;
                if i < front.len() {
                    assert(front[i] == row);
                    assert(retained(front, keep).contains(row));
                    let k = choose|k: int|
                        0 <= k < retained(front, keep).len() && retained(front, keep)[k] == row;
                    assert(retained(rows, keep)[k] == row);
                } else {
                    assert(retained(rows, keep).last() == row);
                }
            }
            if retained(rows, keep).contains(row) {
                let k = choose|k: int|
                    0 <= k < retained(rows, keep).len() && retained(rows, keep)[k] == row;
                if k < retained(front, keep).len() {
                    assert(retained(front, keep)[k] == row);
                    assert(retained(front, keep).contains(row));
                    let i = choose|i: int| 0 <= i < front.len() && front[i] == row;
                    assert(rows[i] == row);
                } else {
                    assert(rows[rows.len() - 1] == row);
                }
            }
        }
    }
}

/// The rows that are retained keep their order: a relation between each earlier
/// and each later row still holds.
pub proof fn lemma_retained_pairs<T>(
    rows: Seq<T>,
    keep: spec_fn(T) -> bool,
    relation: spec_fn(T, T) -> bool,
)
    requires
        forall|i: int, j: int|
            0 <= i < j < rows.len() ==> relation(#[trigger] rows[i], #[trigger] rows[j]),
    ensures
        forall|i: int, j: int|
            0 <= i < j < retained(rows, keep).len() ==> relation(
                #[trigger] retained(rows, keep)[i],
                #[trigger] retained(rows, keep)[j],
            ),
    decreases rows.len(),
{
    if rows.len() > 0 {
        let front = rows.drop_last();
        assert forall|i: int, j: int| 0 <= i < j < front.len() implies relation(
            #[trigger] front[i],
            #[trigger] front[j],
        ) by {
            assert(relation(rows[i], rows[j]));
        }
        lemma_retained_pairs(front, keep, relation);
        lemma_retained_contains(front, keep);
        let r = retained(rows, keep);
        assert forall|i: int, j: int| 0 <= i < j < r.len() implies relation(
            #[trigger] r[i],
            #[trigger] r[j],
        ) by {
            let f = retained(front, keep);
            if j < f.len() {
                assert(relation(f[i], f[j]));
            } else {
                assert(f.contains(f[i]));
                let m = choose|m: int| 0 <= m < front.len() && front[m] == f[i];
                assert(relation(rows[m], rows[rows.len() - 1]));
            }
        }
    }
}

/// As many rows are retained as are kept.
pub proof fn lemma_retained_len<T>(rows: Seq<T>, keep: spec_fn(T) -> bool)
    ensures
        retained(rows, keep).len() == kept(rows, keep),
    decreases rows.len(),
{
    if rows.len() > 0 {
        lemma_retained_len(rows.drop_last(), keep);
    }
}

/// The rows that pass the test, in the order in which they are stored.
pub fn retain<T: Row, F: Fn(&T) -> bool>(
    rows: &Vec<T>,
    test: F,
    Ghost(keep): Ghost<spec_fn(T) -> bool>,
) -> (list: Vec<T>)
    requires
        tests(test, keep),
    ensures
        list@ == retained(rows@, keep),
{
    let mut list: Vec<T> = Vec::new();
    let mut i: usize = 0;
    while i < rows.len()
        invariant
            i <= rows.len(),
            tests(test, keep),
            list@ == retained(rows@.take(i as int), keep),
        decreases rows.len() - i,
    {
        proof {
            assert(rows@.take(i + 1).drop_last() =~= rows@.take(i as int));
        }
        if test(&rows[i]) {
            list.push(rows[i].duplicate());
        }
        i += 1;
    }
    proof {
        assert(rows@.take(i as int) =~= rows@);
    }
    list
}

/// What is picked is the first row that fits.
pub proof fn lemma_picked<T: Row>(rows: Seq<T>, order: Order, keep: spec_fn(T) -> bool)
    requires
        ids_grow(rows),
    ensures
        is_first(rows, order, keep, pick(rows, order, keep)),
    decreases rows.len(),
{
    let first = first_of(rows, order, keep);
    lemma_first_of(rows, order, keep);
    lemma_pick(rows, order, keep, first);
}

/// The first row that fits, row by row.
spec fn first_of<T: Row>(rows: Seq<T>, order: Order, keep: spec_fn(T) -> bool) -> Option<T>
    decreases rows.len(),
{
    if rows.len() == 0 {
        None
    } else {
        let before = first_of(rows.drop_last(), order, keep);
        if !keep(rows.last()) {
            before
        } else {
            match before {
                None => Some(rows.last()),
                Some(row) => if row_before(order, rows.last(), row) {
                    Some(rows.last())
                } else {
                    before
                },
            }
        }
    }
}

/// There is a first row where one fits.
proof fn lemma_first_of<T: Row>(rows: Seq<T>, order: Order, keep: spec_fn(T) -> bool)
    requires
        ids_grow(rows),
    ensures
        is_first(rows, order, keep, first_of(rows, order, keep)),
    decreases rows.len(),
{
    if rows.len() > 0 {
        let front = rows.drop_last();
        assert forall|i: int, j: int| 0 <= i < j < front.len() implies (
        #[trigger] front[i]).row_id() < (#[trigger] front[j]).row_id() by {
            assert(rows[i].row_id() < rows[j].row_id());
        }
        lemma_first_of(front, order, keep);
        let before = first_of(front, order, keep);
        let first = first_of(rows, order, keep);
        let last = rows.last();
        assert(rows[rows.len() - 1] == last);
        assert forall|i: int| 0 <= i < front.len() implies #[trigger] rows[i] == front[i] by {}
        match before {
            Some(row) => {
                let k = choose|k: int| 0 <= k < front.len() && front[k] == row;
                assert(rows[k] == row);
                assert(rows[k].row_id() < rows[rows.len() - 1].row_id());
            },
            None => {},
        }
        match first {
            Some(row) => {
                assert(rows.contains(row));
                assert forall|i: int| 0 <= i < rows.len() && keep(#[trigger] rows[i]) implies rows[i]
                    == row || row_before(order, row, rows[i]) by {
                    if i < front.len() {
                        assert(keep(front[i]));
                    }
                }
            },
            None => {
                assert forall|i: int| 0 <= i < rows.len() implies !keep(#[trigger] rows[i]) by {
                    if i < front.len() {
                        assert(!keep(front[i]));
                    }
                }
            },
        }
    }
}

/// What is looked up behind other rows is there where none of them fits.
pub proof fn lemma_lookup_pushed<T>(rows: Seq<T>, keep: spec_fn(T) -> bool, row: T)
    ensures
        lookup(rows.push(row), keep) == match lookup(rows, keep) {
            Some(known) => Some(known),
            None => if keep(row) {
                Some(row)
            } else {
                None
            },
        },
{
    assert(rows.push(row).drop_last() =~= rows);
}

} // verus!
