//! A stable order of items by a key.
use vstd::prelude::*;
use vstd::string::*;

use crate::sorted;
use crate::text;

verus! {

/// Whether item `a` stands before item `b`: by its key, and where the keys are
/// equal by its place in the list.
pub open spec fn stands_before(keys: Seq<(i64, i64)>, a: int, b: int) -> bool {
    let x = keys[a];
    let y = keys[b];
    x.0 < y.0 || (x.0 == y.0 && (x.1 < y.1 || (x.1 == y.1 && a < b)))
}

/// Whether a list holds the places of all items, in their order.
pub open spec fn is_order(keys: Seq<(i64, i64)>, order: Seq<usize>) -> bool {
    &&& forall|i: int| 0 <= i < order.len() ==> (#[trigger] order[i]) < keys.len()
    &&& forall|k: usize| k < keys.len() ==> #[trigger] order.contains(k)
    &&& forall|i: int, j: int|
        0 <= i < j < order.len() ==> stands_before(
            keys,
            (#[trigger] order[i]) as int,
            (#[trigger] order[j]) as int,
        )
}

/// The items in their order.
pub open spec fn arranged<T>(items: Seq<T>, order: Seq<usize>) -> Seq<T> {
    order.map_values(|at: usize| items[at as int])
}

/// The places of all items, in their order.
pub fn order_of(keys: &Vec<(i64, i64)>) -> (order: Vec<usize>)
    ensures
        is_order(keys@, order@),
        order@.len() == keys@.len(),
{
    let mut order: Vec<usize> = Vec::new();
    let mut i: usize = 0;
    while i < keys.len()
        invariant
            i <= keys.len(),
            order@.len() == i,
            forall|a: int| 0 <= a < order@.len() ==> (#[trigger] order@[a]) < i,
            forall|k: usize| k < i ==> #[trigger] order@.contains(k),
            forall|a: int, b: int|
                0 <= a < b < order@.len() ==> stands_before(
                    keys@,
                    (#[trigger] order@[a]) as int,
                    (#[trigger] order@[b]) as int,
                ),
        decreases keys.len() - i,
    {
        let ghost earlier = order@;
        let mut k: usize = order.len();
        while k > 0 && (keys[i].0 < keys[order[k - 1]].0 || (keys[i].0 == keys[order[k - 1]].0
            && keys[i].1 < keys[order[k - 1]].1))
            invariant
                i < keys.len(),
                k <= order.len(),
                order@ == earlier,
                forall|a: int| 0 <= a < order@.len() ==> (#[trigger] order@[a]) < i,
                forall|a: int|
                    k <= a < order@.len() ==> stands_before(
                        keys@,
                        i as int,
                        (#[trigger] order@[a]) as int,
                    ),
            decreases k,
        {
            k -= 1;
        }
        order.insert(k, i);
        proof {
            let now = order@;
            assert(now == earlier.insert(k as int, i));
            assert forall|m: usize| m < i + 1 implies #[trigger] now.contains(m) by {
                if m < i {
                    assert(earlier.contains(m));
                    let q = choose|q: int| 0 <= q < earlier.len() && earlier[q] == m;
                    let w = if q < k { q } else { q + 1 };
                    assert(now[w] == m);
                } else {
                    assert(now[k as int] == i);
                }
            }
            assert forall|a: int| 0 <= a < now.len() implies (#[trigger] now[a]) < i + 1 by {
                if a < k {
                    assert(now[a] == earlier[a]);
                } else if a > k {
                    assert(now[a] == earlier[a - 1]);
                }
            }
            assert forall|a: int, b: int| 0 <= a < b < now.len() implies stands_before(
                keys@,
                (#[trigger] now[a]) as int,
                (#[trigger] now[b]) as int,
            ) by {
                if b < k {
                    assert(stands_before(keys@, earlier[a] as int, earlier[b] as int));
                } else if a > k {
                    assert(stands_before(keys@, earlier[a - 1] as int, earlier[b - 1] as int));
                } else if a < k {
                    assert(now[a] == earlier[a]);
                    if b > k {
                        assert(stands_before(keys@, earlier[a] as int, earlier[b - 1] as int));
                    } else {
                        assert(earlier[k - 1] < i);
                        assert(stands_before(keys@, earlier[k - 1] as int, i as int));
                        if a < k - 1 {
                            assert(stands_before(
                                keys@,
                                earlier[a] as int,
                                earlier[k - 1] as int,
                            ));
                        }
                    }
                }
            }
        }
        i += 1;
    }
    order
}

/// Two orders of the same items are one.
proof fn lemma_same_places(keys: Seq<(i64, i64)>, a: Seq<usize>, b: Seq<usize>)
    requires
        forall|i: int, j: int|
            0 <= i < j < a.len() ==> stands_before(
                keys,
                (#[trigger] a[i]) as int,
                (#[trigger] a[j]) as int,
            ),
        forall|i: int, j: int|
            0 <= i < j < b.len() ==> stands_before(
                keys,
                (#[trigger] b[i]) as int,
                (#[trigger] b[j]) as int,
            ),
        forall|i: int| 0 <= i < a.len() ==> b.contains(#[trigger] a[i]),
        forall|i: int| 0 <= i < b.len() ==> a.contains(#[trigger] b[i]),
    ensures
        a == b,
    decreases a.len(),
{
    if a.len() == 0 {
        if b.len() > 0 {
            assert(a.contains(b[0]));
        }
        assert(a =~= b);
    } else {
        assert(b.contains(a[0]));
        let i = choose|i: int| 0 <= i < b.len() && b[i] == a[0];
        assert(a.contains(b[0]));
        let j = choose|j: int| 0 <= j < a.len() && a[j] == b[0];
        if i > 0 && j > 0 {
            assert(stands_before(keys, b[0] as int, b[i] as int));
            assert(stands_before(keys, a[0] as int, a[j] as int));
        }
        assert(a[0] == b[0]);
        let c = a.skip(1);
        let d = b.skip(1);
        assert forall|k: int| 0 <= k < c.len() implies d.contains(#[trigger] c[k]) by {
            assert(c[k] == a[k + 1]);
            assert(b.contains(a[k + 1]));
            let m = choose|m: int| 0 <= m < b.len() && b[m] == a[k + 1];
            assert(stands_before(keys, a[0] as int, a[k + 1] as int));
            assert(m > 0);
            assert(d[m - 1] == c[k]);
        }
        assert forall|k: int| 0 <= k < d.len() implies c.contains(#[trigger] d[k]) by {
            assert(d[k] == b[k + 1]);
            assert(a.contains(b[k + 1]));
            let m = choose|m: int| 0 <= m < a.len() && a[m] == b[k + 1];
            assert(stands_before(keys, b[0] as int, b[k + 1] as int));
            assert(m > 0);
            assert(c[m - 1] == d[k]);
        }
        assert forall|x: int, y: int| 0 <= x < y < c.len() implies stands_before(
            keys,
            (#[trigger] c[x]) as int,
            (#[trigger] c[y]) as int,
        ) by {
            assert(stands_before(keys, a[x + 1] as int, a[y + 1] as int));
        }
        assert forall|x: int, y: int| 0 <= x < y < d.len() implies stands_before(
            keys,
            (#[trigger] d[x]) as int,
            (#[trigger] d[y]) as int,
        ) by {
            assert(stands_before(keys, b[x + 1] as int, b[y + 1] as int));
        }
        lemma_same_places(keys, c, d);
        assert(a =~= seq![a[0]] + c);
        assert(b =~= seq![b[0]] + d);
    }
}

/// The order of items.
pub open spec fn order_by(keys: Seq<(i64, i64)>) -> Seq<usize> {
    choose|order: Seq<usize>| is_order(keys, order)
}

/// There is only one order of items.
pub proof fn lemma_order_by(keys: Seq<(i64, i64)>, order: Seq<usize>)
    requires
        is_order(keys, order),
    ensures
        order == order_by(keys),
{
    let other = order_by(keys);
    assert(is_order(keys, other));
    assert forall|i: int| 0 <= i < order.len() implies other.contains(#[trigger] order[i]) by {
        assert(order[i] < keys.len());
    }
    assert forall|i: int| 0 <= i < other.len() implies order.contains(#[trigger] other[i]) by {
        assert(other[i] < keys.len());
    }
    lemma_same_places(keys, order, other);
}

/// Items have an order.
pub proof fn lemma_order_exists(keys: Seq<(i64, i64)>)
    requires
        keys.len() <= usize::MAX,
    ensures
        exists|order: Seq<usize>| is_order(keys, order),
    decreases keys.len(),
{
    if keys.len() == 0 {
        assert(is_order(keys, Seq::<usize>::empty()));
    } else {
        let short = keys.drop_last();
        lemma_order_exists(short);
        let order = choose|order: Seq<usize>| is_order(short, order);
        let last = (keys.len() - 1) as usize;
        let k = first_after(keys, order, last, 0);
        lemma_first_after(keys, order, last, 0);
        let now = order.insert(k, last);
        assert forall|i: int| 0 <= i < now.len() implies (#[trigger] now[i]) < keys.len() by {
            if i < k {
                assert(order[i] < short.len());
            } else if i > k {
                assert(order[i - 1] < short.len());
            }
        }
        assert forall|m: usize| m < keys.len() implies #[trigger] now.contains(m) by {
            if m < last {
                assert(order.contains(m));
                let q = choose|q: int| 0 <= q < order.len() && order[q] == m;
                let w = if q < k { q } else { q + 1 };
                assert(now[w] == m);
            } else {
                assert(now[k] == last);
            }
        }
        assert forall|a: int, b: int| 0 <= a < b < now.len() implies stands_before(
            keys,
            (#[trigger] now[a]) as int,
            (#[trigger] now[b]) as int,
        ) by {
            let x = if a < k { a } else { a - 1 };
            let y = if b < k { b } else { b - 1 };
            if a != k && b != k {
                assert(now[a] == order[x] && now[b] == order[y]);
                assert(order[x] < short.len() && order[y] < short.len());
                assert(stands_before(short, order[x] as int, order[y] as int));
            } else if b == k {
                assert(order[a] < short.len());
            } else {
                assert(order[b - 1] < short.len());
                assert(order[k] < short.len());
                if b - 1 > k {
                    assert(stands_before(short, order[k] as int, order[b - 1] as int));
                }
            }
        }
        assert(is_order(keys, now));
    }
}

/// The first place, from one on, whose item stands after an item.
spec fn first_after(keys: Seq<(i64, i64)>, order: Seq<usize>, item: usize, from: int) -> int
    decreases order.len() - from,
{
    if from >= order.len() {
        from
    } else if stands_before(keys, item as int, order[from] as int) {
        from
    } else {
        first_after(keys, order, item, from + 1)
    }
}

/// What is known of that place.
proof fn lemma_first_after(keys: Seq<(i64, i64)>, order: Seq<usize>, item: usize, from: int)
    requires
        0 <= from <= order.len(),
        forall|i: int| 0 <= i < order.len() ==> (#[trigger] order[i]) < item,
    ensures
        from <= first_after(keys, order, item, from) <= order.len(),
        first_after(keys, order, item, from) < order.len() ==> stands_before(
            keys,
            item as int,
            order[first_after(keys, order, item, from)] as int,
        ),
        forall|i: int|
            from <= i < first_after(keys, order, item, from) ==> stands_before(
                keys,
                (#[trigger] order[i]) as int,
                item as int,
            ),
    decreases order.len() - from,
{
    if from < order.len() {
        assert(order[from] < item);
        if !stands_before(keys, item as int, order[from] as int) {
            lemma_first_after(keys, order, item, from + 1);
        }
    }
}

/// Whether item `a` stands before item `b`: by its text, and where the texts are
/// equal by its place in the list.
pub open spec fn reads_before(keys: Seq<Seq<char>>, a: int, b: int) -> bool {
    sorted::less(keys[a], keys[b]) || (keys[a] == keys[b] && a < b)
}

/// Whether a list holds the places of all items, in the order of their texts.
pub open spec fn is_text_order(keys: Seq<Seq<char>>, order: Seq<usize>) -> bool {
    &&& forall|i: int| 0 <= i < order.len() ==> (#[trigger] order[i]) < keys.len()
    &&& forall|k: usize| k < keys.len() ==> #[trigger] order.contains(k)
    &&& forall|i: int, j: int|
        0 <= i < j < order.len() ==> reads_before(
            keys,
            (#[trigger] order[i]) as int,
            (#[trigger] order[j]) as int,
        )
}

/// The places of all items, in the order of their texts.
pub fn text_order_of(keys: &Vec<String>) -> (order: Vec<usize>)
    ensures
        is_text_order(text::views(keys@), order@),
        order@.len() == keys@.len(),
{
    let ghost all = text::views(keys@);
    let mut order: Vec<usize> = Vec::new();
    let mut i: usize = 0;
    while i < keys.len()
        invariant
            i <= keys.len(),
            all == text::views(keys@),
            order@.len() == i,
            forall|a: int| 0 <= a < order@.len() ==> (#[trigger] order@[a]) < i,
            forall|k: usize| k < i ==> #[trigger] order@.contains(k),
            forall|a: int, b: int|
                0 <= a < b < order@.len() ==> reads_before(
                    all,
                    (#[trigger] order@[a]) as int,
                    (#[trigger] order@[b]) as int,
                ),
        decreases keys.len() - i,
    {
        let ghost earlier = order@;
        let mut k: usize = order.len();
        while k > 0 && sorted::before(keys[i].as_str(), keys[order[k - 1]].as_str())
            invariant
                i < keys.len(),
                k <= order.len(),
                all == text::views(keys@),
                order@ == earlier,
                forall|a: int| 0 <= a < order@.len() ==> (#[trigger] order@[a]) < i,
                forall|a: int|
                    k <= a < order@.len() ==> reads_before(
                        all,
                        i as int,
                        (#[trigger] order@[a]) as int,
                    ),
            decreases k,
        {
            k -= 1;
        }
        proof {
            if k > 0 {
                assert(earlier[k - 1] < i);
                sorted::lemma_less_total(all[i as int], all[earlier[k - 1] as int]);
                assert(!sorted::less(all[i as int], all[earlier[k - 1] as int]));
                assert(reads_before(all, earlier[k - 1] as int, i as int));
            }
        }
        order.insert(k, i);
        proof {
            let now = order@;
            assert(now == earlier.insert(k as int, i));
            assert forall|m: usize| m < i + 1 implies #[trigger] now.contains(m) by {
                if m < i {
                    assert(earlier.contains(m));
                    let q = choose|q: int| 0 <= q < earlier.len() && earlier[q] == m;
                    let w = if q < k { q } else { q + 1 };
                    assert(now[w] == m);
                } else {
                    assert(now[k as int] == i);
                }
            }
            assert forall|a: int| 0 <= a < now.len() implies (#[trigger] now[a]) < i + 1 by {
                if a < k {
                    assert(now[a] == earlier[a]);
                } else if a > k {
                    assert(now[a] == earlier[a - 1]);
                }
            }
            assert forall|a: int, b: int| 0 <= a < b < now.len() implies reads_before(
                all,
                (#[trigger] now[a]) as int,
                (#[trigger] now[b]) as int,
            ) by {
                if b < k {
                    assert(reads_before(all, earlier[a] as int, earlier[b] as int));
                } else if a > k {
                    assert(reads_before(all, earlier[a - 1] as int, earlier[b - 1] as int));
                } else if a < k {
                    assert(now[a] == earlier[a]);
                    if b > k {
                        assert(reads_before(all, earlier[a] as int, earlier[b - 1] as int));
                    } else if a < k - 1 {
                        assert(reads_before(all, earlier[a] as int, earlier[k - 1] as int));
                        lemma_reads_transitive(
                            all,
                            earlier[a] as int,
                            earlier[k - 1] as int,
                            i as int,
                        );
                    }
                }
            }
        }
        i += 1;
    }
    order
}

/// What stands before something stands before all that follows it.
proof fn lemma_reads_transitive(keys: Seq<Seq<char>>, a: int, b: int, c: int)
    requires
        reads_before(keys, a, b),
        reads_before(keys, b, c),
    ensures
        reads_before(keys, a, c),
{
    if sorted::less(keys[a], keys[b]) && sorted::less(keys[b], keys[c]) {
        sorted::lemma_less_transitive(keys[a], keys[b], keys[c]);
    }
}

} // verus!
