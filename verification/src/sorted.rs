//! Text in order: comparison by character, and lists of distinct texts kept in
//! ascending order.
use vstd::prelude::*;

use crate::text;

verus! {

/// Whether `a` comes before `b`: at the first difference `a` has the smaller
/// character, or `a` is a proper beginning of `b`.
pub open spec fn less(a: Seq<char>, b: Seq<char>) -> bool
    decreases a.len(),
{
    if b.len() == 0 {
        false
    } else if a.len() == 0 {
        true
    } else if a[0] != b[0] {
        a[0] < b[0]
    } else {
        less(a.skip(1), b.skip(1))
    }
}

/// No text comes before itself.
pub proof fn lemma_less_irreflexive(a: Seq<char>)
    ensures
        !less(a, a),
    decreases a.len(),
{
    if a.len() > 0 {
        lemma_less_irreflexive(a.skip(1));
    }
}

/// Of two different texts one comes before the other.
pub proof fn lemma_less_total(a: Seq<char>, b: Seq<char>)
    ensures
        less(a, b) || less(b, a) || a == b,
    decreases a.len(),
{
    if a.len() == 0 && b.len() == 0 {
        assert(a =~= b);
    }
    if a.len() > 0 && b.len() > 0 && a[0] == b[0] {
        lemma_less_total(a.skip(1), b.skip(1));
        if a.skip(1) == b.skip(1) {
            assert(a =~= seq![a[0]] + a.skip(1));
            assert(b =~= seq![b[0]] + b.skip(1));
        }
    }
}

/// What comes before an earlier text comes before a later one.
pub proof fn lemma_less_transitive(a: Seq<char>, b: Seq<char>, c: Seq<char>)
    requires
        less(a, b),
        less(b, c),
    ensures
        less(a, c),
    decreases a.len(),
{
    if a.len() > 0 && b.len() > 0 && c.len() > 0 && a[0] == b[0] && b[0] == c[0] {
        lemma_less_transitive(a.skip(1), b.skip(1), c.skip(1));
    }
}

/// No two texts come before each other.
pub proof fn lemma_less_asymmetric(a: Seq<char>, b: Seq<char>)
    requires
        less(a, b),
    ensures
        !less(b, a),
        a != b,
{
    if less(b, a) {
        lemma_less_transitive(a, b, a);
    }
    lemma_less_irreflexive(a);
}

/// Whether `a` comes before `b`.
pub fn before(a: &str, b: &str) -> (yes: bool)
    ensures
        yes == less(a@, b@),
{
    let x = text::chars_of(a);
    let y = text::chars_of(b);
    let mut i: usize = 0;
    proof {
        assert(x@.skip(0) =~= x@);
        assert(y@.skip(0) =~= y@);
    }
    loop
        invariant
            x@ == a@,
            y@ == b@,
            i <= x.len(),
            i <= y.len(),
            less(a@, b@) == less(x@.skip(i as int), y@.skip(i as int)),
        decreases x.len() - i,
    {
        if i == y.len() {
            return false;
        }
        if i == x.len() {
            return true;
        }
        if x[i] != y[i] {
            return x[i] < y[i];
        }
        proof {
            assert(x@.skip(i as int).skip(1) =~= x@.skip(i + 1));
            assert(y@.skip(i as int).skip(1) =~= y@.skip(i + 1));
        }
        i += 1;
    }
}

/// Whether each text of a list comes before all later ones; none occurs twice.
pub open spec fn ascending(list: Seq<Seq<char>>) -> bool {
    forall|i: int, j: int| 0 <= i < j < list.len() ==> less(list[i], list[j])
}

/// A list in ascending order is settled by which texts are in it.
pub proof fn lemma_ascending_unique(a: Seq<Seq<char>>, b: Seq<Seq<char>>)
    requires
        ascending(a),
        ascending(b),
        forall|t: Seq<char>| a.contains(t) <==> b.contains(t),
    ensures
        a == b,
    decreases a.len(),
{
    if a.len() == 0 {
        if b.len() > 0 {
            assert(b.contains(b[0]));
        }
        assert(a =~= b);
    } else {
        assert(a.contains(a.last()));
        assert(b.len() > 0);
        assert(b.contains(b.last()));
        let i = choose|i: int| 0 <= i < b.len() && b[i] == a.last();
        let j = choose|j: int| 0 <= j < a.len() && a[j] == b.last();
        if i < b.len() - 1 && j < a.len() - 1 {
            assert(less(b[i], b.last()));
            assert(less(a[j], a.last()));
            lemma_less_asymmetric(a.last(), b.last());
        }
        assert(a.last() == b.last());
        let x = a.drop_last();
        let y = b.drop_last();
        assert forall|t: Seq<char>| x.contains(t) <==> y.contains(t) by {
            if x.contains(t) {
                let k = choose|k: int| 0 <= k < x.len() && x[k] == t;
                assert(a[k] == t);
                assert(a.contains(t));
                lemma_less_asymmetric(a[k], a.last());
                let m = choose|m: int| 0 <= m < b.len() && b[m] == t;
                assert(y[m] == t);
            }
            if y.contains(t) {
                let k = choose|k: int| 0 <= k < y.len() && y[k] == t;
                assert(b[k] == t);
                assert(b.contains(t));
                lemma_less_asymmetric(b[k], b.last());
                let m = choose|m: int| 0 <= m < a.len() && a[m] == t;
                assert(x[m] == t);
            }
        }
        lemma_ascending_unique(x, y);
        assert(a =~= x.push(a.last()));
        assert(b =~= y.push(b.last()));
    }
}

/// Whether each string of a list comes before all later ones.
pub open spec fn in_order(list: Seq<String>) -> bool {
    ascending(text::views(list))
}

/// Puts `item` in its place in an ascending list, unless it is there already.
/// Whether it was new.
pub fn insert(list: &mut Vec<String>, item: String) -> (new: bool)
    requires
        in_order(old(list)@),
    ensures
        in_order(final(list)@),
        new == !text::views(old(list)@).contains(item@),
        forall|t: Seq<char>|
            text::views(final(list)@).contains(t) <==> text::views(old(list)@).contains(t) || t
                == item@,
        !new ==> final(list)@ == old(list)@,
        new ==> final(list)@.len() == old(list)@.len() + 1,
{
    let ghost start = list@;
    let mut k: usize = list.len();
    while k > 0 && before(item.as_str(), list[k - 1].as_str())
        invariant
            k <= list.len(),
            list@ == start,
            forall|i: int| k <= i < list.len() ==> less(item@, (#[trigger] list@[i])@),
        decreases k,
    {
        k -= 1;
    }
    if k > 0 && text::same(item.as_str(), list[k - 1].as_str()) {
        proof {
            assert(text::views(start)[k - 1] == item@);
        }
        return false;
    }
    proof {
        if k > 0 {
            lemma_less_total(item@, start[k - 1]@);
        }
        assert forall|i: int| 0 <= i < k implies less((#[trigger] start[i])@, item@) by {
            assert(less(start[k - 1]@, item@));
            if i < k - 1 {
                assert(less(text::views(start)[i], text::views(start)[k - 1]));
                lemma_less_transitive(start[i]@, start[k - 1]@, item@);
            }
        }
        if text::views(start).contains(item@) {
            let i = choose|i: int| 0 <= i < start.len() && text::views(start)[i] == item@;
            assert(start[i]@ == item@);
            lemma_less_irreflexive(item@);
        }
    }
    let ghost added = item;
    list.insert(k, item);
    proof {
        let now = list@;
        assert(now == start.insert(k as int, added));
        assert forall|i: int, j: int| 0 <= i < j < text::views(now).len() implies less(
            text::views(now)[i],
            text::views(now)[j],
        ) by {
            let vi = if i < k { start[i]@ } else if i == k { added@ } else { start[i - 1]@ };
            let vj = if j < k { start[j]@ } else if j == k { added@ } else { start[j - 1]@ };
            assert(text::views(now)[i] == vi);
            assert(text::views(now)[j] == vj);
            if i < k && j > k {
                assert(less(text::views(start)[i], text::views(start)[j - 1]));
            } else if j < k {
                assert(less(text::views(start)[i], text::views(start)[j]));
            } else if i > k {
                assert(less(text::views(start)[i - 1], text::views(start)[j - 1]));
            }
        }
        assert forall|t: Seq<char>|
            text::views(now).contains(t) <==> text::views(start).contains(t) || t == added@ by {
            if text::views(now).contains(t) {
                let i = choose|i: int| 0 <= i < now.len() && text::views(now)[i] == t;
                if i < k {
                    assert(text::views(start)[i] == t);
                } else if i > k {
                    assert(text::views(start)[i - 1] == t);
                }
            }
            if text::views(start).contains(t) {
                let i = choose|i: int| 0 <= i < start.len() && text::views(start)[i] == t;
                if i < k {
                    assert(text::views(now)[i] == t);
                } else {
                    assert(text::views(now)[i + 1] == t);
                }
            }
            if t == added@ {
                assert(text::views(now)[k as int] == t);
            }
        }
    }
    true
}

/// The distinct texts of a list, in ascending order.
pub open spec fn is_sorted_set(list: Seq<Seq<char>>, sorted: Seq<Seq<char>>) -> bool {
    &&& ascending(sorted)
    &&& forall|t: Seq<char>| sorted.contains(t) <==> list.contains(t)
}

/// The distinct strings of a list, in ascending order.
pub fn sorted_set(list: &Vec<String>) -> (sorted: Vec<String>)
    ensures
        is_sorted_set(text::views(list@), text::views(sorted@)),
        (sorted@.len() == list@.len()) <==> text::views(list@).no_duplicates(),
        sorted@.len() <= list@.len(),
{
    let mut sorted: Vec<String> = Vec::new();
    let mut i: usize = 0;
    let ghost all = text::views(list@);
    while i < list.len()
        invariant
            i <= list.len(),
            all == text::views(list@),
            in_order(sorted@),
            forall|t: Seq<char>| text::views(sorted@).contains(t) <==> all.take(i as int).contains(t),
            sorted@.len() <= i,
            (sorted@.len() == i) <==> all.take(i as int).no_duplicates(),
        decreases list.len() - i,
    {
        let ghost earlier = text::views(sorted@);
        let ghost t0 = all.take(i as int);
        let ghost t1 = all.take(i + 1);
        let item = list[i].clone();
        proof {
            assert(t1 =~= t0.push(all[i as int]));
        }
        let new = insert(&mut sorted, item);
        proof {
            assert forall|t: Seq<char>| text::views(sorted@).contains(t) <==> t1.contains(t) by {
                if t1.contains(t) {
                    let k = choose|k: int| 0 <= k < t1.len() && t1[k] == t;
                    if k < i {
                        assert(t0[k] == t);
                        assert(t0.contains(t));
                    }
                }
                if t0.contains(t) {
                    let k = choose|k: int| 0 <= k < t0.len() && t0[k] == t;
                    assert(t1[k] == t);
                }
                assert(t1[i as int] == all[i as int]);
            }
            if t1.no_duplicates() {
                assert forall|a: int, b: int| 0 <= a < b < t0.len() implies t0[a] != t0[b] by {
                    assert(t1[a] != t1[b]);
                }
                assert(t0.no_duplicates());
                if t0.contains(all[i as int]) {
                    let k = choose|k: int| 0 <= k < t0.len() && t0[k] == all[i as int];
                    assert(t1[k] == t1[i as int]);
                }
                assert(new);
            }
            if new && t0.no_duplicates() {
                assert forall|a: int, b: int|
                    0 <= a < t1.len() && 0 <= b < t1.len() && a != b implies t1[a] != t1[b] by {
                    if a == i {
                        assert(t0.contains(t0[b]));
                    } else if b == i {
                        assert(t0.contains(t0[a]));
                    } else {
                        assert(t0[a] != t0[b]);
                    }
                }
            }
        }
        i += 1;
    }
    proof {
        assert(all.take(i as int) =~= all);
    }
    sorted
}

} // verus!
