//! Orders by several criteria in turn, and sorting.
use core::cmp::Ordering;

use vstd::prelude::*;

verus! {

/// Whether key `a` comes before key `b`: at the first place from `i` on where they differ, `a` has
/// the smaller number.
pub open spec fn before_from(a: Seq<int>, b: Seq<int>, i: int) -> bool
    decreases a.len() - i,
{
    0 <= i < a.len() && (a[i] < b[i] || (a[i] == b[i] && before_from(a, b, i + 1)))
}

/// The lexicographic order of keys of the same length.
pub open spec fn before(a: Seq<int>, b: Seq<int>) -> bool {
    before_from(a, b, 0)
}

/// How key `a` compares with key `b`.
pub open spec fn order_of(a: Seq<int>, b: Seq<int>) -> Ordering {
    if before(a, b) {
        Ordering::Less
    } else if before(b, a) {
        Ordering::Greater
    } else {
        Ordering::Equal
    }
}

/// The relation "not after" that a key induces.
pub open spec fn not_after<T>(key: spec_fn(T) -> Seq<int>) -> spec_fn(T, T) -> bool {
    |x: T, y: T| !before(key(y), key(x))
}

proof fn lemma_before_unequal(a: Seq<int>, b: Seq<int>, i: int)
    requires
        a.len() == b.len(),
        0 <= i,
    ensures
        !(before_from(a, b, i) && before_from(b, a, i)),
        !before_from(a, b, i) && !before_from(b, a, i) ==> forall|j: int|
            i <= j < a.len() ==> a[j] == b[j],
    decreases a.len() - i,
{
    if i < a.len() {
        lemma_before_unequal(a, b, i + 1);
    }
}

proof fn lemma_before_trans(a: Seq<int>, b: Seq<int>, c: Seq<int>, i: int)
    requires
        a.len() == b.len() == c.len(),
        0 <= i,
    ensures
        before_from(a, b, i) && before_from(b, c, i) ==> before_from(a, c, i),
        !before_from(b, a, i) && before_from(b, c, i) ==> before_from(a, c, i),
        before_from(a, b, i) && !before_from(c, b, i) ==> before_from(a, c, i),
    decreases a.len() - i,
{
    if i < a.len() {
        lemma_before_trans(a, b, c, i + 1);
        lemma_before_unequal(a, b, i + 1);
        lemma_before_unequal(b, c, i + 1);
    }
}

/// Keys of one length are totally ordered: of two that differ exactly one comes first, and what
/// comes before something that comes before a third comes before the third.
pub proof fn lemma_keys_total_order(a: Seq<int>, b: Seq<int>, c: Seq<int>)
    requires
        a.len() == b.len() == c.len(),
    ensures
        !before(a, a),
        !(before(a, b) && before(b, a)),
        !before(a, b) && !before(b, a) ==> a == b,
        before(a, b) && before(b, c) ==> before(a, c),
{
    lemma_before_unequal(a, a, 0);
    lemma_before_unequal(a, b, 0);
    if !before(a, b) && !before(b, a) {
        assert(a =~= b);
    }
    lemma_before_trans(a, b, c, 0);
}

/// A key that tells all values apart orders them totally.
pub proof fn lemma_key_total_ordering<T>(key: spec_fn(T) -> Seq<int>, len: nat)
    requires
        forall|x: T| #[trigger] key(x).len() == len,
        forall|x: T, y: T| #[trigger] key(x) == #[trigger] key(y) ==> x == y,
    ensures
        vstd::relations::total_ordering(not_after(key)),
{
    let leq = not_after(key);
    assert forall|x: T| #[trigger] leq(x, x) by {
        lemma_keys_total_order(key(x), key(x), key(x));
    }
    assert forall|x: T, y: T| #[trigger] leq(x, y) && #[trigger] leq(y, x) implies x == y by {
        lemma_keys_total_order(key(x), key(y), key(x));
    }
    assert forall|x: T, y: T, z: T| #[trigger] leq(x, y) && #[trigger] leq(y, z) implies leq(x, z) by {
        lemma_keys_total_order(key(x), key(y), key(z));
        lemma_keys_total_order(key(z), key(y), key(x));
        lemma_keys_total_order(key(z), key(x), key(y));
        lemma_before_trans(key(z), key(x), key(y), 0);
        lemma_before_trans(key(x), key(y), key(z), 0);
    }
    assert forall|x: T, y: T| #[trigger] leq(x, y) || #[trigger] leq(y, x) by {
        lemma_keys_total_order(key(x), key(y), key(x));
    }
}

/// `compare` can compare any two of `items`, and does so by `key`.
pub open spec fn orders_by<T, F: Fn(&T, &T) -> Ordering>(
    compare: F,
    key: spec_fn(T) -> Seq<int>,
    items: Seq<T>,
) -> bool {
    forall|i: int, j: int|
        #![trigger items[i], items[j]]
        0 <= i < items.len() && 0 <= j < items.len() ==> {
            &&& compare.requires((&items[i], &items[j]))
            &&& key(items[i]).len() == key(items[j]).len()
            &&& forall|o: Ordering|
                compare.ensures((&items[i], &items[j]), o) ==> o == order_of(
                    key(items[i]),
                    key(items[j]),
                )
        }
}

/// `slice::sort_unstable_by`: the items are put in the order of `compare`, where that is a total
/// order (else the call may panic). Nothing is claimed of the order of items that compare as
/// equal.
#[verifier::external_body]
pub(crate) fn sort_unstable_by<T, F: Fn(&T, &T) -> Ordering>(items: &mut Vec<T>, compare: F)
    requires
        exists|key: spec_fn(T) -> Seq<int>| #[trigger] orders_by(compare, key, old(items)@),
    ensures
        final(items)@.to_multiset() == old(items)@.to_multiset(),
        forall|key: spec_fn(T) -> Seq<int>| #[trigger]
            orders_by(compare, key, old(items)@) ==> vstd::relations::sorted_by(
                final(items)@,
                not_after(key),
            ),
{
    items.sort_unstable_by(compare)
}

/// Filtering a list filters what it holds.
pub proof fn lemma_filter_to_multiset<T>(list: Seq<T>, keep: spec_fn(T) -> bool)
    ensures
        list.filter(keep).to_multiset() == list.to_multiset().filter(keep),
    decreases list.len(),
{
    broadcast use vstd::multiset::group_multiset_axioms;

    reveal(Seq::filter);
    if list.len() > 0 {
        let rest = list.drop_last();
        lemma_filter_to_multiset(rest, keep);
        assert(list =~= rest.push(list.last()));
        vstd::seq_lib::to_multiset_build(rest, list.last());
        vstd::seq_lib::to_multiset_build(rest.filter(keep), list.last());
    } else {
        broadcast use vstd::seq_lib::group_to_multiset_ensures;

        assert(list.to_multiset() =~= vstd::multiset::Multiset::empty());
    }
    assert(list.filter(keep).to_multiset() =~= list.to_multiset().filter(keep));
}

/// Lists that hold the same, filtered in the same way, hold the same, and as many.
pub proof fn lemma_filter_ignores_order<T>(a: Seq<T>, b: Seq<T>, keep: spec_fn(T) -> bool)
    requires
        a.to_multiset() == b.to_multiset(),
    ensures
        a.filter(keep).to_multiset() == b.filter(keep).to_multiset(),
        a.filter(keep).len() == b.filter(keep).len(),
{
    lemma_filter_to_multiset(a, keep);
    lemma_filter_to_multiset(b, keep);
    vstd::seq_lib::to_multiset_len(a.filter(keep));
    vstd::seq_lib::to_multiset_len(b.filter(keep));
}

/// Lists that hold the same, mapped in the same way, hold the same.
pub proof fn lemma_map_ignores_order<T, U>(a: Seq<T>, b: Seq<T>, f: spec_fn(T) -> U)
    requires
        a.to_multiset() == b.to_multiset(),
    ensures
        a.map_values(f).to_multiset() == b.map_values(f).to_multiset(),
    decreases a.len(),
{
    vstd::seq_lib::to_multiset_len(a);
    vstd::seq_lib::to_multiset_len(b);
    if a.len() == 0 {
        assert(a.map_values(f) =~= b.map_values(f));
    } else {
        let n = a.len() - 1;
        let x = a[n];
        assert(a.contains(x));
        vstd::seq_lib::to_multiset_contains(a, x);
        vstd::seq_lib::to_multiset_contains(b, x);
        let j = choose|j: int| 0 <= j < b.len() && b[j] == x;
        vstd::seq_lib::to_multiset_remove(a, n);
        vstd::seq_lib::to_multiset_remove(b, j);
        lemma_map_ignores_order(a.remove(n), b.remove(j), f);
        let fa = a.map_values(f);
        let fb = b.map_values(f);
        assert(a.remove(n).map_values(f) =~= fa.remove(n));
        assert(b.remove(j).map_values(f) =~= fb.remove(j));
        assert(fa.remove(n).insert(n, f(x)) =~= fa);
        assert(fb.remove(j).insert(j, f(x)) =~= fb);
        vstd::seq_lib::to_multiset_insert(fa.remove(n), n, f(x));
        vstd::seq_lib::to_multiset_insert(fb.remove(j), j, f(x));
    }
}

/// Lists without repetitions that contain the same hold the same.
pub proof fn lemma_same_contents<T>(a: Seq<T>, b: Seq<T>)
    requires
        a.no_duplicates(),
        b.no_duplicates(),
        forall|x: T| #[trigger] a.contains(x) <==> b.contains(x),
    ensures
        a.to_multiset() == b.to_multiset(),
{
    a.lemma_multiset_has_no_duplicates();
    b.lemma_multiset_has_no_duplicates();
    assert forall|x: T| #[trigger] a.to_multiset().count(x) == b.to_multiset().count(x) by {
        vstd::seq_lib::to_multiset_contains(a, x);
        vstd::seq_lib::to_multiset_contains(b, x);
        assert(a.contains(x) <==> b.contains(x));
    }
    assert(a.to_multiset() =~= b.to_multiset());
}

} // verus!
