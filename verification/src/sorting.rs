//! Stable sorting: the order that a stable sort by a strict "comes before"
//! relation gives, and a verified insertion sort that produces it.

use vstd::prelude::*;

verus! {

/// `s` with `x` placed after every element that `x` does not come before,
/// scanning from the end: what a stable insertion puts in place.
pub open spec fn insert_sorted<T>(s: Seq<T>, x: T, before: spec_fn(T, T) -> bool) -> Seq<T>
    decreases s.len(),
{
    if s.len() == 0 {
        seq![x]
    } else if before(x, s.last()) {
        insert_sorted(s.drop_last(), x, before).push(s.last())
    } else {
        s.push(x)
    }
}

/// The stable sort of `s` by the strict order `before`: elements that
/// neither comes before the other keep their relative order.
pub open spec fn sort_by<T>(s: Seq<T>, before: spec_fn(T, T) -> bool) -> Seq<T>
    decreases s.len(),
{
    if s.len() == 0 {
        s
    } else {
        insert_sorted(sort_by(s.drop_last(), before), s.last(), before)
    }
}

/// `s` is sorted: no element comes before an earlier one.
pub open spec fn is_sorted_by<T>(s: Seq<T>, before: spec_fn(T, T) -> bool) -> bool {
    forall|i: int, j: int| 0 <= i < j < s.len() ==> !before(s[j], s[i])
}

/// `before` is a strict weak order: irreflexive, transitive, and its
/// incomparability is transitive.
pub open spec fn strict_weak_order<T>(before: spec_fn(T, T) -> bool) -> bool {
    &&& forall|a: T| !#[trigger] before(a, a)
    &&& forall|a: T, b: T, c: T| #[trigger] before(a, b) && #[trigger] before(b, c) ==> before(a, c)
    &&& forall|a: T, b: T, c: T| !#[trigger] before(a, b) && !#[trigger] before(b, c) ==> !before(a, c)
}

proof fn lemma_insert_at<T>(s: Seq<T>, x: T, before: spec_fn(T, T) -> bool, i: int)
    requires
        0 <= i <= s.len(),
        forall|k: int| i <= k < s.len() ==> before(x, #[trigger] s[k]),
        i > 0 ==> !before(x, s[i - 1]),
    ensures
        insert_sorted(s, x, before) == s.take(i).push(x) + s.skip(i),
    decreases s.len(),
{
    if s.len() == 0 {
        assert(s.take(i).push(x) + s.skip(i) =~= seq![x]);
    } else if i == s.len() {
        assert(s.take(i).push(x) + s.skip(i) =~= s.push(x));
    } else {
        assert(before(x, s[s.len() - 1]));
        let t = s.drop_last();
        assert forall|k: int| i <= k < t.len() implies before(x, #[trigger] t[k]) by {
            assert(t[k] == s[k]);
        }
        if i > 0 {
            assert(t[i - 1] == s[i - 1]);
        }
        lemma_insert_at(t, x, before, i);
        assert(t.take(i).push(x) + t.skip(i) + seq![s.last()] =~= s.take(i).push(x) + s.skip(i));
    }
}

proof fn lemma_insert_sorted_facts<T>(s: Seq<T>, x: T, before: spec_fn(T, T) -> bool)
    ensures
        insert_sorted(s, x, before).to_multiset() == s.to_multiset().insert(x),
        forall|i: int|
            0 <= i < insert_sorted(s, x, before).len() ==> #[trigger] insert_sorted(
                s,
                x,
                before,
            )[i] == x || s.contains(insert_sorted(s, x, before)[i]),
        strict_weak_order(before) && is_sorted_by(s, before) ==> is_sorted_by(
            insert_sorted(s, x, before),
            before,
        ),
    decreases s.len(),
{
    broadcast use vstd::seq_lib::group_to_multiset_ensures;

    let r = insert_sorted(s, x, before);
    if s.len() == 0 {
        assert(seq![x] =~= Seq::<T>::empty().push(x));
    } else if before(x, s.last()) {
        let t = s.drop_last();
        lemma_insert_sorted_facts(t, x, before);
        let rt = insert_sorted(t, x, before);
        assert(s =~= t.push(s.last()));
        assert(r.to_multiset() =~= s.to_multiset().insert(x));
        assert forall|i: int| 0 <= i < r.len() implies #[trigger] r[i] == x || s.contains(r[i]) by {
            if i < rt.len() {
                if rt[i] != x {
                    let k = choose|k: int| 0 <= k < t.len() && t[k] == rt[i];
                    assert(s[k] == t[k]);
                }
            } else {
                assert(s[s.len() - 1] == s.last());
            }
        }
        if strict_weak_order(before) && is_sorted_by(s, before) {
            assert forall|i: int, j: int| 0 <= i < j < r.len() implies !before(r[j], r[i]) by {
                if j < rt.len() {
                    assert(is_sorted_by(t, before)) by {
                        assert forall|a: int, b: int| 0 <= a < b < t.len() implies !before(t[b], t[a]) by {
                            assert(t[a] == s[a] && t[b] == s[b]);
                        }
                    }
                } else {
                    if rt[i] == x {
                        if before(s.last(), x) {
                            assert(before(x, x));
                        }
                    } else {
                        let k = choose|k: int| 0 <= k < t.len() && t[k] == rt[i];
                        assert(s[k] == t[k]);
                        assert(s[s.len() - 1] == s.last());
                    }
                }
            }
        }
    } else {
        assert(r.to_multiset() =~= s.to_multiset().insert(x));
        assert forall|i: int| 0 <= i < r.len() implies #[trigger] r[i] == x || s.contains(r[i]) by {
            if i < s.len() {
                assert(r[i] == s[i]);
            }
        }
        if strict_weak_order(before) && is_sorted_by(s, before) {
            assert forall|i: int, j: int| 0 <= i < j < r.len() implies !before(r[j], r[i]) by {
                if j == s.len() {
                    assert(r[j] == x);
                    assert(r[i] == s[i]);
                    if i < s.len() - 1 {
                        assert(!before(s[s.len() - 1], s[i]));
                        assert(!before(x, s[s.len() - 1]));
                    }
                } else {
                    assert(r[i] == s[i] && r[j] == s[j]);
                }
            }
        }
    }
}

/// Sorting only reorders: the result holds the same elements, each as
/// many times as the input does.
pub proof fn lemma_sort_by_permutes<T>(s: Seq<T>, before: spec_fn(T, T) -> bool)
    ensures
        sort_by(s, before).to_multiset() == s.to_multiset(),
        sort_by(s, before).len() == s.len(),
    decreases s.len(),
{
    broadcast use vstd::seq_lib::group_to_multiset_ensures;

    if s.len() > 0 {
        let t = s.drop_last();
        lemma_sort_by_permutes(t, before);
        lemma_insert_sorted_facts(sort_by(t, before), s.last(), before);
        assert(s =~= t.push(s.last()));
    }
    assert(sort_by(s, before).to_multiset().len() == s.to_multiset().len());
}

/// Sorting loses no element: whatever the input holds, the result holds.
pub proof fn lemma_sort_by_contains<T>(s: Seq<T>, before: spec_fn(T, T) -> bool, x: T)
    requires
        s.contains(x),
    ensures
        sort_by(s, before).contains(x),
{
    broadcast use vstd::seq_lib::group_to_multiset_ensures;

    lemma_sort_by_permutes(s, before);
    assert(s.to_multiset().count(x) > 0);
    assert(sort_by(s, before).to_multiset().count(x) > 0);
}

/// When `before` is a strict weak order, the stable sort is sorted.
pub proof fn lemma_sort_by_sorted<T>(s: Seq<T>, before: spec_fn(T, T) -> bool)
    requires
        strict_weak_order(before),
    ensures
        is_sorted_by(sort_by(s, before), before),
    decreases s.len(),
{
    if s.len() > 0 {
        let t = s.drop_last();
        lemma_sort_by_sorted(t, before);
        lemma_insert_sorted_facts(sort_by(t, before), s.last(), before);
    }
}

/// Inserts `x` into `v` as a stable insertion sort does; `lt` decides
/// whether its first argument comes before its second.
pub fn insert_stable<T, F: Fn(&T, &T) -> bool>(
    v: &mut Vec<T>,
    x: T,
    lt: &F,
    Ghost(before): Ghost<spec_fn(T, T) -> bool>,
)
    requires
        forall|a: &T, b: &T| #[trigger] lt.requires((a, b)),
        forall|a: &T, b: &T, r: bool| #[trigger] lt.ensures((a, b), r) ==> r == before(*a, *b),
    ensures
        final(v)@ == insert_sorted(old(v)@, x, before),
{
    let ghost s = v@;
    let mut i = v.len();
    while i > 0
        invariant
            v@ == s,
            0 <= i <= s.len(),
            forall|k: int| i <= k < s.len() ==> before(x, #[trigger] s[k]),
            forall|a: &T, b: &T| #[trigger] lt.requires((a, b)),
            forall|a: &T, b: &T, r: bool| #[trigger] lt.ensures((a, b), r) ==> r == before(*a, *b),
        ensures
            v@ == s,
            0 <= i <= s.len(),
            forall|k: int| i <= k < s.len() ==> before(x, #[trigger] s[k]),
            i > 0 ==> !before(x, s[i - 1]),
        decreases i,
    {
        let goes_before = lt(&x, &v[i - 1]);
        if !goes_before {
            break;
        }
        i = i - 1;
    }
    proof {
        lemma_insert_at(s, x, before, i as int);
    }
    v.insert(i, x);
    assert(v@ =~= s.take(i as int).push(x) + s.skip(i as int));
}

/// Sorts `v` stably by `lt`, which decides whether its first argument
/// comes before its second.
pub fn sort_stable<T, F: Fn(&T, &T) -> bool>(
    v: Vec<T>,
    lt: &F,
    Ghost(before): Ghost<spec_fn(T, T) -> bool>,
) -> (r: Vec<T>)
    requires
        forall|a: &T, b: &T| #[trigger] lt.requires((a, b)),
        forall|a: &T, b: &T, r: bool| #[trigger] lt.ensures((a, b), r) ==> r == before(*a, *b),
    ensures
        r@ == sort_by(v@, before),
{
    let ghost s = v@;
    let mut rest = v;
    let mut sorted: Vec<T> = Vec::new();
    let n = rest.len();
    let mut i: usize = 0;
    while i < n
        invariant
            n == s.len(),
            0 <= i <= n,
            rest@ == s.skip(i as int),
            sorted@ == sort_by(s.take(i as int), before),
            forall|a: &T, b: &T| #[trigger] lt.requires((a, b)),
            forall|a: &T, b: &T, r: bool| #[trigger] lt.ensures((a, b), r) ==> r == before(*a, *b),
        decreases n - i,
    {
        let x = rest.remove(0);
        assert(x == s[i as int]);
        assert(rest@ =~= s.skip(i + 1));
        assert(s.take(i + 1).drop_last() =~= s.take(i as int));
        insert_stable(&mut sorted, x, lt, Ghost(before));
        i = i + 1;
    }
    assert(s.take(n as int) =~= s);
    sorted
}

} // verus!
