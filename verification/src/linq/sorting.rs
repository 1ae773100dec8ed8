//! Stable sorting, as mathematics.
//!
//! The sorted sequence is built by taking the items in their order and putting
//! each one behind the last item already placed that does not come after it.
//! Items that compare alike therefore keep the order in which they came.

use vstd::prelude::*;

verus! {

/// Any two items are comparable by `le`, and `le` is transitive.
pub open spec fn total_preorder<T>(le: spec_fn(T, T) -> bool) -> bool {
    &&& forall|a: T, b: T| #[trigger] le(a, b) || le(b, a)
    &&& forall|a: T, b: T, c: T| #[trigger] le(a, b) && #[trigger] le(b, c) ==> le(a, c)
}

/// No item of `s` comes after a later one.
pub open spec fn sorted_by<T>(s: Seq<T>, le: spec_fn(T, T) -> bool) -> bool {
    forall|i: int, j: int| 0 <= i < j < s.len() ==> le(#[trigger] s[i], #[trigger] s[j])
}

/// The index just behind the last item of `s` that does not come after `x`, or
/// 0 if every item of `s` comes after `x`.
pub open spec fn place_of<T>(s: Seq<T>, x: T, le: spec_fn(T, T) -> bool) -> int
    decreases s.len(),
{
    if s.len() == 0 {
        0
    } else if le(s.last(), x) {
        s.len() as int
    } else {
        place_of(s.drop_last(), x, le)
    }
}

/// `s` with `x` put in at `place_of(s, x, le)`.
pub open spec fn put_in_place<T>(s: Seq<T>, x: T, le: spec_fn(T, T) -> bool) -> Seq<T> {
    s.insert(place_of(s, x, le), x)
}

/// The items of `s` in ascending order, items that compare alike in the order
/// in which `s` has them.
pub open spec fn stable_sort<T>(s: Seq<T>, le: spec_fn(T, T) -> bool) -> Seq<T>
    decreases s.len(),
{
    if s.len() == 0 {
        Seq::empty()
    } else {
        put_in_place(stable_sort(s.drop_last(), le), s.last(), le)
    }
}

/// The items that compare alike with `e`: neither comes after the other.
pub open spec fn alike<T>(e: T, le: spec_fn(T, T) -> bool) -> spec_fn(T) -> bool {
    |x: T| le(x, e) && le(e, x)
}

/// The place of `x` lies in `s`; the item before it, if any, does not come
/// after `x`, and every item from it on does.
pub proof fn lemma_place_of<T>(s: Seq<T>, x: T, le: spec_fn(T, T) -> bool)
    ensures
        0 <= place_of(s, x, le) <= s.len(),
        place_of(s, x, le) > 0 ==> le(s[place_of(s, x, le) - 1], x),
        forall|j: int| place_of(s, x, le) <= j < s.len() ==> !le(#[trigger] s[j], x),
    decreases s.len(),
{
    if s.len() > 0 && !le(s.last(), x) {
        lemma_place_of(s.drop_last(), x, le);
        let p = place_of(s, x, le);
        assert forall|j: int| p <= j < s.len() implies !le(#[trigger] s[j], x) by {
            if j < s.len() - 1 {
                assert(s.drop_last()[j] == s[j]);
            }
        }
        if p > 0 {
            assert(s.drop_last()[p - 1] == s[p - 1]);
        }
    }
}

/// The items of `s` behind its first `n` all come after `x`: then the place of
/// `x` in `s` is its place in the first `n` items.
pub proof fn lemma_place_of_prefix<T>(s: Seq<T>, x: T, le: spec_fn(T, T) -> bool, n: int)
    requires
        0 <= n <= s.len(),
        forall|j: int| n <= j < s.len() ==> !le(#[trigger] s[j], x),
    ensures
        place_of(s, x, le) == place_of(s.take(n), x, le),
    decreases s.len() - n,
{
    if n < s.len() {
        assert(!le(s[s.len() - 1], x));
        let t = s.drop_last();
        assert forall|j: int| n <= j < t.len() implies !le(#[trigger] t[j], x) by {
            assert(t[j] == s[j]);
        }
        lemma_place_of_prefix(t, x, le, n);
        assert(t.take(n) =~= s.take(n));
    } else {
        assert(s.take(n) =~= s);
    }
}

/// Putting an item in its place keeps a sorted sequence sorted.
pub proof fn lemma_put_in_place_sorted<T>(s: Seq<T>, x: T, le: spec_fn(T, T) -> bool)
    requires
        total_preorder(le),
        sorted_by(s, le),
    ensures
        sorted_by(put_in_place(s, x, le), le),
{
    lemma_place_of(s, x, le);
    let p = place_of(s, x, le);
    let t = put_in_place(s, x, le);
    assert forall|i: int, j: int| 0 <= i < j < t.len() implies le(
        #[trigger] t[i],
        #[trigger] t[j],
    ) by {
        if j < p {
            assert(t[i] == s[i] && t[j] == s[j]);
        } else if j == p {
            assert(t[i] == s[i]);
            if i < p - 1 {
                assert(le(s[i], s[p - 1]));
            }
            assert(le(s[p - 1], x));
        } else if i < p {
            assert(t[i] == s[i] && t[j] == s[j - 1]);
        } else if i == p {
            assert(t[j] == s[j - 1]);
            assert(!le(s[j - 1], x));
            assert(le(s[j - 1], x) || le(x, s[j - 1]));
        } else {
            assert(t[i] == s[i - 1] && t[j] == s[j - 1]);
        }
    }
}

/// The sorted sequence is in ascending order.
pub proof fn lemma_stable_sort_sorted<T>(s: Seq<T>, le: spec_fn(T, T) -> bool)
    requires
        total_preorder(le),
    ensures
        sorted_by(stable_sort(s, le), le),
    decreases s.len(),
{
    if s.len() > 0 {
        lemma_stable_sort_sorted(s.drop_last(), le);
        lemma_put_in_place_sorted(stable_sort(s.drop_last(), le), s.last(), le);
    }
}

/// The sorted sequence holds the items of `s`, each as often as `s` does.
pub proof fn lemma_stable_sort_multiset<T>(s: Seq<T>, le: spec_fn(T, T) -> bool)
    ensures
        stable_sort(s, le).to_multiset() == s.to_multiset(),
        stable_sort(s, le).len() == s.len(),
    decreases s.len(),
{
    broadcast use vstd::seq_lib::group_to_multiset_ensures;

    if s.len() > 0 {
        let rest = s.drop_last();
        let t = stable_sort(rest, le);
        lemma_stable_sort_multiset(rest, le);
        lemma_place_of(t, s.last(), le);
        assert(s =~= rest.push(s.last()));
        assert(put_in_place(t, s.last(), le).to_multiset() =~= t.to_multiset().insert(s.last()));
        assert(s.to_multiset() =~= rest.to_multiset().insert(s.last()));
    }
}

/// Filtering a sequence with an item put in at `p` filters what stands before
/// `p`, then the item, then what stands from `p` on.
pub proof fn lemma_filter_insert<T>(s: Seq<T>, p: int, x: T, c: spec_fn(T) -> bool)
    requires
        0 <= p <= s.len(),
    ensures
        s.insert(p, x).filter(c) == s.take(p).filter(c) + seq![x].filter(c) + s.skip(p).filter(c),
        s.filter(c) == s.take(p).filter(c) + s.skip(p).filter(c),
{
    assert(s.insert(p, x) =~= s.take(p) + seq![x] + s.skip(p));
    assert(s =~= s.take(p) + s.skip(p));
    Seq::filter_distributes_over_add(s.take(p) + seq![x], s.skip(p), c);
    Seq::filter_distributes_over_add(s.take(p), seq![x], c);
    Seq::filter_distributes_over_add(s.take(p), s.skip(p), c);
}

/// The filter of a single item.
pub proof fn lemma_filter_one<T>(x: T, c: spec_fn(T) -> bool)
    ensures
        seq![x].filter(c) == (if c(x) {
            seq![x]
        } else {
            Seq::empty()
        }),
{
    reveal_with_fuel(Seq::filter, 2);
    assert(seq![x].drop_last() =~= Seq::<T>::empty());
    assert(Seq::<T>::empty().push(x) =~= seq![x]);
}

/// Sorting is stable: the items that compare alike with `e` stand in the sorted
/// sequence in the order in which `s` has them.
pub proof fn lemma_stable_sort_stable<T>(s: Seq<T>, le: spec_fn(T, T) -> bool, e: T)
    requires
        total_preorder(le),
    ensures
        stable_sort(s, le).filter(alike(e, le)) == s.filter(alike(e, le)),
    decreases s.len(),
{
    let c = alike(e, le);
    if s.len() == 0 {
    } else {
        let rest = s.drop_last();
        let x = s.last();
        let t = stable_sort(rest, le);
        let p = place_of(t, x, le);
        lemma_stable_sort_stable(rest, le, e);
        lemma_place_of(t, x, le);
        lemma_filter_insert(t, p, x, c);
        lemma_filter_one(x, c);
        assert(s =~= rest.push(x));
        rest.lemma_filter_push(x, c);
        if c(x) {
            let tail = t.skip(p);
            assert forall|i: int| 0 <= i < tail.len() implies !c(#[trigger] tail[i]) by {
                assert(tail[i] == t[p + i]);
                assert(!le(t[p + i], x));
                if c(tail[i]) {
                    assert(le(tail[i], e) && le(e, x));
                }
            }
            tail.lemma_all_neg_filter_empty(c);
            assert(t.take(p).filter(c) + seq![x] + tail.filter(c) =~= (t.take(p).filter(c)
                + tail.filter(c)).push(x));
        } else {
            assert(t.take(p).filter(c) + Seq::<T>::empty() + t.skip(p).filter(c) =~= t.take(
                p,
            ).filter(c) + t.skip(p).filter(c));
        }
    }
}

/// The place of an item depends only on which items of the sequence do not
/// come after it.
pub proof fn lemma_place_of_alike<A, B>(
    s: Seq<A>,
    x: A,
    le: spec_fn(A, A) -> bool,
    s2: Seq<B>,
    x2: B,
    le2: spec_fn(B, B) -> bool,
)
    requires
        s.len() == s2.len(),
        forall|i: int| 0 <= i < s.len() ==> le(#[trigger] s[i], x) == le2(s2[i], x2),
    ensures
        place_of(s, x, le) == place_of(s2, x2, le2),
    decreases s.len(),
{
    if s.len() > 0 {
        assert(le(s[s.len() - 1], x) == le2(s2[s.len() - 1], x2));
        let r = s.drop_last();
        let r2 = s2.drop_last();
        assert forall|i: int| 0 <= i < r.len() implies le(#[trigger] r[i], x) == le2(r2[i], x2) by {
            assert(r[i] == s[i]);
            assert(r2[i] == s2[i]);
            assert(le(s[i], x) == le2(s2[i], x2));
        }
        lemma_place_of_alike(r, x, le, r2, x2, le2);
    }
}

/// Two orders that agree on every pair of items sort alike.
pub proof fn lemma_stable_sort_alike<T>(
    s: Seq<T>,
    le: spec_fn(T, T) -> bool,
    le2: spec_fn(T, T) -> bool,
)
    requires
        forall|a: T, b: T| #[trigger] le(a, b) == le2(a, b),
    ensures
        stable_sort(s, le) == stable_sort(s, le2),
    decreases s.len(),
{
    if s.len() > 0 {
        lemma_stable_sort_alike(s.drop_last(), le, le2);
        let done = stable_sort(s.drop_last(), le);
        assert forall|i: int| 0 <= i < done.len() implies le(#[trigger] done[i], s.last()) == le2(
            done[i],
            s.last(),
        ) by {}
        lemma_place_of_alike(done, s.last(), le, done, s.last(), le2);
    }
}

} // verus!
