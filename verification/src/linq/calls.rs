//! What function values give, as relations between sequences.
//!
//! An executable function value is known to the verifier through two
//! relations: the arguments on which it may be called, and the results that a
//! call on given arguments may give. The adapters state what they yield through
//! these relations, so that a caller learns of each item that comes out exactly
//! what the function promises of its results.

use vstd::prelude::*;

verus! {

/// `f` may be called on every item of `s`.
pub open spec fn callable_on<X, Y, F: Fn(X) -> Y>(f: F, s: Seq<X>) -> bool {
    forall|i: int| 0 <= i < s.len() ==> call_requires(f, (#[trigger] s[i],))
}

/// `f` may be called on a reference to every item of `s`.
pub open spec fn callable_on_refs<X, Y, F: Fn(&X) -> Y>(f: F, s: Seq<X>) -> bool {
    forall|i: int| 0 <= i < s.len() ==> call_requires(f, (&#[trigger] s[i],))
}

/// The sequence that has `r`, if there is one, in front of `rest`.
pub open spec fn with_front<T>(r: Option<T>, rest: Seq<T>) -> Seq<T> {
    match r {
        Some(x) => seq![x] + rest,
        None => rest,
    }
}

/// The first components of the pairs.
pub open spec fn firsts<X, Y>(ps: Seq<(X, Y)>) -> Seq<X> {
    ps.map_values(|p: (X, Y)| p.0)
}

/// Each pair holds an item and a result that `f` may give on a reference to
/// it.
pub open spec fn tagged<X, Y, F: Fn(&X) -> Y>(f: F, ps: Seq<(X, Y)>) -> bool {
    forall|i: int| 0 <= i < ps.len() ==> call_ensures(f, (&(#[trigger] ps[i]).0,), ps[i].1)
}

/// `t` holds, for each item of `s` and in the same order, a result that `f`
/// may give on it.
pub open spec fn mapped<X, Y, F: Fn(X) -> Y>(f: F, s: Seq<X>, t: Seq<Y>) -> bool {
    &&& t.len() == s.len()
    &&& forall|i: int| 0 <= i < s.len() ==> call_ensures(f, (#[trigger] s[i],), t[i])
}

/// A pair passes when its second component is `true`.
pub open spec fn passed<X>() -> spec_fn((X, bool)) -> bool {
    |p: (X, bool)| p.1
}

/// `t` holds the items of `s` on which `pred` gave `true`, in their order:
/// `ps` pairs each item of `s` with what `pred` gave on it.
pub open spec fn filtered_by<X, F: Fn(&X) -> bool>(
    pred: F,
    ps: Seq<(X, bool)>,
    s: Seq<X>,
    t: Seq<X>,
) -> bool {
    &&& firsts(ps) == s
    &&& tagged(pred, ps)
    &&& t == firsts(ps.filter(passed()))
}

/// `t` holds the items of `s` on which `pred` may have given `true`, in their
/// order.
pub open spec fn filtered<X, F: Fn(&X) -> bool>(pred: F, s: Seq<X>, t: Seq<X>) -> bool {
    exists|ps: Seq<(X, bool)>| #[trigger] filtered_by(pred, ps, s, t)
}

/// Mapping nothing gives nothing.
pub proof fn lemma_mapped_empty<X, Y, F: Fn(X) -> Y>(f: F)
    ensures
        mapped(f, Seq::<X>::empty(), Seq::<Y>::empty()),
{
}

/// An item and a result of `f` on it go in front of a mapping.
pub proof fn lemma_mapped_step<X, Y, F: Fn(X) -> Y>(f: F, x: X, y: Y, s: Seq<X>, t: Seq<Y>)
    requires
        call_ensures(f, (x,), y),
        mapped(f, s, t),
    ensures
        mapped(f, seq![x] + s, seq![y] + t),
{
    let s2 = seq![x] + s;
    let t2 = seq![y] + t;
    assert forall|i: int| 0 <= i < s2.len() implies call_ensures(f, (#[trigger] s2[i],), t2[i]) by {
        if i > 0 {
            assert(s2[i] == s[i - 1]);
            assert(t2[i] == t[i - 1]);
        }
    }
}

/// Filtering nothing gives nothing.
pub proof fn lemma_filtered_empty<X, F: Fn(&X) -> bool>(pred: F)
    ensures
        filtered(pred, Seq::<X>::empty(), Seq::<X>::empty()),
{
    let ps = Seq::<(X, bool)>::empty();
    reveal(Seq::filter);
    assert(firsts(ps) =~= Seq::<X>::empty());
    assert(firsts(ps.filter(passed())) =~= Seq::<X>::empty());
    assert(filtered_by(pred, ps, Seq::<X>::empty(), Seq::<X>::empty()));
}

/// An item goes in front of a filtering: into what stays if `pred` gave
/// `true` on it, and only into what was filtered if it gave `false`.
pub proof fn lemma_filtered_step<X, F: Fn(&X) -> bool>(
    pred: F,
    x: X,
    verdict: bool,
    s: Seq<X>,
    t: Seq<X>,
)
    requires
        call_ensures(pred, (&x,), verdict),
        filtered(pred, s, t),
    ensures
        verdict ==> filtered(pred, seq![x] + s, seq![x] + t),
        !verdict ==> filtered(pred, seq![x] + s, t),
{
    let ps = choose|ps: Seq<(X, bool)>| #[trigger] filtered_by(pred, ps, s, t);
    let ps2 = seq![(x, verdict)] + ps;
    assert(firsts(ps2) =~= seq![x] + s);
    assert forall|i: int| 0 <= i < ps2.len() implies call_ensures(
        pred,
        (&(#[trigger] ps2[i]).0,),
        ps2[i].1,
    ) by {
        if i > 0 {
            assert(ps2[i] == ps[i - 1]);
        }
    }
    ps.lemma_filter_prepend((x, verdict), passed());
    if verdict {
        assert(firsts(seq![(x, verdict)] + ps.filter(passed())) =~= seq![x] + t);
        assert(filtered_by(pred, ps2, seq![x] + s, seq![x] + t));
    } else {
        assert(Seq::<(X, bool)>::empty() + ps.filter(passed()) =~= ps.filter(passed()));
        assert(filtered_by(pred, ps2, seq![x] + s, t));
    }
}

/// Where `f` can give nothing on an item of `s` but what `g` says, a mapping of
/// `s` by `f` is the image of `s` under `g`: as long as `s`, and item by item
/// the image of the item of `s`.
pub proof fn lemma_mapped_is_map<X, Y, F: Fn(X) -> Y>(
    f: F,
    g: spec_fn(X) -> Y,
    s: Seq<X>,
    t: Seq<Y>,
)
    requires
        mapped(f, s, t),
        forall|i: int, y: Y|
            0 <= i < s.len() && #[trigger] call_ensures(f, (s[i],), y) ==> y == g(s[i]),
    ensures
        t == s.map_values(g),
        t.len() == s.len(),
        forall|i: int| 0 <= i < s.len() ==> #[trigger] t[i] == g(s[i]),
{
    assert forall|i: int| 0 <= i < s.len() implies #[trigger] t[i] == g(s[i]) by {
        assert(call_ensures(f, (s[i],), t[i]));
    }
    assert(t =~= s.map_values(g));
}

/// The indices of the items of `s` on which `p` holds, ascending.
pub open spec fn kept<A>(s: Seq<A>, p: spec_fn(A) -> bool) -> Seq<int>
    decreases s.len(),
{
    if s.len() == 0 {
        Seq::empty()
    } else if p(s.last()) {
        kept(s.drop_last(), p).push(s.len() - 1)
    } else {
        kept(s.drop_last(), p)
    }
}

/// The filtered sequence is the input with the items left out on which `p`
/// fails: its items are those at the kept indices, which ascend strictly and
/// are the indices at which `p` holds. So the items that stay keep their order,
/// and `p` holds on each of them.
pub proof fn lemma_filter_kept<A>(s: Seq<A>, p: spec_fn(A) -> bool)
    ensures
        s.filter(p).len() == kept(s, p).len(),
        forall|i: int|
            0 <= i < kept(s, p).len() ==> 0 <= (#[trigger] kept(s, p)[i]) < s.len() && s.filter(
                p,
            )[i] == s[kept(s, p)[i]] && p(s.filter(p)[i]),
        forall|i: int, j: int|
            0 <= i < j < kept(s, p).len() ==> (#[trigger] kept(s, p)[i]) < (#[trigger] kept(
                s,
                p,
            )[j]),
        forall|n: int| 0 <= n < s.len() && p(s[n]) ==> kept(s, p).contains(n),
    decreases s.len(),
{
    reveal(Seq::filter);
    if s.len() > 0 {
        let rest = s.drop_last();
        lemma_filter_kept(rest, p);
        let ks = kept(s, p);
        let kr = kept(rest, p);
        assert forall|i: int| 0 <= i < ks.len() implies 0 <= (#[trigger] ks[i]) < s.len()
            && s.filter(p)[i] == s[ks[i]] && p(s.filter(p)[i]) by {
            if i < kr.len() {
                assert(ks[i] == kr[i]);
                assert(rest.filter(p)[i] == rest[kr[i]]);
                assert(rest[kr[i]] == s[kr[i]]);
            }
        }
        assert forall|i: int, j: int| 0 <= i < j < ks.len() implies (#[trigger] ks[i]) < (
        #[trigger] ks[j]) by {
            assert(ks[i] == kr[i]);
            assert(kr[i] < rest.len());
            if j < kr.len() {
                assert(ks[j] == kr[j]);
            }
        }
        assert forall|n: int| 0 <= n < s.len() && p(s[n]) implies ks.contains(n) by {
            if n < rest.len() {
                assert(rest[n] == s[n]);
                assert(kr.contains(n));
                let i = choose|i: int| 0 <= i < kr.len() && kr[i] == n;
                assert(ks[i] == n);
            } else {
                assert(ks[ks.len() - 1] == n);
            }
        }
    }
}

/// What a filtering keeps is the items of `s` at some indices, which ascend
/// strictly: the items that stay keep their order. They are the items on which
/// `pred` gave `true`, and `pred` gave `true` on each of them.
pub proof fn lemma_filtered_kept<X, F: Fn(&X) -> bool>(
    pred: F,
    ps: Seq<(X, bool)>,
    s: Seq<X>,
    t: Seq<X>,
)
    requires
        filtered_by(pred, ps, s, t),
    ensures
        t.len() == kept(ps, passed()).len(),
        t.len() <= s.len(),
        forall|i: int|
            0 <= i < t.len() ==> 0 <= (#[trigger] kept(ps, passed())[i]) < s.len() && t[i]
                == s[kept(ps, passed())[i]],
        forall|i: int| 0 <= i < t.len() ==> call_ensures(pred, (&#[trigger] t[i],), true),
        forall|i: int, j: int|
            0 <= i < j < t.len() ==> (#[trigger] kept(ps, passed())[i]) < (#[trigger] kept(
                ps,
                passed(),
            )[j]),
        forall|n: int| 0 <= n < ps.len() && (#[trigger] ps[n]).1 ==> kept(ps, passed()).contains(n),
{
    let at = kept(ps, passed());
    lemma_filter_kept(ps, passed());
    ps.lemma_filter_len(passed());
    assert forall|i: int| 0 <= i < t.len() implies 0 <= (#[trigger] at[i]) < s.len() && t[i]
        == s[at[i]] && call_ensures(pred, (&t[i],), true) by {
        assert(ps.filter(passed())[i] == ps[at[i]]);
        assert(passed::<X>()(ps[at[i]]));
        assert(call_ensures(pred, (&ps[at[i]].0,), ps[at[i]].1));
    }
    assert forall|i: int| 0 <= i < t.len() implies call_ensures(pred, (&#[trigger] t[i],), true) by {
        assert(0 <= at[i] < s.len());
    }
    assert forall|n: int| 0 <= n < ps.len() && (#[trigger] ps[n]).1 implies at.contains(n) by {
        assert(passed::<X>()(ps[n]));
    }
}

/// Where each pair holds an item and what `p` says of it, the items of the
/// pairs that pass are the items on which `p` holds.
pub proof fn lemma_firsts_filter<X>(ps: Seq<(X, bool)>, p: spec_fn(X) -> bool)
    requires
        forall|i: int| 0 <= i < ps.len() ==> (#[trigger] ps[i]).1 == p(ps[i].0),
    ensures
        firsts(ps.filter(passed())) == firsts(ps).filter(p),
    decreases ps.len(),
{
    reveal(Seq::filter);
    if ps.len() == 0 {
        assert(firsts(ps.filter(passed())) =~= firsts(ps).filter(p));
    } else {
        let rest = ps.drop_last();
        let x = ps.last();
        lemma_firsts_filter(rest, p);
        assert(ps =~= rest.push(x));
        rest.lemma_filter_push(x, passed());
        assert(firsts(ps) =~= firsts(rest).push(x.0));
        firsts(rest).lemma_filter_push(x.0, p);
        assert(passed::<X>()(x) == p(x.0));
        if p(x.0) {
            assert(firsts(rest.filter(passed()).push(x)) =~= firsts(rest.filter(passed())).push(
                x.0,
            ));
        }
    }
}

/// Where `pred` can give nothing on an item of `s` but what `p` says, a
/// filtering of `s` by `pred` is `s` filtered by `p`.
pub proof fn lemma_filtered_is_filter<X, F: Fn(&X) -> bool>(
    pred: F,
    p: spec_fn(X) -> bool,
    s: Seq<X>,
    t: Seq<X>,
)
    requires
        filtered(pred, s, t),
        forall|i: int, b: bool|
            0 <= i < s.len() && #[trigger] call_ensures(pred, (&s[i],), b) ==> b == p(s[i]),
    ensures
        t == s.filter(p),
{
    let ps = choose|ps: Seq<(X, bool)>| #[trigger] filtered_by(pred, ps, s, t);
    assert forall|i: int| 0 <= i < ps.len() implies (#[trigger] ps[i]).1 == p(ps[i].0) by {
        assert(call_ensures(pred, (&ps[i].0,), ps[i].1));
        assert(s[i] == ps[i].0);
    }
    lemma_firsts_filter(ps, p);
}

} // verus!
