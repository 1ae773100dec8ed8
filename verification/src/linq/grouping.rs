//! Grouping by key, as mathematics.
//!
//! The groups are built by taking the items in their order, each with its key.
//! An item joins the group that has its key, at the end; where no group has its
//! key, it starts a new group, which goes where the order of the keys puts it.

use crate::linq::calls::firsts;
use crate::linq::sorting::{
    lemma_place_of, lemma_place_of_alike, lemma_place_of_prefix, place_of, stable_sort,
    total_preorder,
};
use vstd::prelude::*;

verus! {

/// The keys of the groups, group by group.
pub open spec fn keys_of<K, T>(gs: Seq<(K, Seq<T>)>) -> Seq<K> {
    gs.map_values(|g: (K, Seq<T>)| g.0)
}

/// The members of the groups, one group after the other.
pub open spec fn members_of<K, T>(gs: Seq<(K, Seq<T>)>) -> Seq<T> {
    gs.map_values(|g: (K, Seq<T>)| g.1).flatten()
}

/// `a` and `b` are the same key: neither comes after the other.
pub open spec fn same_key<K>(le: spec_fn(K, K) -> bool, a: K, b: K) -> bool {
    le(a, b) && le(b, a)
}

/// The items that come with the key `k`.
pub open spec fn with_key<T, K>(le: spec_fn(K, K) -> bool, k: K) -> spec_fn((T, K)) -> bool {
    |p: (T, K)| same_key(le, p.1, k)
}

/// The groups `gs` with the item `x` of key `k` added.
pub open spec fn add_to_groups<K, T>(
    gs: Seq<(K, Seq<T>)>,
    k: K,
    x: T,
    le: spec_fn(K, K) -> bool,
) -> Seq<(K, Seq<T>)> {
    let p = place_of(keys_of(gs), k, le);
    if p > 0 && le(k, gs[p - 1].0) {
        gs.update(p - 1, (gs[p - 1].0, gs[p - 1].1.push(x)))
    } else {
        gs.insert(p, (k, seq![x]))
    }
}

/// The groups of the items of `ps`, each of which comes with its key.
pub open spec fn groups_of<T, K>(ps: Seq<(T, K)>, le: spec_fn(K, K) -> bool) -> Seq<(K, Seq<T>)>
    decreases ps.len(),
{
    if ps.len() == 0 {
        Seq::empty()
    } else {
        add_to_groups(groups_of(ps.drop_last(), le), ps.last().1, ps.last().0, le)
    }
}

/// The key of each group comes strictly before the key of every later group.
pub open spec fn keys_ascend<K, T>(gs: Seq<(K, Seq<T>)>, le: spec_fn(K, K) -> bool) -> bool {
    forall|i: int, j: int| 0 <= i < j < gs.len() ==> !le((#[trigger] gs[j]).0, (#[trigger] gs[i]).0)
}

/// Each group holds the items of `ps` that come with its key, in the order of
/// `ps`.
pub open spec fn groups_hold<T, K>(
    gs: Seq<(K, Seq<T>)>,
    ps: Seq<(T, K)>,
    le: spec_fn(K, K) -> bool,
) -> bool {
    forall|i: int|
        0 <= i < gs.len() ==> (#[trigger] gs[i]).1 == firsts(ps.filter(with_key(le, gs[i].0)))
}

/// Some group of `gs` has the key `k`.
pub open spec fn has_group<K, T>(gs: Seq<(K, Seq<T>)>, le: spec_fn(K, K) -> bool, k: K) -> bool {
    exists|i: int| 0 <= i < gs.len() && same_key(le, k, (#[trigger] gs[i]).0)
}

/// Every item of `ps` has a group with its key.
pub open spec fn groups_cover<T, K>(
    gs: Seq<(K, Seq<T>)>,
    ps: Seq<(T, K)>,
    le: spec_fn(K, K) -> bool,
) -> bool {
    forall|n: int| 0 <= n < ps.len() ==> has_group(gs, le, (#[trigger] ps[n]).1)
}

/// No group is empty, and the key of a group is the one that came with its
/// first member.
pub open spec fn groups_headed<T, K>(
    gs: Seq<(K, Seq<T>)>,
    ps: Seq<(T, K)>,
    le: spec_fn(K, K) -> bool,
) -> bool {
    forall|i: int|
        0 <= i < gs.len() ==> (#[trigger] gs[i]).1.len() > 0 && gs[i].0 == ps.filter(
            with_key(le, gs[i].0),
        )[0].1
}

/// `gs` is the grouping of `ps`: the keys ascend strictly, each group holds the
/// items of its key in their order, every item has its group, and each group is
/// keyed by its first member.
pub open spec fn is_grouping<T, K>(
    gs: Seq<(K, Seq<T>)>,
    ps: Seq<(T, K)>,
    le: spec_fn(K, K) -> bool,
) -> bool {
    &&& keys_ascend(gs, le)
    &&& groups_hold(gs, ps, le)
    &&& groups_cover(gs, ps, le)
    &&& groups_headed(gs, ps, le)
}

/// Adding an item to the grouping of `ps` gives the grouping of `ps` with the
/// item behind it.
pub proof fn lemma_add_to_groups<T, K>(
    gs: Seq<(K, Seq<T>)>,
    ps: Seq<(T, K)>,
    x: (T, K),
    le: spec_fn(K, K) -> bool,
)
    requires
        total_preorder(le),
        is_grouping(gs, ps, le),
    ensures
        is_grouping(add_to_groups(gs, x.1, x.0, le), ps.push(x), le),
{
    let k = x.1;
    let ks = keys_of(gs);
    let p = place_of(ks, k, le);
    let out = add_to_groups(gs, k, x.0, le);
    let ps2 = ps.push(x);
    lemma_place_of(ks, k, le);
    assert(forall|j: int| 0 <= j < gs.len() ==> ks[j] == (#[trigger] gs[j]).0);
    assert forall|j: int| p <= j < gs.len() implies !le((#[trigger] gs[j]).0, k) by {
        assert(!le(ks[j], k));
    }
    if p > 0 {
        assert(le(gs[p - 1].0, k)) by {
            assert(le(ks[p - 1], k));
        }
    }
    // No group before the place has a key that `k` does not come after, but
    // for the one just before it.
    assert forall|i: int| 0 <= i < p - 1 implies !le(k, (#[trigger] gs[i]).0) by {
        if le(k, gs[i].0) {
            assert(le(gs[p - 1].0, k));
            assert(!le(gs[p - 1].0, gs[i].0));
        }
    }
    assert forall|i: int| 0 <= i < gs.len() implies ps.filter(
        with_key(le, (#[trigger] gs[i]).0),
    ).len() == gs[i].1.len() by {
        assert(gs[i].1 == firsts(ps.filter(with_key(le, gs[i].0))));
    }
    if p > 0 && le(k, gs[p - 1].0) {
        let q = p - 1;
        assert(forall|i: int| 0 <= i < out.len() ==> (#[trigger] out[i]).0 == gs[i].0);
        assert forall|i: int| 0 <= i < out.len() implies (#[trigger] out[i]).1 == firsts(
            ps2.filter(with_key(le, out[i].0)),
        ) && out[i].1.len() > 0 && out[i].0 == ps2.filter(with_key(le, out[i].0))[0].1 by {
            let c = with_key::<T, K>(le, gs[i].0);
            ps.lemma_filter_push(x, c);
            assert(gs[i].1.len() > 0 && gs[i].0 == ps.filter(c)[0].1);
            assert(gs[i].1 == firsts(ps.filter(c)));
            if i == q {
                assert(c(x));
                assert(firsts(ps.filter(c).push(x)) =~= firsts(ps.filter(c)).push(x.0));
            } else {
                assert(out[i] == gs[i]);
                if c(x) {
                    // `k` would be the key of two groups.
                    if i < q {
                        assert(le(gs[q].0, k) && le(k, gs[i].0));
                        assert(!le(gs[q].0, gs[i].0));
                    } else {
                        assert(le(gs[i].0, k) && le(k, gs[q].0));
                        assert(!le(gs[i].0, gs[q].0));
                    }
                }
            }
        }
        assert forall|n: int| 0 <= n < ps2.len() implies has_group(
            out,
            le,
            (#[trigger] ps2[n]).1,
        ) by {
            if n < ps.len() {
                assert(ps2[n] == ps[n]);
                assert(has_group(gs, le, ps[n].1));
                let i = choose|i: int| 0 <= i < gs.len() && same_key(le, ps[n].1, (#[trigger] gs[i]).0);
                assert(same_key(le, ps2[n].1, out[i].0));
            } else {
                assert(same_key(le, ps2[n].1, out[q].0));
            }
        }
        assert forall|i: int, j: int| 0 <= i < j < out.len() implies !le(
            (#[trigger] out[j]).0,
            (#[trigger] out[i]).0,
        ) by {
            assert(!le(gs[j].0, gs[i].0));
        }
    } else {
        // No group has the key `k`.
        assert forall|i: int| 0 <= i < gs.len() implies !same_key(le, k, (#[trigger] gs[i]).0) by {
            if i < p - 1 {
                assert(!le(k, gs[i].0));
            } else if i == p - 1 {
                assert(!le(k, gs[p - 1].0));
            } else {
                assert(!le(gs[i].0, k));
            }
        }
        let ck = with_key::<T, K>(le, k);
        assert forall|n: int| 0 <= n < ps.len() implies !ck(#[trigger] ps[n]) by {
            assert(has_group(gs, le, ps[n].1));
            let i = choose|i: int| 0 <= i < gs.len() && same_key(le, ps[n].1, (#[trigger] gs[i]).0);
            if ck(ps[n]) {
                assert(le(k, ps[n].1) && le(ps[n].1, gs[i].0));
                assert(le(gs[i].0, ps[n].1) && le(ps[n].1, k));
                assert(same_key(le, k, gs[i].0));
            }
        }
        ps.lemma_all_neg_filter_empty(ck);
        assert(ps.filter(ck) =~= Seq::<(T, K)>::empty());
        assert forall|i: int| 0 <= i < out.len() implies (#[trigger] out[i]).1 == firsts(
            ps2.filter(with_key(le, out[i].0)),
        ) && out[i].1.len() > 0 && out[i].0 == ps2.filter(with_key(le, out[i].0))[0].1 by {
            let c = with_key::<T, K>(le, out[i].0);
            ps.lemma_filter_push(x, c);
            if i == p {
                assert(le(k, k) || le(k, k));
                assert(c(x));
                assert(ps2.filter(c) =~= seq![x]);
                assert(firsts(seq![x]) =~= seq![x.0]);
            } else {
                let i0 = if i < p {
                    i
                } else {
                    i - 1
                };
                assert(out[i] == gs[i0]);
                assert(!same_key(le, k, gs[i0].0));
                assert(gs[i0].1.len() > 0 && gs[i0].0 == ps.filter(c)[0].1);
                assert(gs[i0].1 == firsts(ps.filter(c)));
            }
        }
        assert forall|n: int| 0 <= n < ps2.len() implies has_group(
            out,
            le,
            (#[trigger] ps2[n]).1,
        ) by {
            if n < ps.len() {
                assert(ps2[n] == ps[n]);
                assert(has_group(gs, le, ps[n].1));
                let i = choose|i: int| 0 <= i < gs.len() && same_key(le, ps[n].1, (#[trigger] gs[i]).0);
                let i2 = if i < p {
                    i
                } else {
                    i + 1
                };
                assert(out[i2] == gs[i]);
                assert(same_key(le, ps2[n].1, out[i2].0));
            } else {
                assert(le(k, k) || le(k, k));
                assert(same_key(le, ps2[n].1, out[p].0));
            }
        }
        assert forall|i: int, j: int| 0 <= i < j < out.len() implies !le(
            (#[trigger] out[j]).0,
            (#[trigger] out[i]).0,
        ) by {
            if j < p {
                assert(out[i] == gs[i] && out[j] == gs[j]);
            } else if j == p {
                assert(out[i] == gs[i]);
                if i < p - 1 {
                    assert(!le(k, gs[i].0));
                } else {
                    assert(!le(k, gs[p - 1].0));
                }
            } else if i < p {
                assert(out[i] == gs[i] && out[j] == gs[j - 1]);
            } else if i == p {
                assert(out[j] == gs[j - 1]);
                assert(!le(gs[j - 1].0, k));
            } else {
                assert(out[i] == gs[i - 1] && out[j] == gs[j - 1]);
            }
        }
    }
}

/// What `groups_of` builds is the grouping.
pub proof fn lemma_groups_of<T, K>(ps: Seq<(T, K)>, le: spec_fn(K, K) -> bool)
    requires
        total_preorder(le),
    ensures
        is_grouping(groups_of(ps, le), ps, le),
    decreases ps.len(),
{
    if ps.len() > 0 {
        lemma_groups_of(ps.drop_last(), le);
        lemma_add_to_groups(groups_of(ps.drop_last(), le), ps.drop_last(), ps.last(), le);
        assert(ps.drop_last().push(ps.last()) =~= ps);
    }
}

/// The members of two runs of groups are the members of the first, then those
/// of the second.
pub proof fn lemma_members_concat<K, T>(a: Seq<(K, Seq<T>)>, b: Seq<(K, Seq<T>)>)
    ensures
        members_of(a + b) == members_of(a) + members_of(b),
{
    let f = |g: (K, Seq<T>)| g.1;
    assert((a + b).map_values(f) =~= a.map_values(f) + b.map_values(f));
    vstd::seq_lib::lemma_flatten_concat(a.map_values(f), b.map_values(f));
}

/// The members of a single group.
pub proof fn lemma_members_one<K, T>(g: (K, Seq<T>))
    ensures
        members_of(seq![g]) == g.1,
{
    let f = |g: (K, Seq<T>)| g.1;
    assert(seq![g].map_values(f) =~= seq![g.1]);
    seq![g.1].lemma_flatten_one_element();
}

/// Adding an item to the groups adds it to their members, and nothing else.
pub proof fn lemma_add_to_groups_members<K, T>(
    gs: Seq<(K, Seq<T>)>,
    k: K,
    x: T,
    le: spec_fn(K, K) -> bool,
)
    ensures
        members_of(add_to_groups(gs, k, x, le)).to_multiset() == members_of(
            gs,
        ).to_multiset().insert(x),
{
    broadcast use vstd::seq_lib::group_to_multiset_ensures;

    let p = place_of(keys_of(gs), k, le);
    lemma_place_of(keys_of(gs), k, le);
    let out = add_to_groups(gs, k, x, le);
    if p > 0 && le(k, gs[p - 1].0) {
        let q = p - 1;
        let before = gs.take(q);
        let after = gs.skip(q + 1);
        let g = gs[q];
        let g2 = (g.0, g.1.push(x));
        assert(gs =~= before + seq![g] + after);
        assert(out =~= before + seq![g2] + after);
        lemma_members_concat(before + seq![g], after);
        lemma_members_concat(before, seq![g]);
        lemma_members_concat(before + seq![g2], after);
        lemma_members_concat(before, seq![g2]);
        lemma_members_one(g);
        lemma_members_one(g2);
        let at = members_of(before).len() + g.1.len();
        assert(members_of(out) =~= members_of(gs).insert(at as int, x));
    } else {
        let before = gs.take(p);
        let after = gs.skip(p);
        let g2 = (k, seq![x]);
        assert(gs =~= before + after);
        assert(out =~= before + seq![g2] + after);
        lemma_members_concat(before, after);
        lemma_members_concat(before + seq![g2], after);
        lemma_members_concat(before, seq![g2]);
        lemma_members_one(g2);
        let at = members_of(before).len();
        assert(members_of(out) =~= members_of(gs).insert(at as int, x));
    }
}

/// The groups hold the items of `ps`, each as often as `ps` does.
pub proof fn lemma_groups_of_members<T, K>(ps: Seq<(T, K)>, le: spec_fn(K, K) -> bool)
    ensures
        members_of(groups_of(ps, le)).to_multiset() == firsts(ps).to_multiset(),
    decreases ps.len(),
{
    broadcast use vstd::seq_lib::group_to_multiset_ensures;

    if ps.len() == 0 {
        assert(members_of(groups_of(ps, le)) =~= firsts(ps));
    } else {
        let rest = ps.drop_last();
        lemma_groups_of_members(rest, le);
        lemma_add_to_groups_members(groups_of(rest, le), ps.last().1, ps.last().0, le);
        assert(firsts(ps) =~= firsts(rest).push(ps.last().0));
    }
}

/// There are no more groups than items.
pub proof fn lemma_groups_of_len<T, K>(ps: Seq<(T, K)>, le: spec_fn(K, K) -> bool)
    ensures
        groups_of(ps, le).len() <= ps.len(),
    decreases ps.len(),
{
    if ps.len() > 0 {
        let rest = ps.drop_last();
        lemma_groups_of_len(rest, le);
        lemma_place_of(keys_of(groups_of(rest, le)), ps.last().1, le);
    }
}

/// The order of items that come with their keys: by the keys.
pub open spec fn by_second<T, K>(le: spec_fn(K, K) -> bool) -> spec_fn((T, K), (T, K)) -> bool {
    |a: (T, K), b: (T, K)| le(a.1, b.1)
}

/// The members of a group, each with the key of the group.
pub open spec fn labelled_group<K, T>(g: (K, Seq<T>)) -> Seq<(T, K)> {
    g.1.map_values(|x: T| (x, g.0))
}

/// The members of the groups, each with the key of its group, one group after
/// the other.
pub open spec fn labelled<K, T>(gs: Seq<(K, Seq<T>)>) -> Seq<(T, K)> {
    gs.map_values(|g: (K, Seq<T>)| labelled_group(g)).flatten()
}

/// The labelled members of two runs of groups are those of the first, then
/// those of the second.
pub proof fn lemma_labelled_concat<K, T>(a: Seq<(K, Seq<T>)>, b: Seq<(K, Seq<T>)>)
    ensures
        labelled(a + b) == labelled(a) + labelled(b),
{
    let f = |g: (K, Seq<T>)| labelled_group(g);
    assert((a + b).map_values(f) =~= a.map_values(f) + b.map_values(f));
    vstd::seq_lib::lemma_flatten_concat(a.map_values(f), b.map_values(f));
}

/// The labelled members of a single group.
pub proof fn lemma_labelled_one<K, T>(g: (K, Seq<T>))
    ensures
        labelled(seq![g]) == labelled_group(g),
{
    let f = |g: (K, Seq<T>)| labelled_group(g);
    assert(seq![g].map_values(f) =~= seq![labelled_group(g)]);
    seq![labelled_group(g)].lemma_flatten_one_element();
}

/// Without their labels, the labelled members are the members.
pub proof fn lemma_labelled_members<K, T>(gs: Seq<(K, Seq<T>)>)
    ensures
        firsts(labelled(gs)) == members_of(gs),
    decreases gs.len(),
{
    if gs.len() == 0 {
        assert(firsts(labelled(gs)) =~= members_of(gs));
    } else {
        let rest = gs.drop_last();
        let g = gs.last();
        lemma_labelled_members(rest);
        assert(gs =~= rest + seq![g]);
        lemma_labelled_concat(rest, seq![g]);
        lemma_labelled_one(g);
        lemma_members_concat(rest, seq![g]);
        lemma_members_one(g);
        assert(firsts(labelled(rest) + labelled_group(g)) =~= firsts(labelled(rest)) + g.1);
    }
}

/// Adding an item to the groups puts it, with the key of its group, among the
/// labelled members: behind the members of all groups up to the place of its
/// key.
pub proof fn lemma_add_to_groups_labelled<K, T>(
    gs: Seq<(K, Seq<T>)>,
    k: K,
    x: T,
    le: spec_fn(K, K) -> bool,
)
    ensures
        labelled(add_to_groups(gs, k, x, le)) == labelled(gs).insert(
            labelled(gs.take(place_of(keys_of(gs), k, le))).len() as int,
            (
                x,
                if place_of(keys_of(gs), k, le) > 0 && le(
                    k,
                    gs[place_of(keys_of(gs), k, le) - 1].0,
                ) {
                    gs[place_of(keys_of(gs), k, le) - 1].0
                } else {
                    k
                },
            ),
        ),
        labelled(gs.take(place_of(keys_of(gs), k, le))).len() <= labelled(gs).len(),
{
    let p = place_of(keys_of(gs), k, le);
    lemma_place_of(keys_of(gs), k, le);
    let out = add_to_groups(gs, k, x, le);
    if p > 0 && le(k, gs[p - 1].0) {
        let q = p - 1;
        let before = gs.take(q);
        let after = gs.skip(q + 1);
        let g = gs[q];
        let g2 = (g.0, g.1.push(x));
        assert(gs =~= before + seq![g] + after);
        assert(gs.take(p) =~= before + seq![g]);
        assert(out =~= before + seq![g2] + after);
        lemma_labelled_concat(before + seq![g], after);
        lemma_labelled_concat(before, seq![g]);
        lemma_labelled_concat(before + seq![g2], after);
        lemma_labelled_concat(before, seq![g2]);
        lemma_labelled_one(g);
        lemma_labelled_one(g2);
        assert(labelled_group(g2) =~= labelled_group(g).push((x, g.0)));
        let at = labelled(before).len() + g.1.len();
        assert(labelled(out) =~= labelled(gs).insert(at as int, (x, g.0)));
    } else {
        let before = gs.take(p);
        let after = gs.skip(p);
        let g2 = (k, seq![x]);
        assert(gs =~= before + after);
        assert(out =~= before + seq![g2] + after);
        lemma_labelled_concat(before, after);
        lemma_labelled_concat(before + seq![g2], after);
        lemma_labelled_concat(before, seq![g2]);
        lemma_labelled_one(g2);
        assert(labelled_group(g2) =~= seq![(x, k)]);
        let at = labelled(before).len();
        assert(labelled(out) =~= labelled(gs).insert(at as int, (x, k)));
    }
}

/// Among the labelled members of groups that have members, an item has its
/// place behind the members of all groups up to the place of its key.
pub proof fn lemma_place_in_labelled<K, T>(
    gs: Seq<(K, Seq<T>)>,
    probe: (T, K),
    le: spec_fn(K, K) -> bool,
)
    requires
        forall|i: int| 0 <= i < gs.len() ==> (#[trigger] gs[i]).1.len() > 0,
    ensures
        place_of(labelled(gs), probe, by_second(le)) == labelled(
            gs.take(place_of(keys_of(gs), probe.1, le)),
        ).len(),
    decreases gs.len(),
{
    let ble = by_second::<T, K>(le);
    let k = probe.1;
    if gs.len() == 0 {
        assert(labelled(gs) =~= Seq::<(T, K)>::empty());
        assert(gs.take(0) =~= gs);
    } else {
        let rest = gs.drop_last();
        let g = gs.last();
        let all = labelled(gs);
        assert(gs =~= rest + seq![g]);
        lemma_labelled_concat(rest, seq![g]);
        lemma_labelled_one(g);
        let n0 = labelled(rest).len() as int;
        assert(keys_of(gs).last() == g.0);
        assert(keys_of(gs).drop_last() =~= keys_of(rest));
        if le(g.0, k) {
            assert(all.last() == labelled_group(g).last());
            assert(gs.take(gs.len() as int) =~= gs);
        } else {
            let p0 = place_of(keys_of(rest), k, le);
            lemma_place_of(keys_of(rest), k, le);
            assert forall|i: int| 0 <= i < rest.len() implies (#[trigger] rest[i]).1.len() > 0 by {
                assert(rest[i] == gs[i]);
            }
            lemma_place_in_labelled(rest, probe, le);
            assert forall|j: int| n0 <= j < all.len() implies !ble(#[trigger] all[j], probe) by {
                assert(all[j] == labelled_group(g)[j - n0]);
            }
            lemma_place_of_prefix(all, probe, ble, n0);
            assert(all.take(n0) =~= labelled(rest));
            assert(gs.take(p0) =~= rest.take(p0));
        }
    }
}

/// The items of `s` stand for those of `l`, place by place: each is the same
/// item, with a key that is the same key.
pub open spec fn same_run<T, K>(le: spec_fn(K, K) -> bool, l: Seq<(T, K)>, s: Seq<(T, K)>) -> bool {
    &&& l.len() == s.len()
    &&& forall|i: int|
        0 <= i < s.len() ==> (#[trigger] s[i]).0 == l[i].0 && same_key(le, s[i].1, l[i].1)
}

/// Read group after group, the members of the groups are the items in the
/// stable order of their keys: grouping arranges the items as sorting does.
pub proof fn lemma_groups_are_sorted<T, K>(ps: Seq<(T, K)>, le: spec_fn(K, K) -> bool)
    requires
        total_preorder(le),
    ensures
        same_run(le, labelled(groups_of(ps, le)), stable_sort(ps, by_second(le))),
        members_of(groups_of(ps, le)) == firsts(stable_sort(ps, by_second(le))),
    decreases ps.len(),
{
    let ble = by_second::<T, K>(le);
    let gs = groups_of(ps, le);
    let sorted = stable_sort(ps, ble);
    if ps.len() == 0 {
        assert(labelled(gs) =~= Seq::<(T, K)>::empty());
    } else {
        let rest = ps.drop_last();
        let x = ps.last();
        let k = x.1;
        let gs0 = groups_of(rest, le);
        let s0 = stable_sort(rest, ble);
        let l0 = labelled(gs0);
        lemma_groups_are_sorted(rest, le);
        lemma_groups_of(rest, le);
        let p = place_of(keys_of(gs0), k, le);
        lemma_place_of(keys_of(gs0), k, le);
        assert(forall|j: int| 0 <= j < gs0.len() ==> keys_of(gs0)[j] == (#[trigger] gs0[j]).0);
        // The item has the same place in the sorted run as among the
        // labelled members.
        assert forall|i: int| 0 <= i < s0.len() implies ble(#[trigger] s0[i], x) == ble(
            l0[i],
            x,
        ) by {
            assert(same_key(le, s0[i].1, l0[i].1));
            if le(s0[i].1, k) {
                assert(le(l0[i].1, s0[i].1) && le(s0[i].1, k));
            }
            if le(l0[i].1, k) {
                assert(le(s0[i].1, l0[i].1) && le(l0[i].1, k));
            }
        }
        lemma_place_of_alike(s0, x, ble, l0, x, ble);
        lemma_place_in_labelled(gs0, x, le);
        lemma_add_to_groups_labelled(gs0, k, x.0, le);
        let at = labelled(gs0.take(p)).len() as int;
        let gk = if p > 0 && le(k, gs0[p - 1].0) {
            gs0[p - 1].0
        } else {
            k
        };
        assert(same_key(le, k, gk)) by {
            if p > 0 && le(k, gs0[p - 1].0) {
                assert(le(keys_of(gs0)[p - 1], k));
            } else {
                assert(le(k, k) || le(k, k));
            }
        }
        let l = labelled(gs);
        assert(l == l0.insert(at, (x.0, gk)));
        assert(sorted == s0.insert(at, x));
        assert forall|i: int| 0 <= i < sorted.len() implies (#[trigger] sorted[i]).0 == l[i].0
            && same_key(le, sorted[i].1, l[i].1) by {
            if i < at {
                assert(sorted[i] == s0[i] && l[i] == l0[i]);
            } else if i > at {
                assert(sorted[i] == s0[i - 1] && l[i] == l0[i - 1]);
            }
        }
    }
    lemma_labelled_members(gs);
    assert(firsts(labelled(gs)) =~= firsts(sorted));
}

} // verus!
