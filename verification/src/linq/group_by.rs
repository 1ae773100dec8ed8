//! The adapter that yields the items of a cursor group by group.

use crate::linq::calls::{callable_on_refs, firsts, tagged, with_front};
use crate::linq::grouping::{
    add_to_groups, by_second, groups_of, is_grouping, keys_of, lemma_groups_are_sorted,
    lemma_groups_of, lemma_groups_of_len, lemma_groups_of_members, members_of,
};
use crate::linq::iterator::{reads_all, LinqIterator};
use crate::linq::order::{key_le, le_keys, total_order};
use crate::linq::order_by::{by_key, sorted_by_keys, sorted_from};
use crate::linq::sorting::{
    lemma_place_of, lemma_place_of_prefix, lemma_stable_sort_alike, place_of, total_preorder,
};
use vstd::prelude::*;

verus! {

/// The order of the keys, as a function.
pub open spec fn key_order<K: Ord>() -> spec_fn(K, K) -> bool {
    |a: K, b: K| key_le(a, b)
}

/// The groups with the members of each as a sequence.
pub open spec fn group_views<K, T>(gs: Seq<(K, Vec<T>)>) -> Seq<(K, Seq<T>)> {
    gs.map_values(|g: (K, Vec<T>)| (g.0, g.1@))
}

/// `g` holds the items of `s` in groups by the keys that `ps` pairs them with,
/// each of which `key` gave on its item.
pub open spec fn grouped_from<T, K: Ord, F: Fn(&T) -> K>(
    key: F,
    ps: Seq<(T, K)>,
    s: Seq<T>,
    g: Seq<(K, Vec<T>)>,
) -> bool {
    &&& firsts(ps) == s
    &&& tagged(key, ps)
    &&& group_views(g) == groups_of(ps, key_order::<K>())
}

/// `g` holds the items of `s` in groups by keys that `key` may have given on
/// them: one group for each key, the groups in ascending order of their keys,
/// the members of a group in the order in which `s` has them.
pub open spec fn grouped<T, K: Ord, F: Fn(&T) -> K>(
    key: F,
    s: Seq<T>,
    g: Seq<(K, Vec<T>)>,
) -> bool {
    exists|ps: Seq<(T, K)>| #[trigger] grouped_from(key, ps, s, g)
}

/// What a grouping adapter may yield before it has drained the cursor `it`
/// beneath: the groups of a sequence that `it` may yield.
pub open spec fn grouped_yields<I: LinqIterator, K: Ord, F: Fn(&I::Item) -> K>(
    it: I,
    key: F,
    g: Seq<(K, Vec<I::Item>)>,
) -> bool {
    exists|s: Seq<I::Item>| #[trigger] it.yields(s) && grouped(key, s, g)
}

/// What a grouping adapter may begin with before it has drained the cursor
/// `it` beneath: the first groups of what it may yield.
pub open spec fn grouped_begins<I: LinqIterator, K: Ord, F: Fn(&I::Item) -> K>(
    it: I,
    key: F,
    p: Seq<(K, Vec<I::Item>)>,
) -> bool {
    exists|g: Seq<(K, Vec<I::Item>)>| #[trigger] grouped_yields(it, key, g) && p.is_prefix_of(g)
}

/// A total order on the keys is a total preorder, as a function.
pub proof fn lemma_key_order_total<K: Ord>()
    requires
        total_order::<K>(),
    ensures
        total_preorder(key_order::<K>()),
{
    let le = key_order::<K>();
    assert forall|a: K, b: K| #[trigger] le(a, b) || le(b, a) by {
        assert(key_le(a, b) || key_le(b, a));
    }
    assert forall|a: K, b: K, c: K| #[trigger] le(a, b) && #[trigger] le(b, c) implies le(a, c) by {
        assert(key_le(a, b) && key_le(b, c));
    }
}

/// The index behind the last group whose key does not come after `k`.
pub fn find_group<T, K: Ord>(groups: &Vec<(K, Vec<T>)>, k: &K) -> (p: usize)
    requires
        total_order::<K>(),
    ensures
        p == place_of(keys_of(group_views(groups@)), *k, key_order::<K>()),
        p <= groups.len(),
{
    let ghost le = key_order::<K>();
    let ghost ks = keys_of(group_views(groups@));
    let mut j: usize = groups.len();
    while j > 0
        invariant
            j <= groups.len(),
            total_order::<K>(),
            le == key_order::<K>(),
            ks == keys_of(group_views(groups@)),
            forall|i: int| j <= i < ks.len() ==> !le(#[trigger] ks[i], *k),
        decreases j,
    {
        if le_keys(&groups[j - 1].0, k) {
            proof {
                lemma_place_of_prefix(ks, *k, le, j as int);
                assert(ks.take(j as int).last() == ks[j - 1]);
            }
            return j;
        }
        j -= 1;
    }
    proof {
        lemma_place_of_prefix(ks, *k, le, 0);
    }
    j
}

/// Adds the item `x` of key `k` to the groups: to the group that has the key
/// `k`, or else as a new group in the place of `k`.
pub fn add_item<T, K: Ord>(groups: &mut Vec<(K, Vec<T>)>, k: K, x: T)
    requires
        total_order::<K>(),
    ensures
        group_views(final(groups)@) == add_to_groups(
            group_views(old(groups)@),
            k,
            x,
            key_order::<K>(),
        ),
        final(groups)@.len() <= old(groups)@.len() + 1,
{
    let p = find_group(groups, &k);
    if p > 0 && le_keys(&k, &groups[p - 1].0) {
        let mut g = groups.remove(p - 1);
        g.1.push(x);
        groups.insert(p - 1, g);
        proof {
            assert(group_views(groups@) =~= add_to_groups(
                group_views(old(groups)@),
                k,
                x,
                key_order::<K>(),
            ));
        }
    } else {
        let mut members: Vec<T> = Vec::new();
        members.push(x);
        groups.insert(p, (k, members));
        proof {
            assert(members@ =~= seq![x]);
            assert(group_views(groups@) =~= add_to_groups(
                group_views(old(groups)@),
                k,
                x,
                key_order::<K>(),
            ));
        }
    }
}

/// Moves the items of `v` into a new vector, last first.
pub fn reversed<T>(v: Vec<T>) -> (r: Vec<T>)
    ensures
        r@ == v@.reverse(),
{
    let mut rest = v;
    let mut r: Vec<T> = Vec::new();
    loop
        invariant
            rest@.len() + r@.len() == v@.len(),
            rest@ == v@.take(rest@.len() as int),
            forall|i: int| 0 <= i < r@.len() ==> r@[i] == v@[v@.len() - 1 - i],
        ensures
            r@ == v@.reverse(),
        decreases rest@.len(),
    {
        match rest.pop() {
            Some(x) => {
                r.push(x);
            },
            None => {
                proof {
                    assert(r@ =~= v@.reverse());
                }
                break ;
            },
        }
    }
    r
}

/// Yields the items of the cursor beneath in groups, one group for each key, in
/// ascending order of the keys. A group comes as its key and its members. The
/// key is the one that `key` gave on the first member; the members stand in the
/// order in which the cursor beneath gave them.
///
/// The first pull drains the cursor beneath, calls `key` once on each item and
/// forms the groups; each pull hands out one group.
#[verifier::reject_recursive_types(K)]
pub struct GroupBy<I, F, K> where I: LinqIterator, F: Fn(&I::Item) -> K {
    iter: I,
    key: F,
    initialized: bool,
    container: Vec<(K, Vec<I::Item>)>,
}

impl<I, F, K> GroupBy<I, F, K> where I: LinqIterator, F: Fn(&I::Item) -> K {
    /// Wraps `iter`. Nothing is pulled and `key` is not called until the first
    /// pull.
    pub fn new(iter: I, key: F) -> (r: Self) where K: Ord
        requires
            iter.wf(),
            total_order::<K>(),
            reads_all(iter, key),
        ensures
            r.wf(),
            !r.materialized(),
            r.buffered() == Seq::<(K, Vec<I::Item>)>::empty(),
            r.source() == iter,
            r.key_function() == key,
            r.bound() == iter.bound(),
            forall|p: Seq<(K, Vec<I::Item>)>| #[trigger]
                r.begins(p) <==> grouped_begins(iter, key, p),
            forall|g: Seq<(K, Vec<I::Item>)>| #[trigger]
                r.yields(g) <==> grouped_yields(iter, key, g),
    {
        Self { iter, key, initialized: false, container: Vec::new() }
    }

    /// The cursor beneath.
    pub closed spec fn source(&self) -> I {
        self.iter
    }

    /// Whether the cursor beneath has been drained and the groups formed.
    pub closed spec fn materialized(&self) -> bool {
        self.initialized
    }

    /// The function that gives the keys.
    pub closed spec fn key_function(&self) -> F {
        self.key
    }

    /// The buffer: the groups that are still to come, first to last. It is
    /// empty until the cursor beneath has been drained.
    pub closed spec fn buffered(&self) -> Seq<(K, Vec<I::Item>)> {
        self.container@.reverse()
    }
}

impl<I, F, K> LinqIterator for GroupBy<I, F, K> where
    I: LinqIterator,
    F: Fn(&I::Item) -> K,
    K: Ord,
 {
    type Item = (K, Vec<I::Item>);

    closed spec fn wf(&self) -> bool {
        &&& self.iter.wf()
        &&& total_order::<K>()
        &&& if self.initialized {
            self.iter.bound() == 0
        } else {
            self.container@.len() == 0 && reads_all(self.iter, self.key)
        }
    }

    closed spec fn begins(&self, p: Seq<(K, Vec<I::Item>)>) -> bool {
        if self.initialized {
            p.is_prefix_of(self.container@.reverse())
        } else {
            grouped_begins(self.iter, self.key, p)
        }
    }

    closed spec fn yields(&self, g: Seq<(K, Vec<I::Item>)>) -> bool {
        if self.initialized {
            g == self.container@.reverse()
        } else {
            grouped_yields(self.iter, self.key, g)
        }
    }

    closed spec fn bound(&self) -> nat {
        if self.initialized {
            self.container@.len()
        } else {
            self.iter.bound()
        }
    }

    /// The first pull drains the cursor beneath for good and fills the buffer
    /// with the groups of its items; every pull takes the front of the buffer.
    /// What is pulled, with the buffer behind it, is the buffer as it was, or
    /// on the first pull the groups of what the cursor beneath yielded. `None`
    /// comes only from an empty buffer.
    fn next(&mut self) -> (r: Option<(K, Vec<I::Item>)>)
        ensures
            final(self).materialized(),
            final(self).key_function() == old(self).key_function(),
            final(self).source().wf(),
            final(self).source().bound() == 0,
            old(self).materialized() ==> final(self).source() == old(self).source(),
            old(self).materialized() ==> old(self).buffered() == with_front(
                r,
                final(self).buffered(),
            ),
            !old(self).materialized() ==> grouped_yields(
                old(self).source(),
                old(self).key_function(),
                with_front(r, final(self).buffered()),
            ),
            r is None ==> final(self).buffered().len() == 0,
            final(self).bound() == final(self).buffered().len(),
            forall|g: Seq<(K, Vec<I::Item>)>| #[trigger]
                final(self).yields(g) <==> g == final(self).buffered(),
            forall|p: Seq<(K, Vec<I::Item>)>| #[trigger]
                final(self).begins(p) <==> p.is_prefix_of(final(self).buffered()),
    {
        if !self.initialized {
            let ghost before = self.iter;
            let ghost le = key_order::<K>();
            let mut groups: Vec<(K, Vec<I::Item>)> = Vec::new();
            let ghost mut arrived: Seq<(I::Item, K)> = Seq::empty();
            proof {
                assert(firsts(arrived) =~= Seq::<I::Item>::empty());
                assert(group_views(groups@) =~= groups_of(arrived, le));
                assert forall|s: Seq<I::Item>| #[trigger]
                    self.iter.yields(s) implies before.yields(firsts(arrived) + s) by {
                    assert(firsts(arrived) + s =~= s);
                }
                assert forall|p: Seq<I::Item>| #[trigger]
                    self.iter.begins(p) implies before.begins(firsts(arrived) + p) by {
                    assert(firsts(arrived) + p =~= p);
                }
            }
            loop
                invariant_except_break
                    self.iter.wf(),
                    reads_all(self.iter, self.key),
                invariant
                    total_order::<K>(),
                    self.key == old(self).key,
                    self.container@ == old(self).container@,
                    !self.initialized,
                    le == key_order::<K>(),
                    tagged(self.key, arrived),
                    group_views(groups@) == groups_of(arrived, le),
                    groups@.len() <= arrived.len(),
                    arrived.len() + self.iter.bound() <= before.bound(),
                    forall|s: Seq<I::Item>| #[trigger]
                        self.iter.yields(s) ==> before.yields(firsts(arrived) + s),
                    forall|p: Seq<I::Item>| #[trigger]
                        self.iter.begins(p) ==> before.begins(firsts(arrived) + p),
                ensures
                    self.iter.wf(),
                    self.iter.bound() == 0,
                    before.yields(firsts(arrived)),
                decreases self.iter.bound(),
            {
                let ghost prev = self.iter;
                match self.iter.next() {
                    Some(el) => {
                        assert(callable_on_refs(self.key, seq![el])) by {
                            assert(prev.begins(seq![el]));
                        }
                        assert(seq![el][0] == el);
                        let k = (self.key)(&el);
                        let ghost pair = (el, k);
                        add_item(&mut groups, k, el);
                        proof {
                            let grown = arrived.push(pair);
                            assert(grown.drop_last() =~= arrived);
                            assert(firsts(grown) =~= firsts(arrived) + seq![el]);
                            assert forall|s: Seq<I::Item>| #[trigger]
                                self.iter.yields(s) implies before.yields(firsts(grown) + s) by {
                                assert(prev.yields(seq![el] + s));
                                assert(firsts(arrived) + (seq![el] + s) =~= firsts(grown) + s);
                            }
                            assert forall|p: Seq<I::Item>| #[trigger]
                                self.iter.begins(p) implies before.begins(firsts(grown) + p) by {
                                assert(prev.begins(seq![el] + p));
                                assert(firsts(arrived) + (seq![el] + p) =~= firsts(grown) + p);
                            }
                            assert forall|p: Seq<I::Item>| #[trigger]
                                self.iter.begins(p) implies callable_on_refs(self.key, p) by {
                                assert(prev.begins(seq![el] + p));
                                assert forall|i: int| 0 <= i < p.len() implies call_requires(
                                    self.key,
                                    (&#[trigger] p[i],),
                                ) by {
                                    assert((seq![el] + p)[i + 1] == p[i]);
                                }
                            }
                            arrived = grown;
                        }
                    },
                    None => {
                        proof {
                            assert(prev.yields(Seq::empty()));
                            assert(firsts(arrived) + Seq::<I::Item>::empty() =~= firsts(arrived));
                        }
                        break ;
                    },
                }
            }
            self.container = reversed(groups);
            self.initialized = true;
            proof {
                let all = groups@;
                assert(self.container@.reverse() =~= all);
                assert(grouped_from(self.key, arrived, firsts(arrived), all));
                assert(grouped(self.key, firsts(arrived), all));
                assert(old(self).iter.yields(firsts(arrived)) && grouped(
                    old(self).key,
                    firsts(arrived),
                    all,
                ));
                assert(grouped_yields(old(self).iter, old(self).key, all));
                assert(old(self).yields(all));
                assert forall|p: Seq<(K, Vec<I::Item>)>| #[trigger]
                    p.is_prefix_of(all) implies old(self).begins(p) by {
                    assert(grouped_yields(old(self).iter, old(self).key, all) && p.is_prefix_of(
                        all,
                    ));
                }
            }
        }
        let ghost full = self.container@.reverse();
        let r = self.container.pop();
        proof {
            let rest = self.container@.reverse();
            assert(self.buffered() == rest);
            assert forall|g: Seq<(K, Vec<I::Item>)>| #[trigger] self.yields(g) <==> g == rest by {}
            assert forall|p: Seq<(K, Vec<I::Item>)>| #[trigger]
                self.begins(p) <==> p.is_prefix_of(rest) by {}
            if r is Some {
                let x = r.unwrap();
                assert(full =~= seq![x] + rest);
                assert(seq![x].is_prefix_of(full));
                assert forall|p: Seq<(K, Vec<I::Item>)>| #[trigger] self.begins(p) implies (seq![x]
                    + p).is_prefix_of(full) by {
                    assert(p.is_prefix_of(rest));
                }
                assert(self.bound() == rest.len());
            } else {
                assert(full =~= Seq::<(K, Vec<I::Item>)>::empty());
                assert(rest =~= full);
                assert(self.bound() == 0);
            }
        }
        r
    }
}

/// Grouping by key gives one group for each key that occurs, the keys in
/// strictly ascending order. Each group holds the items that came with its key,
/// in the order in which they came, and is keyed by the key of its first
/// member. Together the groups hold the items of `s`, each as often as `s`
/// does.
pub proof fn lemma_grouped<T, K: Ord, F: Fn(&T) -> K>(
    key: F,
    ps: Seq<(T, K)>,
    s: Seq<T>,
    g: Seq<(K, Vec<T>)>,
)
    requires
        total_order::<K>(),
        grouped_from(key, ps, s, g),
    ensures
        is_grouping(group_views(g), ps, key_order::<K>()),
        g.len() <= s.len(),
        members_of(group_views(g)).to_multiset() == s.to_multiset(),
{
    lemma_key_order_total::<K>();
    lemma_groups_of(ps, key_order::<K>());
    lemma_groups_of_members(ps, key_order::<K>());
    lemma_groups_of_len(ps, key_order::<K>());
}

/// The items of `s`, each with the key that `kf` says.
pub open spec fn keyed<T, K>(s: Seq<T>, kf: spec_fn(T) -> K) -> Seq<(T, K)> {
    s.map_values(|x: T| (x, kf(x)))
}

/// Where `key` can give nothing on an item of `s` but what `kf` says, a
/// grouping of `s` by `key` holds the groups of the items of `s` by what `kf`
/// says of them.
pub proof fn lemma_grouped_is_groups<T, K: Ord, F: Fn(&T) -> K>(
    key: F,
    kf: spec_fn(T) -> K,
    s: Seq<T>,
    g: Seq<(K, Vec<T>)>,
)
    requires
        grouped(key, s, g),
        forall|i: int, k: K|
            0 <= i < s.len() && #[trigger] call_ensures(key, (&s[i],), k) ==> k == kf(s[i]),
    ensures
        group_views(g) == groups_of(keyed(s, kf), key_order::<K>()),
{
    let ps = choose|ps: Seq<(T, K)>| #[trigger] grouped_from(key, ps, s, g);
    assert forall|i: int| 0 <= i < ps.len() implies #[trigger] ps[i] == (s[i], kf(s[i])) by {
        assert(call_ensures(key, (&ps[i].0,), ps[i].1));
        assert(s[i] == ps[i].0);
    }
    assert(ps =~= keyed(s, kf));
}

/// What a grouping by key holds, read group after group, is what a sorting by
/// the same keys holds: grouping arranges the items as the stable sort does.
pub proof fn lemma_grouped_is_sorted<T, K: Ord, F: Fn(&T) -> K>(
    key: F,
    ps: Seq<(T, K)>,
    s: Seq<T>,
    g: Seq<(K, Vec<T>)>,
)
    requires
        total_order::<K>(),
        grouped_from(key, ps, s, g),
    ensures
        members_of(group_views(g)) == sorted_by_keys(ps),
        sorted_from(key, ps, s, members_of(group_views(g))),
{
    lemma_key_order_total::<K>();
    lemma_groups_are_sorted(ps, key_order::<K>());
    assert forall|a: (T, K), b: (T, K)| #[trigger]
        by_second::<T, K>(key_order::<K>())(a, b) == by_key::<T, K>()(a, b) by {}
    lemma_stable_sort_alike(ps, by_second::<T, K>(key_order::<K>()), by_key::<T, K>());
}

} // verus!
