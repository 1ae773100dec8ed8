//! The adapter that yields the items of a cursor in ascending order of a key.

use crate::linq::calls::{callable_on_refs, firsts, tagged, with_front};
use crate::linq::iterator::{reads_all, LinqIterator};
use crate::linq::order::{key_le, le_keys, total_order};
use crate::linq::sorting::{
    alike, lemma_place_of, lemma_place_of_prefix, lemma_stable_sort_multiset,
    lemma_stable_sort_sorted, lemma_stable_sort_stable, place_of, put_in_place, sorted_by,
    stable_sort, total_preorder,
};
use vstd::prelude::*;

verus! {

/// The order of items that come with their keys: by the keys.
pub open spec fn by_key<T, K: Ord>() -> spec_fn((T, K), (T, K)) -> bool {
    |a: (T, K), b: (T, K)| key_le(a.1, b.1)
}

/// The items of `ps`, each of which comes with its key, in ascending order of
/// the keys; items with the same key in the order in which `ps` has them.
pub open spec fn sorted_by_keys<T, K: Ord>(ps: Seq<(T, K)>) -> Seq<T> {
    firsts(stable_sort(ps, by_key::<T, K>()))
}

/// `t` holds the items of `s` in ascending order of the keys that `ps` pairs
/// them with, each of which `key` gave on its item.
pub open spec fn sorted_from<T, K: Ord, F: Fn(&T) -> K>(
    key: F,
    ps: Seq<(T, K)>,
    s: Seq<T>,
    t: Seq<T>,
) -> bool {
    &&& firsts(ps) == s
    &&& tagged(key, ps)
    &&& t == sorted_by_keys(ps)
}

/// `t` holds the items of `s` in ascending order of keys that `key` may have
/// given on them; items with the same key in the order in which `s` has them.
pub open spec fn sorted<T, K: Ord, F: Fn(&T) -> K>(key: F, s: Seq<T>, t: Seq<T>) -> bool {
    exists|ps: Seq<(T, K)>| #[trigger] sorted_from(key, ps, s, t)
}

/// A total order on the keys orders the items that come with them totally.
pub proof fn lemma_by_key_total<T, K: Ord>()
    requires
        total_order::<K>(),
    ensures
        total_preorder(by_key::<T, K>()),
{
    let le = by_key::<T, K>();
    assert forall|a: (T, K), b: (T, K)| #[trigger] le(a, b) || le(b, a) by {
        assert(key_le(a.1, b.1) || key_le(b.1, a.1));
    }
    assert forall|a: (T, K), b: (T, K), c: (T, K)| #[trigger]
        le(a, b) && #[trigger] le(b, c) implies le(a, c) by {
        assert(key_le(a.1, b.1) && key_le(b.1, c.1));
    }
}

/// The index at which `x` goes into `buf`: behind the last item whose key does
/// not come after the key of `x`.
pub fn find_place<T, K: Ord>(buf: &Vec<(T, K)>, x: &(T, K)) -> (p: usize)
    requires
        total_order::<K>(),
    ensures
        p == place_of(buf@, *x, by_key::<T, K>()),
        p <= buf.len(),
{
    let ghost le = by_key::<T, K>();
    let mut j: usize = buf.len();
    while j > 0
        invariant
            j <= buf.len(),
            total_order::<K>(),
            le == by_key::<T, K>(),
            forall|i: int| j <= i < buf.len() ==> !le(#[trigger] buf@[i], *x),
        decreases j,
    {
        if le_keys(&buf[j - 1].1, &x.1) {
            proof {
                lemma_place_of_prefix(buf@, *x, le, j as int);
                assert(buf@.take(j as int).last() == buf@[j - 1]);
            }
            return j;
        }
        j -= 1;
    }
    proof {
        lemma_place_of_prefix(buf@, *x, le, 0);
    }
    j
}

/// Puts `x` into `buf` at its place.
pub fn insert_in_place<T, K: Ord>(buf: &mut Vec<(T, K)>, x: (T, K))
    requires
        total_order::<K>(),
    ensures
        final(buf)@ == put_in_place(old(buf)@, x, by_key::<T, K>()),
{
    let p = find_place(buf, &x);
    buf.insert(p, x);
}

/// Moves the items out of `buf`, last first, and leaves their keys behind.
pub fn unload<T, K>(buf: Vec<(T, K)>) -> (r: Vec<T>)
    ensures
        r@.reverse() == firsts(buf@),
{
    let mut rest = buf;
    let mut r: Vec<T> = Vec::new();
    loop
        invariant
            rest@.len() + r@.len() == buf@.len(),
            rest@ == buf@.take(rest@.len() as int),
            forall|i: int| 0 <= i < r@.len() ==> r@[i] == buf@[buf@.len() - 1 - i].0,
        ensures
            r@.reverse() == firsts(buf@),
        decreases rest@.len(),
    {
        match rest.pop() {
            Some(pair) => {
                r.push(pair.0);
            },
            None => {
                proof {
                    assert(r@.reverse() =~= firsts(buf@));
                }
                break ;
            },
        }
    }
    r
}

/// What a sorting adapter may yield before it has drained the cursor `it`
/// beneath: the sorted items of a sequence that `it` may yield.
pub open spec fn sorted_yields<I: LinqIterator, K: Ord, F: Fn(&I::Item) -> K>(
    it: I,
    key: F,
    t: Seq<I::Item>,
) -> bool {
    exists|s: Seq<I::Item>| #[trigger] it.yields(s) && sorted(key, s, t)
}

/// What a sorting adapter may begin with before it has drained the cursor
/// `it` beneath: the first items of what it may yield.
pub open spec fn sorted_begins<I: LinqIterator, K: Ord, F: Fn(&I::Item) -> K>(
    it: I,
    key: F,
    p: Seq<I::Item>,
) -> bool {
    exists|t: Seq<I::Item>| #[trigger] sorted_yields(it, key, t) && p.is_prefix_of(t)
}

/// Yields the items of the cursor beneath in ascending order of their keys,
/// items with the same key in the order in which they came.
///
/// The first pull drains the cursor beneath, calls `key` once on each item and
/// sorts the items; the pulls after it hand the sorted items out one by one.
pub struct OrderBy<I, F> where I: LinqIterator {
    iter: I,
    key: F,
    container: Vec<I::Item>,
    sorted: bool,
}

impl<I, F> OrderBy<I, F> where I: LinqIterator {
    /// Wraps `iter`. Nothing is pulled and `key` is not called until the first
    /// pull.
    pub fn new<K: Ord>(iter: I, key: F) -> (r: Self) where F: Fn(&I::Item) -> K
        requires
            iter.wf(),
            total_order::<K>(),
            reads_all(iter, key),
        ensures
            r.wf(),
            !r.materialized(),
            r.buffered() == Seq::<I::Item>::empty(),
            r.source() == iter,
            r.key_function() == key,
            r.bound() == iter.bound(),
            forall|p: Seq<I::Item>| #[trigger] r.begins(p) <==> sorted_begins(iter, key, p),
            forall|t: Seq<I::Item>| #[trigger] r.yields(t) <==> sorted_yields(iter, key, t),
    {
        Self { iter, key, container: Vec::new(), sorted: false }
    }

    /// The cursor beneath.
    pub closed spec fn source(&self) -> I {
        self.iter
    }

    /// Whether the cursor beneath has been drained and its items sorted.
    pub closed spec fn materialized(&self) -> bool {
        self.sorted
    }

    /// The function that gives the keys.
    pub closed spec fn key_function(&self) -> F {
        self.key
    }

    /// The buffer: the sorted items that are still to come, first to last. It is
    /// empty until the cursor beneath has been drained.
    pub closed spec fn buffered(&self) -> Seq<I::Item> {
        self.container@.reverse()
    }
}


impl<I, F, K> LinqIterator for OrderBy<I, F> where I: LinqIterator, F: Fn(&I::Item) -> K, K: Ord {
    type Item = I::Item;

    closed spec fn wf(&self) -> bool {
        &&& self.iter.wf()
        &&& total_order::<K>()
        &&& if self.sorted {
            self.iter.bound() == 0
        } else {
            self.container@.len() == 0 && reads_all(self.iter, self.key)
        }
    }

    closed spec fn begins(&self, p: Seq<I::Item>) -> bool {
        if self.sorted {
            p.is_prefix_of(self.container@.reverse())
        } else {
            sorted_begins(self.iter, self.key, p)
        }
    }

    closed spec fn yields(&self, t: Seq<I::Item>) -> bool {
        if self.sorted {
            t == self.container@.reverse()
        } else {
            sorted_yields(self.iter, self.key, t)
        }
    }

    closed spec fn bound(&self) -> nat {
        if self.sorted {
            self.container@.len()
        } else {
            self.iter.bound()
        }
    }

    /// The first pull drains the cursor beneath for good and fills the buffer
    /// with its items, sorted; every pull takes the front of the buffer. What
    /// is pulled, with the buffer behind it, is the buffer as it was, or on
    /// the first pull the sorted items of what the cursor beneath yielded.
    /// `None` comes only from an empty buffer.
    fn next(&mut self) -> (r: Option<I::Item>)
        ensures
            final(self).materialized(),
            final(self).key_function() == old(self).key_function(),
            final(self).source().wf(),
            final(self).source().bound() == 0,
            old(self).materialized() ==> final(self).source() == old(self).source(),
            old(self).materialized() ==> old(self).buffered() == with_front(
                r,
                final(self).buffered(),
            ),
            !old(self).materialized() ==> sorted_yields(
                old(self).source(),
                old(self).key_function(),
                with_front(r, final(self).buffered()),
            ),
            r is None ==> final(self).buffered().len() == 0,
            final(self).bound() == final(self).buffered().len(),
            forall|t: Seq<I::Item>| #[trigger] final(self).yields(t) <==> t == final(self).buffered(),
            forall|p: Seq<I::Item>| #[trigger]
                final(self).begins(p) <==> p.is_prefix_of(final(self).buffered()),
    {
        if !self.sorted {
            let ghost before = self.iter;
            let ghost le = by_key::<I::Item, K>();
            let mut buf: Vec<(I::Item, K)> = Vec::new();
            let ghost mut arrived: Seq<(I::Item, K)> = Seq::empty();
            proof {
                assert(firsts(arrived) =~= Seq::<I::Item>::empty());
                assert forall|s: Seq<I::Item>| #[trigger]
                    self.iter.yields(s) implies before.yields(firsts(arrived) + s) by {
                    assert(firsts(arrived) + s =~= s);
                }
                assert forall|p: Seq<I::Item>| #[trigger]
                    self.iter.begins(p) implies before.begins(firsts(arrived) + p) by {
                    assert(firsts(arrived) + p =~= p);
                }
            }
            loop
                invariant_except_break
                    self.iter.wf(),
                    reads_all(self.iter, self.key),
                invariant
                    total_order::<K>(),
                    self.key == old(self).key,
                    self.container@ == old(self).container@,
                    !self.sorted,
                    le == by_key::<I::Item, K>(),
                    tagged(self.key, arrived),
                    buf@ == stable_sort(arrived, le),
                    arrived.len() + self.iter.bound() <= before.bound(),
                    forall|s: Seq<I::Item>| #[trigger]
                        self.iter.yields(s) ==> before.yields(firsts(arrived) + s),
                    forall|p: Seq<I::Item>| #[trigger]
                        self.iter.begins(p) ==> before.begins(firsts(arrived) + p),
                ensures
                    self.iter.wf(),
                    self.iter.bound() == 0,
                    before.yields(firsts(arrived)),
                decreases self.iter.bound(),
            {
                let ghost prev = self.iter;
                match self.iter.next() {
                    Some(el) => {
                        assert(callable_on_refs(self.key, seq![el])) by {
                            assert(prev.begins(seq![el]));
                        }
                        assert(seq![el][0] == el);
                        let k = (self.key)(&el);
                        let ghost pair = (el, k);
                        insert_in_place(&mut buf, (el, k));
                        proof {
                            let grown = arrived.push(pair);
                            assert(grown.drop_last() =~= arrived);
                            assert(firsts(grown) =~= firsts(arrived) + seq![el]);
                            assert forall|s: Seq<I::Item>| #[trigger]
                                self.iter.yields(s) implies before.yields(firsts(grown) + s) by {
                                assert(prev.yields(seq![el] + s));
                                assert(firsts(arrived) + (seq![el] + s) =~= firsts(grown) + s);
                            }
                            assert forall|p: Seq<I::Item>| #[trigger]
                                self.iter.begins(p) implies before.begins(firsts(grown) + p) by {
                                assert(prev.begins(seq![el] + p));
                                assert(firsts(arrived) + (seq![el] + p) =~= firsts(grown) + p);
                            }
                            assert forall|p: Seq<I::Item>| #[trigger]
                                self.iter.begins(p) implies callable_on_refs(self.key, p) by {
                                assert(prev.begins(seq![el] + p));
                                assert forall|i: int| 0 <= i < p.len() implies call_requires(
                                    self.key,
                                    (&#[trigger] p[i],),
                                ) by {
                                    assert((seq![el] + p)[i + 1] == p[i]);
                                }
                            }
                            arrived = grown;
                        }
                    },
                    None => {
                        proof {
                            assert(prev.yields(Seq::empty()));
                            assert(firsts(arrived) + Seq::<I::Item>::empty() =~= firsts(arrived));
                        }
                        break ;
                    },
                }
            }
            self.container = unload(buf);
            self.sorted = true;
            proof {
                let all = firsts(buf@);
                assert(self.container@.reverse() == all);
                assert(sorted_from(self.key, arrived, firsts(arrived), all));
                assert(sorted(self.key, firsts(arrived), all));
                assert(old(self).iter.yields(firsts(arrived)) && sorted(
                    old(self).key,
                    firsts(arrived),
                    all,
                ));
                assert(sorted_yields(old(self).iter, old(self).key, all));
                assert(old(self).yields(all));
                lemma_stable_sort_multiset(arrived, le);
                assert(all.len() == arrived.len());
                assert forall|p: Seq<I::Item>| #[trigger] p.is_prefix_of(all) implies old(
                    self,
                ).begins(p) by {
                    assert(sorted_yields(old(self).iter, old(self).key, all) && p.is_prefix_of(
                        all,
                    ));
                }
            }
        }
        let ghost full = self.container@.reverse();
        let r = self.container.pop();
        proof {
            let rest = self.container@.reverse();
            assert(self.buffered() == rest);
            assert forall|t: Seq<I::Item>| #[trigger] self.yields(t) <==> t == rest by {}
            assert forall|p: Seq<I::Item>| #[trigger] self.begins(p) <==> p.is_prefix_of(rest) by {}
            if r is Some {
                let x = r.unwrap();
                assert(full =~= seq![x] + rest);
                assert(seq![x].is_prefix_of(full));
                assert forall|p: Seq<I::Item>| #[trigger] self.begins(p) implies (seq![x]
                    + p).is_prefix_of(full) by {
                    assert(p.is_prefix_of(rest));
                }
                assert(self.bound() == rest.len());
            } else {
                assert(full =~= Seq::<I::Item>::empty());
                assert(rest =~= full);
                assert(self.bound() == 0);
            }
        }
        r
    }
}

/// The order on items that a function from items to keys gives.
pub open spec fn by_key_fn<T, K: Ord>(kf: spec_fn(T) -> K) -> spec_fn(T, T) -> bool {
    |a: T, b: T| key_le(kf(a), kf(b))
}

/// The sorted items are the items of `ps`, each as often as `ps` has it.
pub proof fn lemma_sorted_by_keys_multiset<T, K: Ord>(ps: Seq<(T, K)>)
    ensures
        sorted_by_keys(ps).len() == ps.len(),
        sorted_by_keys(ps).to_multiset() == firsts(ps).to_multiset(),
    decreases ps.len(),
{
    broadcast use vstd::seq_lib::group_to_multiset_ensures;

    let le = by_key::<T, K>();
    if ps.len() == 0 {
        assert(sorted_by_keys(ps) =~= firsts(ps));
    } else {
        let rest = ps.drop_last();
        let x = ps.last();
        let done = stable_sort(rest, le);
        let p = place_of(done, x, le);
        lemma_sorted_by_keys_multiset(rest);
        lemma_place_of(done, x, le);
        lemma_stable_sort_multiset(rest, le);
        assert(firsts(done.insert(p, x)) =~= firsts(done).insert(p, x.0));
        assert(firsts(ps) =~= firsts(rest).push(x.0));
    }
}

/// Sorting by key gives the items in ascending order of the keys that they
/// came with: no key comes after the key of a later item. The sorted sequence
/// holds the items of `s`, each as often as `s` does, and the items that came
/// with the key of any one item stand in it in the order in which they came.
pub proof fn lemma_sorted<T, K: Ord, F: Fn(&T) -> K>(
    key: F,
    ps: Seq<(T, K)>,
    s: Seq<T>,
    t: Seq<T>,
)
    requires
        total_order::<K>(),
        sorted_from(key, ps, s, t),
    ensures
        t == firsts(stable_sort(ps, by_key::<T, K>())),
        sorted_by(stable_sort(ps, by_key::<T, K>()), by_key::<T, K>()),
        forall|i: int, j: int|
            0 <= i < j < ps.len() ==> key_le(
                (#[trigger] stable_sort(ps, by_key::<T, K>())[i]).1,
                (#[trigger] stable_sort(ps, by_key::<T, K>())[j]).1,
            ),
        stable_sort(ps, by_key::<T, K>()).to_multiset() == ps.to_multiset(),
        t.len() == s.len(),
        t.to_multiset() == s.to_multiset(),
        forall|e: (T, K)|
            stable_sort(ps, by_key::<T, K>()).filter(#[trigger] alike(e, by_key::<T, K>()))
                == ps.filter(alike(e, by_key::<T, K>())),
{
    let le = by_key::<T, K>();
    let out = stable_sort(ps, le);
    lemma_by_key_total::<T, K>();
    lemma_stable_sort_sorted(ps, le);
    lemma_stable_sort_multiset(ps, le);
    lemma_sorted_by_keys_multiset(ps);
    assert forall|i: int, j: int| 0 <= i < j < ps.len() implies key_le(
        (#[trigger] out[i]).1,
        (#[trigger] out[j]).1,
    ) by {
        assert(le(out[i], out[j]));
    }
    assert forall|e: (T, K)| out.filter(#[trigger] alike(e, le)) == ps.filter(alike(e, le)) by {
        lemma_stable_sort_stable(ps, le, e);
    }
}

/// Where each item of `s` comes with the key that `kf` says, an item has the
/// same place among the items as it has, with its key, among the pairs.
pub proof fn lemma_place_by_key_fn<T, K: Ord>(ps: Seq<(T, K)>, x: (T, K), kf: spec_fn(T) -> K)
    requires
        forall|i: int| 0 <= i < ps.len() ==> (#[trigger] ps[i]).1 == kf(ps[i].0),
        x.1 == kf(x.0),
    ensures
        place_of(ps, x, by_key::<T, K>()) == place_of(firsts(ps), x.0, by_key_fn(kf)),
    decreases ps.len(),
{
    if ps.len() > 0 {
        let rest = ps.drop_last();
        assert(firsts(ps).drop_last() =~= firsts(rest));
        assert(firsts(ps).last() == ps.last().0);
        assert forall|i: int| 0 <= i < rest.len() implies (#[trigger] rest[i]).1 == kf(
            rest[i].0,
        ) by {
            assert(rest[i] == ps[i]);
        }
        lemma_place_by_key_fn(rest, x, kf);
    }
}

/// Where each item of `ps` comes with the key that `kf` says, sorting the
/// pairs by their keys sorts the items by what `kf` says of them.
pub proof fn lemma_sorted_by_key_fn<T, K: Ord>(ps: Seq<(T, K)>, kf: spec_fn(T) -> K)
    requires
        forall|i: int| 0 <= i < ps.len() ==> (#[trigger] ps[i]).1 == kf(ps[i].0),
    ensures
        sorted_by_keys(ps) == stable_sort(firsts(ps), by_key_fn(kf)),
        forall|i: int|
            0 <= i < ps.len() ==> (#[trigger] stable_sort(ps, by_key::<T, K>())[i]).1 == kf(
                stable_sort(ps, by_key::<T, K>())[i].0,
            ),
    decreases ps.len(),
{
    let le = by_key::<T, K>();
    if ps.len() == 0 {
        assert(sorted_by_keys(ps) =~= stable_sort(firsts(ps), by_key_fn(kf)));
    } else {
        let rest = ps.drop_last();
        let x = ps.last();
        let done = stable_sort(rest, le);
        assert forall|i: int| 0 <= i < rest.len() implies (#[trigger] rest[i]).1 == kf(
            rest[i].0,
        ) by {
            assert(rest[i] == ps[i]);
        }
        lemma_sorted_by_key_fn(rest, kf);
        lemma_stable_sort_multiset(rest, le);
        lemma_place_by_key_fn(done, x, kf);
        lemma_place_of(done, x, le);
        let p = place_of(done, x, le);
        assert(firsts(ps).drop_last() =~= firsts(rest));
        assert(firsts(ps).last() == x.0);
        assert(firsts(done.insert(p, x)) =~= firsts(done).insert(p, x.0));
        let out = stable_sort(ps, le);
        assert forall|i: int| 0 <= i < ps.len() implies (#[trigger] out[i]).1 == kf(
            out[i].0,
        ) by {
            if i < p {
                assert(out[i] == done[i]);
            } else if i > p {
                assert(out[i] == done[i - 1]);
            }
        }
    }
}

/// Where `key` can give nothing on an item of `s` but what `kf` says, a
/// sorting of `s` by `key` is `s` sorted by what `kf` says of the items,
/// ascending and stable.
pub proof fn lemma_sorted_is_sort<T, K: Ord, F: Fn(&T) -> K>(
    key: F,
    kf: spec_fn(T) -> K,
    s: Seq<T>,
    t: Seq<T>,
)
    requires
        sorted(key, s, t),
        forall|i: int, k: K|
            0 <= i < s.len() && #[trigger] call_ensures(key, (&s[i],), k) ==> k == kf(s[i]),
    ensures
        t == stable_sort(s, by_key_fn(kf)),
{
    let ps = choose|ps: Seq<(T, K)>| #[trigger] sorted_from(key, ps, s, t);
    assert forall|i: int| 0 <= i < ps.len() implies (#[trigger] ps[i]).1 == kf(ps[i].0) by {
        assert(call_ensures(key, (&ps[i].0,), ps[i].1));
        assert(s[i] == ps[i].0);
    }
    lemma_sorted_by_key_fn(ps, kf);
}

} // verus!
