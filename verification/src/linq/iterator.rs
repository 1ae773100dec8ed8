//! The cursor trait and the adapters that pull through: mapping, filtering
//! and bounding.

use crate::linq::calls::{
    callable_on, callable_on_refs, filtered, lemma_filtered_empty, lemma_filtered_step,
    lemma_mapped_empty, lemma_mapped_step, mapped,
};
use vstd::prelude::*;

verus! {

/// A single-pass source of items.
///
/// What a cursor is going to hand out is described by two relations. It
/// `begins` with a sequence when that sequence may be what its next pulls
/// give. It `yields` a sequence when that sequence may be all that it still
/// gives, up to its end. A cursor over fixed data has one possible sequence;
/// a cursor that calls functions has as many as their results allow.
///
/// Every cursor is finite: `bound` is a number of items that it never
/// exceeds. Once a pull has given `None`, every later pull gives `None`.
pub trait LinqIterator: Sized {
    type Item;

    /// The invariant that every operation needs and keeps.
    spec fn wf(&self) -> bool;

    /// The next pulls may give the items of `p`, in this order. The cursor need
    /// not end behind them.
    spec fn begins(&self, p: Seq<Self::Item>) -> bool;

    /// The pulls from now on may give the items of `s`, in this order, and then
    /// the end.
    spec fn yields(&self, s: Seq<Self::Item>) -> bool;

    /// No more than this many items are still to come.
    spec fn bound(&self) -> nat;

    /// Pulls one item, or signals exhaustion.
    ///
    /// An item that is pulled is one that the cursor could begin with, and
    /// whatever the cursor may give from then on, it could give behind that
    /// item before the pull. `None` comes only where the cursor could yield
    /// nothing more; it leaves nothing to come, so that every later pull gives
    /// `None` too.
    fn next(&mut self) -> (r: Option<Self::Item>)
        requires
            old(self).wf(),
        ensures
            final(self).wf(),
            match r {
                Some(x) => {
                    &&& old(self).begins(seq![x])
                    &&& final(self).bound() < old(self).bound()
                    &&& forall|p: Seq<Self::Item>| #[trigger]
                        final(self).begins(p) ==> old(self).begins(seq![x] + p)
                    &&& forall|s: Seq<Self::Item>| #[trigger]
                        final(self).yields(s) ==> old(self).yields(seq![x] + s)
                },
                None => {
                    &&& old(self).yields(Seq::empty())
                    &&& final(self).bound() == 0
                    &&& forall|p: Seq<Self::Item>| #[trigger]
                        final(self).begins(p) ==> old(self).begins(p)
                    &&& forall|s: Seq<Self::Item>| #[trigger]
                        final(self).yields(s) ==> old(self).yields(s)
                },
            },
    ;

    /// Drains the cursor into a vector, in the order of the pulls.
    ///
    /// The vector holds a sequence that the cursor could yield. Of a cursor with
    /// nothing to come it is empty.
    fn to_list(self) -> (r: Vec<Self::Item>)
        requires
            self.wf(),
        ensures
            self.yields(r@),
            r@.len() <= self.bound(),
            self.bound() == 0 ==> r@ == Seq::<Self::Item>::empty(),
    {
        let mut cursor = self;
        let mut result: Vec<Self::Item> = Vec::new();
        loop
            invariant_except_break
                cursor.wf(),
                forall|s: Seq<Self::Item>| #[trigger] cursor.yields(s) ==> self.yields(result@ + s),
                result@.len() + cursor.bound() <= self.bound(),
            ensures
                self.yields(result@),
                result@.len() <= self.bound(),
                self.bound() == 0 ==> result@ == Seq::<Self::Item>::empty(),
            decreases cursor.bound(),
        {
            let ghost before = cursor;
            let ghost sofar = result@;
            match cursor.next() {
                Some(el) => {
                    result.push(el);
                    proof {
                        assert forall|s: Seq<Self::Item>| #[trigger]
                            cursor.yields(s) implies self.yields(result@ + s) by {
                            assert(before.yields(seq![el] + s));
                            assert(sofar + (seq![el] + s) =~= result@ + s);
                        }
                    }
                },
                None => {
                    proof {
                        assert(result@ + Seq::<Self::Item>::empty() =~= result@);
                        if self.bound() == 0 {
                            assert(result@ =~= Seq::<Self::Item>::empty());
                        }
                    }
                    break ;
                },
            }
        }
        result
    }
}

/// One pull of the cursor `before` may give `r` and leave the cursor `after`:
/// what `next` promises of its result and of the cursor behind it.
pub open spec fn pulled<I: LinqIterator>(before: I, r: Option<I::Item>, after: I) -> bool {
    &&& after.wf()
    &&& match r {
        Some(x) => {
            &&& before.begins(seq![x])
            &&& after.bound() < before.bound()
            &&& forall|p: Seq<I::Item>| #[trigger] after.begins(p) ==> before.begins(seq![x] + p)
            &&& forall|s: Seq<I::Item>| #[trigger] after.yields(s) ==> before.yields(seq![x] + s)
        },
        None => {
            &&& before.yields(Seq::empty())
            &&& after.bound() == 0
            &&& forall|p: Seq<I::Item>| #[trigger] after.begins(p) ==> before.begins(p)
            &&& forall|s: Seq<I::Item>| #[trigger] after.yields(s) ==> before.yields(s)
        },
    }
}

/// The cursor is sure to yield the items of `all`, in this order and no
/// others.
pub open spec fn fixed<I: LinqIterator>(it: I, all: Seq<I::Item>) -> bool {
    &&& forall|s: Seq<I::Item>| #[trigger] it.yields(s) <==> s == all
    &&& forall|p: Seq<I::Item>| #[trigger] it.begins(p) <==> p.is_prefix_of(all)
}

/// `func` may be called on every item that `it` may hand out.
pub open spec fn maps_all<I: LinqIterator, Y, F: Fn(I::Item) -> Y>(it: I, func: F) -> bool {
    forall|p: Seq<I::Item>| #[trigger] it.begins(p) ==> callable_on(func, p)
}

/// `func` may be called on a reference to every item that `it` may hand out.
pub open spec fn reads_all<I: LinqIterator, Y, F: Fn(&I::Item) -> Y>(it: I, func: F) -> bool {
    forall|p: Seq<I::Item>| #[trigger] it.begins(p) ==> callable_on_refs(func, p)
}

/// Yields, for each item of the cursor beneath, what `func` gives on it.
pub struct Select<I, Func> {
    iter: I,
    func: Func,
}

impl<I, Func> Select<I, Func> {
    /// Wraps `iter`. Nothing is pulled and `func` is not called until the first
    /// pull.
    pub fn new<Output>(iter: I, func: Func) -> (r: Self) where
        I: LinqIterator,
        Func: Fn(I::Item) -> Output,

        requires
            iter.wf(),
            maps_all(iter, func),
        ensures
            r.wf(),
            r.bound() == iter.bound(),
            forall|q: Seq<Output>| #[trigger]
                r.begins(q) <==> exists|p: Seq<I::Item>| #[trigger]
                    iter.begins(p) && mapped(func, p, q),
            forall|t: Seq<Output>| #[trigger]
                r.yields(t) <==> exists|s: Seq<I::Item>| #[trigger]
                    iter.yields(s) && mapped(func, s, t),
    {
        Self { iter, func }
    }
}

impl<Output, I, Func> LinqIterator for Select<I, Func> where
    I: LinqIterator,
    Func: Fn(I::Item) -> Output,
 {
    type Item = Output;

    closed spec fn wf(&self) -> bool {
        &&& self.iter.wf()
        &&& maps_all(self.iter, self.func)
    }

    closed spec fn begins(&self, q: Seq<Output>) -> bool {
        exists|p: Seq<I::Item>| #[trigger] self.iter.begins(p) && mapped(self.func, p, q)
    }

    closed spec fn yields(&self, t: Seq<Output>) -> bool {
        exists|s: Seq<I::Item>| #[trigger] self.iter.yields(s) && mapped(self.func, s, t)
    }

    closed spec fn bound(&self) -> nat {
        self.iter.bound()
    }

    fn next(&mut self) -> (r: Option<Output>) {
        let ghost before = self.iter;
        match self.iter.next() {
            Some(x) => {
                assert(callable_on(self.func, seq![x])) by {
                    assert(before.begins(seq![x]));
                }
                assert(seq![x][0] == x);
                let y = (self.func)(x);
                proof {
                    let f = self.func;
                    lemma_mapped_empty::<I::Item, Output, Func>(f);
                    lemma_mapped_step(f, x, y, Seq::empty(), Seq::empty());
                    assert(seq![x] + Seq::<I::Item>::empty() =~= seq![x]);
                    assert(seq![y] + Seq::<Output>::empty() =~= seq![y]);
                    assert(before.begins(seq![x]) && mapped(f, seq![x], seq![y]));
                    assert forall|q: Seq<Output>| #[trigger] self.begins(q) implies old(
                        self,
                    ).begins(seq![y] + q) by {
                        let p = choose|p: Seq<I::Item>| #[trigger]
                            self.iter.begins(p) && mapped(f, p, q);
                        lemma_mapped_step(f, x, y, p, q);
                        assert(before.begins(seq![x] + p));
                    }
                    assert forall|t: Seq<Output>| #[trigger] self.yields(t) implies old(
                        self,
                    ).yields(seq![y] + t) by {
                        let s = choose|s: Seq<I::Item>| #[trigger]
                            self.iter.yields(s) && mapped(f, s, t);
                        lemma_mapped_step(f, x, y, s, t);
                        assert(before.yields(seq![x] + s));
                    }
                    assert forall|p: Seq<I::Item>| #[trigger]
                        self.iter.begins(p) implies callable_on(f, p) by {
                        assert(before.begins(seq![x] + p));
                        assert forall|i: int| 0 <= i < p.len() implies call_requires(
                            f,
                            (#[trigger] p[i],),
                        ) by {
                            assert((seq![x] + p)[i + 1] == p[i]);
                        }
                    }
                    assert(self.bound() == self.iter.bound());
                    assert(old(self).bound() == before.bound());
                }
                Some(y)
            },
            None => {
                proof {
                    lemma_mapped_empty::<I::Item, Output, Func>(self.func);
                    assert(before.yields(Seq::empty()));
                    assert(self.bound() == self.iter.bound());
                    assert forall|p: Seq<I::Item>| #[trigger]
                        self.iter.begins(p) implies callable_on(self.func, p) by {
                        assert(before.begins(p));
                    }
                }
                None
            },
        }
    }
}

/// Yields the items of the cursor beneath on which `pred` gives `true`, in
/// their order.
pub struct Where<I, Pred> {
    iter: I,
    pred: Pred,
}

impl<I, Pred> Where<I, Pred> {
    /// Wraps `iter`. Nothing is pulled and `pred` is not called until the first
    /// pull.
    pub fn new(iter: I, pred: Pred) -> (r: Self) where
        I: LinqIterator,
        Pred: Fn(&I::Item) -> bool,

        requires
            iter.wf(),
            reads_all(iter, pred),
        ensures
            r.wf(),
            r.bound() == iter.bound(),
            forall|q: Seq<I::Item>| #[trigger]
                r.begins(q) <==> exists|p: Seq<I::Item>| #[trigger]
                    iter.begins(p) && filtered(pred, p, q),
            forall|t: Seq<I::Item>| #[trigger]
                r.yields(t) <==> exists|s: Seq<I::Item>| #[trigger]
                    iter.yields(s) && filtered(pred, s, t),
    {
        Self { iter, pred }
    }
}

impl<I, Pred> LinqIterator for Where<I, Pred> where
    I: LinqIterator,
    Pred: Fn(&I::Item) -> bool,
 {
    type Item = I::Item;

    closed spec fn wf(&self) -> bool {
        &&& self.iter.wf()
        &&& reads_all(self.iter, self.pred)
    }

    closed spec fn begins(&self, q: Seq<I::Item>) -> bool {
        exists|p: Seq<I::Item>| #[trigger] self.iter.begins(p) && filtered(self.pred, p, q)
    }

    closed spec fn yields(&self, t: Seq<I::Item>) -> bool {
        exists|s: Seq<I::Item>| #[trigger] self.iter.yields(s) && filtered(self.pred, s, t)
    }

    closed spec fn bound(&self) -> nat {
        self.iter.bound()
    }

    fn next(&mut self) -> (r: Option<I::Item>) {
        loop
            invariant
                self.wf(),
                self.bound() <= old(self).bound(),
                forall|q: Seq<I::Item>| #[trigger] self.begins(q) ==> old(self).begins(q),
                forall|t: Seq<I::Item>| #[trigger] self.yields(t) ==> old(self).yields(t),
            decreases self.iter.bound(),
        {
            let ghost before = *self;
            match self.iter.next() {
                Some(x) => {
                    assert(callable_on_refs(self.pred, seq![x])) by {
                        assert(before.iter.begins(seq![x]));
                    }
                    assert(seq![x][0] == x);
                    let keep = (self.pred)(&x);
                    proof {
                        let f = self.pred;
                        let front = if keep {
                            seq![x]
                        } else {
                            Seq::empty()
                        };
                        assert forall|q: Seq<I::Item>| #[trigger]
                            self.begins(q) implies before.begins(front + q) by {
                            let p = choose|p: Seq<I::Item>| #[trigger]
                                self.iter.begins(p) && filtered(f, p, q);
                            lemma_filtered_step(f, x, keep, p, q);
                            assert(before.iter.begins(seq![x] + p));
                            assert(Seq::<I::Item>::empty() + q =~= q);
                        }
                        assert forall|t: Seq<I::Item>| #[trigger]
                            self.yields(t) implies before.yields(front + t) by {
                            let s = choose|s: Seq<I::Item>| #[trigger]
                                self.iter.yields(s) && filtered(f, s, t);
                            lemma_filtered_step(f, x, keep, s, t);
                            assert(before.iter.yields(seq![x] + s));
                            assert(Seq::<I::Item>::empty() + t =~= t);
                        }
                        assert forall|p: Seq<I::Item>| #[trigger]
                            self.iter.begins(p) implies callable_on_refs(f, p) by {
                            assert(before.iter.begins(seq![x] + p));
                            assert forall|i: int| 0 <= i < p.len() implies call_requires(
                                f,
                                (&#[trigger] p[i],),
                            ) by {
                                assert((seq![x] + p)[i + 1] == p[i]);
                            }
                        }
                        assert(self.bound() == self.iter.bound());
                        assert(before.bound() == before.iter.bound());
                        if keep {
                            lemma_filtered_empty::<I::Item, Pred>(f);
                            lemma_filtered_step(f, x, keep, Seq::empty(), Seq::empty());
                            assert(seq![x] + Seq::<I::Item>::empty() =~= seq![x]);
                            assert(before.iter.begins(seq![x]) && filtered(f, seq![x], seq![x]));
                            assert(before.begins(seq![x]));
                        } else {
                            assert forall|q: Seq<I::Item>| #[trigger]
                                self.begins(q) implies old(self).begins(q) by {
                                assert(before.begins(front + q));
                                assert(front + q =~= q);
                            }
                            assert forall|t: Seq<I::Item>| #[trigger]
                                self.yields(t) implies old(self).yields(t) by {
                                assert(before.yields(front + t));
                                assert(front + t =~= t);
                            }
                        }
                    }
                    if keep {
                        return Some(x);
                    }
                },
                None => {
                    proof {
                        let f = self.pred;
                        lemma_filtered_empty::<I::Item, Pred>(f);
                        assert(before.iter.yields(Seq::empty()));
                        assert(before.yields(Seq::empty()));
                        assert(self.bound() == self.iter.bound());
                        assert forall|p: Seq<I::Item>| #[trigger]
                            self.iter.begins(p) implies callable_on_refs(f, p) by {
                            assert(before.iter.begins(p));
                        }
                        assert forall|q: Seq<I::Item>| #[trigger] self.begins(q) implies old(
                            self,
                        ).begins(q) by {
                            let p = choose|p: Seq<I::Item>| #[trigger]
                                self.iter.begins(p) && filtered(f, p, q);
                            assert(before.iter.begins(p));
                            assert(before.begins(q));
                        }
                        assert forall|t: Seq<I::Item>| #[trigger] self.yields(t) implies old(
                            self,
                        ).yields(t) by {
                            let s = choose|s: Seq<I::Item>| #[trigger]
                                self.iter.yields(s) && filtered(f, s, t);
                            assert(before.iter.yields(s));
                            assert(before.yields(t));
                        }
                    }
                    return None;
                },
            }
        }
    }
}

/// What a cursor that stops after `left` items may begin with, over the cursor
/// `it` beneath: no more than `left` of the items that `it` may begin with.
pub open spec fn bounded_begins<I: LinqIterator>(it: I, left: int, p: Seq<I::Item>) -> bool {
    &&& p.len() <= left
    &&& p.len() == 0 || it.begins(p)
}

/// What a cursor that stops after `left` items may yield, over the cursor `it`
/// beneath: either `left` items that `it` may begin with, or fewer, which `it`
/// may yield to its end.
pub open spec fn bounded_yields<I: LinqIterator>(it: I, left: int, t: Seq<I::Item>) -> bool {
    ||| t.len() == left && (t.len() == 0 || it.begins(t))
    ||| t.len() < left && it.yields(t)
}

/// The first `k` items of `s`, or all of `s` if it has fewer.
pub open spec fn first_items<A>(s: Seq<A>, k: int) -> Seq<A> {
    if k <= 0 {
        Seq::empty()
    } else if k < s.len() {
        s.take(k)
    } else {
        s
    }
}

/// The first `k` items are as many as `k` or as `s` has, whichever is less, and
/// they are the items of `s` at the same indices.
pub proof fn lemma_first_items<A>(s: Seq<A>, k: int)
    requires
        k >= 0,
    ensures
        first_items(s, k).len() == (if k < s.len() {
            k
        } else {
            s.len() as int
        }),
        forall|i: int| 0 <= i < first_items(s, k).len() ==> (#[trigger] first_items(s, k)[i]) == s[i],
        first_items(s, 0) == Seq::<A>::empty(),
{
}

/// Over a cursor that is sure to yield `all`, a cursor that stops after `k`
/// items is sure to yield the first `k` items of `all`, or all of them if they
/// are fewer.
pub proof fn lemma_bounded_fixed<I: LinqIterator>(it: I, all: Seq<I::Item>, k: int)
    requires
        fixed(it, all),
        k >= 0,
    ensures
        forall|t: Seq<I::Item>| #[trigger] bounded_yields(it, k, t) <==> t == first_items(all, k),
        forall|p: Seq<I::Item>| #[trigger]
            bounded_begins(it, k, p) <==> p.is_prefix_of(first_items(all, k)),
{
    let first = first_items(all, k);
    assert forall|t: Seq<I::Item>| #[trigger] bounded_yields(it, k, t) <==> t == first by {
        if bounded_yields(it, k, t) {
            if t.len() == k && t.len() > 0 {
                assert(it.begins(t));
                assert(t.is_prefix_of(all));
            }
            if t.len() < k {
                assert(it.yields(t));
            }
            assert(t =~= first);
        }
        if t == first {
            if k < all.len() {
                assert(t.is_prefix_of(all));
                assert(t.len() == 0 || it.begins(t));
            } else if k == all.len() {
                assert(t.is_prefix_of(all));
                assert(t.len() == 0 || it.begins(t));
            } else {
                assert(it.yields(t));
            }
        }
    }
    assert forall|p: Seq<I::Item>| #[trigger]
        bounded_begins(it, k, p) <==> p.is_prefix_of(first) by {
        if bounded_begins(it, k, p) {
            if p.len() > 0 {
                assert(it.begins(p));
                assert(p.is_prefix_of(all));
            }
            assert(p.is_prefix_of(first));
        }
        if p.is_prefix_of(first) {
            if p.len() > 0 {
                assert(p.is_prefix_of(all));
                assert(it.begins(p));
            }
        }
    }
}

/// Yields at most `k` items of the cursor beneath, and pulls it no further.
/// Below the limit each pull is one pull of the cursor beneath; the count of
/// the items yielded grows when that pull gives an item, and only then.
pub struct Take<I> {
    iter: I,
    k: usize,
    current: usize,
}

impl<I> Take<I> {
    /// Wraps `iter`, to yield its first `k` items, or all of them if they are
    /// fewer.
    pub fn new(iter: I, k: usize) -> (r: Self) where I: LinqIterator
        requires
            iter.wf(),
        ensures
            r.wf(),
            r.source() == iter,
            r.emitted() == 0,
            r.limit() == k,
            r.bound() <= k,
            r.bound() <= iter.bound(),
            forall|p: Seq<I::Item>| #[trigger] r.begins(p) <==> bounded_begins(iter, k as int, p),
            forall|t: Seq<I::Item>| #[trigger] r.yields(t) <==> bounded_yields(iter, k as int, t),
    {
        Self { iter, k, current: 0 }
    }

    /// The cursor beneath.
    pub closed spec fn source(&self) -> I {
        self.iter
    }

    /// The number of items to yield at most.
    pub closed spec fn limit(&self) -> usize {
        self.k
    }

    /// The number of items yielded so far.
    pub closed spec fn emitted(&self) -> usize {
        self.current
    }
}

impl<I> LinqIterator for Take<I> where I: LinqIterator {
    type Item = I::Item;

    closed spec fn wf(&self) -> bool {
        &&& self.iter.wf()
        &&& self.current <= self.k
    }

    closed spec fn begins(&self, p: Seq<I::Item>) -> bool {
        bounded_begins(self.iter, self.k - self.current, p)
    }

    closed spec fn yields(&self, t: Seq<I::Item>) -> bool {
        bounded_yields(self.iter, self.k - self.current, t)
    }

    closed spec fn bound(&self) -> nat {
        if self.k - self.current <= self.iter.bound() {
            (self.k - self.current) as nat
        } else {
            self.iter.bound()
        }
    }

    /// At the limit the pull gives `None` and leaves the cursor beneath as it
    /// is. Below the limit it is one pull of the cursor beneath, and the count
    /// grows by one if that gives an item, and not at all if it gives `None`.
    fn next(&mut self) -> (r: Option<I::Item>)
        ensures
            final(self).limit() == old(self).limit(),
            r is Some ==> final(self).emitted() == old(self).emitted() + 1,
            r is None ==> final(self).emitted() == old(self).emitted(),
            final(self).emitted() <= final(self).limit(),
            old(self).emitted() == old(self).limit() ==> r is None && final(self).source() == old(
                self,
            ).source(),
            old(self).emitted() < old(self).limit() ==> pulled(
                old(self).source(),
                r,
                final(self).source(),
            ),
    {
        if self.current >= self.k {
            proof {
                assert(self.bound() == 0);
                assert(old(self).yields(Seq::empty()));
            }
            return None;
        }
        let ghost before = self.iter;
        let ghost left = self.k - self.current;
        let r = self.iter.next();
        match &r {
            Some(x) => {
                self.current += 1;
                proof {
                    let x = *x;
                    assert(old(self).begins(seq![x]));
                    assert forall|p: Seq<I::Item>| #[trigger] self.begins(p) implies old(
                        self,
                    ).begins(seq![x] + p) by {
                        if p.len() == 0 {
                            assert(seq![x] + p =~= seq![x]);
                        } else {
                            assert(before.begins(seq![x] + p));
                        }
                    }
                    assert forall|t: Seq<I::Item>| #[trigger] self.yields(t) implies old(
                        self,
                    ).yields(seq![x] + t) by {
                        if t.len() == left - 1 {
                            if t.len() == 0 {
                                assert(seq![x] + t =~= seq![x]);
                            } else {
                                assert(before.begins(seq![x] + t));
                            }
                        } else {
                            assert(before.yields(seq![x] + t));
                        }
                    }
                    assert(self.bound() < old(self).bound());
                }
            },
            None => {
                proof {
                    assert(old(self).yields(Seq::empty()));
                    assert(self.bound() == 0);
                    assert forall|p: Seq<I::Item>| #[trigger] self.begins(p) implies old(
                        self,
                    ).begins(p) by {
                        if p.len() > 0 {
                            assert(before.begins(p));
                        }
                    }
                    assert forall|t: Seq<I::Item>| #[trigger] self.yields(t) implies old(
                        self,
                    ).yields(t) by {
                        if t.len() == left {
                            if t.len() > 0 {
                                assert(before.begins(t));
                            }
                        } else {
                            assert(before.yields(t));
                        }
                    }
                }
            },
        }
        r
    }
}

} // verus!
