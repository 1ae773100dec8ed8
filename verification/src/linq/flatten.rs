//! The adapter that yields the items of a cursor of cursors.

use crate::linq::iterator::{fixed, LinqIterator};
use vstd::prelude::*;

verus! {

/// Every cursor that `it` may hand out is well formed and has no more than
/// `cap` items to give.
pub open spec fn holds_cursors<I: LinqIterator>(it: I, cap: nat) -> bool where
    I::Item: LinqIterator,
 {
    forall|cs: Seq<I::Item>| #[trigger]
        it.begins(cs) ==> forall|i: int|
            0 <= i < cs.len() ==> (#[trigger] cs[i]).wf() && cs[i].bound() <= cap
}

/// The cursors of `cs` may hand out the sequences of `parts`, cursor by cursor:
/// each cursor but the last up to its end; the last up to its end too if
/// `ended`, and else any number of its next items.
pub open spec fn chained<C: LinqIterator>(
    cs: Seq<C>,
    parts: Seq<Seq<C::Item>>,
    ended: bool,
) -> bool {
    &&& parts.len() == cs.len()
    &&& forall|i: int| 0 <= i < cs.len() - 1 ==> (#[trigger] cs[i]).yields(parts[i])
    &&& cs.len() > 0 ==> if ended {
        cs.last().yields(parts.last())
    } else {
        parts.last().len() == 0 || cs.last().begins(parts.last())
    }
}

/// `q` is what the cursors of `head`, and then cursors `cs` that `it` hands
/// out, give one after the other. If `ended`, `cs` is all that `it` yields and
/// the last cursor is drained; else `cs` is what `it` begins with, or nothing,
/// and the last cursor gives any number of its next items.
pub open spec fn flattened_by<I: LinqIterator>(
    head: Seq<I::Item>,
    it: I,
    cs: Seq<I::Item>,
    parts: Seq<Seq<<I::Item as LinqIterator>::Item>>,
    q: Seq<<I::Item as LinqIterator>::Item>,
    ended: bool,
) -> bool where I::Item: LinqIterator {
    &&& if ended {
        it.yields(cs)
    } else {
        cs.len() == 0 || it.begins(cs)
    }
    &&& chained(head + cs, parts, ended)
    &&& q == parts.flatten()
}

/// `q` is what the cursors of `head`, and then the cursors that `it` hands
/// out, may give one after the other: up to the end of them all if `ended`, and
/// else up to any point.
pub open spec fn flattened<I: LinqIterator>(
    head: Seq<I::Item>,
    it: I,
    q: Seq<<I::Item as LinqIterator>::Item>,
    ended: bool,
) -> bool where I::Item: LinqIterator {
    exists|cs: Seq<I::Item>, parts: Seq<Seq<<I::Item as LinqIterator>::Item>>| #[trigger]
        flattened_by(head, it, cs, parts, q, ended)
}

/// A cursor that `it` hands out takes the place at the head.
pub proof fn lemma_flattened_pull<I: LinqIterator>(
    it: I,
    c: I::Item,
    it2: I,
    q: Seq<<I::Item as LinqIterator>::Item>,
    ended: bool,
) where I::Item: LinqIterator
    requires
        it.begins(seq![c]),
        forall|p: Seq<I::Item>| #[trigger] it2.begins(p) ==> it.begins(seq![c] + p),
        forall|s: Seq<I::Item>| #[trigger] it2.yields(s) ==> it.yields(seq![c] + s),
        flattened(seq![c], it2, q, ended),
    ensures
        flattened(Seq::empty(), it, q, ended),
{
    let (cs, parts) = choose|cs: Seq<I::Item>, parts: Seq<Seq<<I::Item as LinqIterator>::Item>>|
     #[trigger]
        flattened_by(seq![c], it2, cs, parts, q, ended);
    let cs2 = seq![c] + cs;
    assert(Seq::<I::Item>::empty() + cs2 =~= seq![c] + cs);
    if cs.len() == 0 {
        assert(cs2 =~= seq![c]);
    }
    assert(flattened_by(Seq::empty(), it, cs2, parts, q, ended));
}

/// An item that the cursor at the head hands out goes in front.
pub proof fn lemma_flattened_item<I: LinqIterator>(
    it: I,
    c0: I::Item,
    x: <I::Item as LinqIterator>::Item,
    c1: I::Item,
    q: Seq<<I::Item as LinqIterator>::Item>,
    ended: bool,
) where I::Item: LinqIterator
    requires
        c0.begins(seq![x]),
        forall|p: Seq<<I::Item as LinqIterator>::Item>| #[trigger]
            c1.begins(p) ==> c0.begins(seq![x] + p),
        forall|s: Seq<<I::Item as LinqIterator>::Item>| #[trigger]
            c1.yields(s) ==> c0.yields(seq![x] + s),
        flattened(seq![c1], it, q, ended),
    ensures
        flattened(seq![c0], it, seq![x] + q, ended),
{
    let (cs, parts) = choose|cs: Seq<I::Item>, parts: Seq<Seq<<I::Item as LinqIterator>::Item>>|
     #[trigger]
        flattened_by(seq![c1], it, cs, parts, q, ended);
    let all1 = seq![c1] + cs;
    let all0 = seq![c0] + cs;
    let parts2 = parts.update(0, seq![x] + parts[0]);
    assert(all1[0] == c1);
    assert(all0[0] == c0);
    assert forall|i: int| 0 <= i < all0.len() - 1 implies (#[trigger] all0[i]).yields(
        parts2[i],
    ) by {
        if i > 0 {
            assert(all0[i] == all1[i]);
            assert(all1[i].yields(parts[i]));
        } else {
            assert(all1[0].yields(parts[0]));
        }
    }
    if cs.len() == 0 {
        assert(all0.last() == c0 && all1.last() == c1);
        assert(parts2.last() == seq![x] + parts[0]);
        assert(parts.last() == parts[0]);
        if !ended && parts[0].len() == 0 {
            assert(seq![x] + parts[0] =~= seq![x]);
        }
    } else {
        assert(all0.last() == all1.last());
        assert(parts2.last() == parts.last());
    }
    assert(chained(all0, parts2, ended));
    assert(parts2.drop_first() =~= parts.drop_first());
    assert(parts2.flatten() =~= seq![x] + parts.flatten());
    assert(flattened_by(seq![c0], it, cs, parts2, seq![x] + q, ended));
}

/// The cursor at the head begins with the item that it hands out.
pub proof fn lemma_flattened_first<I: LinqIterator>(
    it: I,
    c0: I::Item,
    x: <I::Item as LinqIterator>::Item,
) where I::Item: LinqIterator
    requires
        c0.begins(seq![x]),
    ensures
        flattened(seq![c0], it, seq![x], false),
{
    let cs = Seq::<I::Item>::empty();
    let parts = seq![seq![x]];
    assert(seq![c0] + cs =~= seq![c0]);
    parts.lemma_flatten_one_element();
    assert(flattened_by(seq![c0], it, cs, parts, seq![x], false));
}

/// A cursor at the head that is exhausted may be left out.
pub proof fn lemma_flattened_drop<I: LinqIterator>(
    it: I,
    c0: I::Item,
    q: Seq<<I::Item as LinqIterator>::Item>,
    ended: bool,
) where I::Item: LinqIterator
    requires
        c0.yields(Seq::empty()),
        flattened(Seq::empty(), it, q, ended),
    ensures
        flattened(seq![c0], it, q, ended),
{
    let (cs, parts) = choose|cs: Seq<I::Item>, parts: Seq<Seq<<I::Item as LinqIterator>::Item>>|
     #[trigger]
        flattened_by(Seq::empty(), it, cs, parts, q, ended);
    let nothing = Seq::<<I::Item as LinqIterator>::Item>::empty();
    let all0 = seq![c0] + cs;
    let parts2 = seq![nothing] + parts;
    assert(Seq::<I::Item>::empty() + cs =~= cs);
    assert forall|i: int| 0 <= i < all0.len() - 1 implies (#[trigger] all0[i]).yields(
        parts2[i],
    ) by {
        if i > 0 {
            assert(all0[i] == cs[i - 1]);
            assert(parts2[i] == parts[i - 1]);
            assert(cs[i - 1].yields(parts[i - 1]));
        }
    }
    if cs.len() > 0 {
        assert(all0.last() == cs.last());
        assert(parts2.last() == parts.last());
    } else {
        assert(all0.last() == c0);
        assert(parts2.last() == nothing);
    }
    assert(chained(all0, parts2, ended));
    assert(parts2.drop_first() =~= parts);
    assert(parts2.flatten() =~= parts.flatten());
    assert(flattened_by(seq![c0], it, cs, parts2, q, ended));
}

/// Where the cursor of cursors is exhausted and none is at the head, nothing
/// is left.
pub proof fn lemma_flattened_end<I: LinqIterator>(it: I) where I::Item: LinqIterator
    requires
        it.yields(Seq::empty()),
    ensures
        flattened(Seq::empty(), it, Seq::empty(), true),
{
    let cs = Seq::<I::Item>::empty();
    let parts = Seq::<Seq<<I::Item as LinqIterator>::Item>>::empty();
    assert(cs + cs =~= cs);
    assert(flattened_by(Seq::empty(), it, cs, parts, Seq::empty(), true));
}

/// What flattens over a cursor whose sequences are among those of another
/// flattens over the other.
pub proof fn lemma_flattened_over<I: LinqIterator>(
    head: Seq<I::Item>,
    it: I,
    it2: I,
    q: Seq<<I::Item as LinqIterator>::Item>,
    ended: bool,
) where I::Item: LinqIterator
    requires
        forall|p: Seq<I::Item>| #[trigger] it2.begins(p) ==> it.begins(p),
        forall|s: Seq<I::Item>| #[trigger] it2.yields(s) ==> it.yields(s),
        flattened(head, it2, q, ended),
    ensures
        flattened(head, it, q, ended),
{
    let (cs, parts) = choose|cs: Seq<I::Item>, parts: Seq<Seq<<I::Item as LinqIterator>::Item>>|
     #[trigger]
        flattened_by(head, it2, cs, parts, q, ended);
    assert(flattened_by(head, it, cs, parts, q, ended));
}

/// The cursor at the head, as a sequence of one, or of none.
pub open spec fn head_of<C>(current: Option<C>) -> Seq<C> {
    match current {
        Some(c) => seq![c],
        None => Seq::empty(),
    }
}

/// Yields the items of the cursors that the cursor beneath yields, one cursor
/// after the other. A cursor with no items is passed over, however many of them
/// follow one another.
pub struct Flatten<I> where I: LinqIterator {
    iter: I,
    current_sub_iter: Option<I::Item>,
    cap: Ghost<nat>,
}

impl<I> Flatten<I> where I: LinqIterator {
    /// Wraps `iter`. Nothing is pulled until the first pull.
    ///
    /// The cursors that `iter` hands out must be well formed, and there must be
    /// a number that none of them exceeds in length: what is flattened is
    /// finite, as every cursor is.
    pub fn new(iter: I) -> (r: Self) where I::Item: LinqIterator
        requires
            iter.wf(),
            exists|cap: nat| holds_cursors(iter, cap),
        ensures
            r.wf(),
            forall|q: Seq<<I::Item as LinqIterator>::Item>| #[trigger]
                r.begins(q) <==> flattened(Seq::empty(), iter, q, false),
            forall|t: Seq<<I::Item as LinqIterator>::Item>| #[trigger]
                r.yields(t) <==> flattened(Seq::empty(), iter, t, true),
    {
        let cap = Ghost(choose|cap: nat| holds_cursors(iter, cap));
        Self { iter, current_sub_iter: None, cap }
    }
}

impl<I> LinqIterator for Flatten<I> where I: LinqIterator, I::Item: LinqIterator {
    type Item = <I::Item as LinqIterator>::Item;

    closed spec fn wf(&self) -> bool {
        &&& self.iter.wf()
        &&& holds_cursors(self.iter, self.cap@)
        &&& match self.current_sub_iter {
            Some(c) => c.wf() && c.bound() <= self.cap@,
            None => true,
        }
    }

    closed spec fn begins(&self, q: Seq<Self::Item>) -> bool {
        flattened(head_of(self.current_sub_iter), self.iter, q, false)
    }

    closed spec fn yields(&self, t: Seq<Self::Item>) -> bool {
        flattened(head_of(self.current_sub_iter), self.iter, t, true)
    }

    closed spec fn bound(&self) -> nat {
        (match self.current_sub_iter {
            Some(c) => c.bound(),
            None => 0,
        }) + self.iter.bound() * (self.cap@ + 1)
    }

    fn next(&mut self) -> (r: Option<Self::Item>) {
        loop
            invariant
                self.wf(),
                self.bound() <= old(self).bound(),
                forall|q: Seq<Self::Item>| #[trigger] self.begins(q) ==> old(self).begins(q),
                forall|t: Seq<Self::Item>| #[trigger] self.yields(t) ==> old(self).yields(t),
            decreases
                    self.iter.bound(),
                    (if self.current_sub_iter is Some {
                        1int
                    } else {
                        0int
                    }),
        {
            let ghost before = *self;
            let ghost cap = self.cap@;
            let mut cur = match self.current_sub_iter.take() {
                Some(c) => c,
                None => match self.iter.next() {
                    Some(c) => {
                        proof {
                            assert(before.iter.begins(seq![c]));
                            assert(seq![c][0] == c);
                            assert forall|cs: Seq<I::Item>| #[trigger]
                                self.iter.begins(cs) implies forall|i: int|
                                0 <= i < cs.len() ==> (#[trigger] cs[i]).wf() && cs[i].bound()
                                    <= cap by {
                                assert(before.iter.begins(seq![c] + cs));
                                assert forall|i: int| 0 <= i < cs.len() implies (#[trigger] cs[i]).wf()
                                    && cs[i].bound() <= cap by {
                                    assert((seq![c] + cs)[i + 1] == cs[i]);
                                }
                            }
                            assert(c.bound() + self.iter.bound() * (cap + 1) <= before.iter.bound()
                                * (cap + 1)) by (nonlinear_arith)
                                requires
                                    c.bound() <= cap,
                                    self.iter.bound() < before.iter.bound(),
                            ;
                        }
                        c
                    },
                    None => {
                        proof {
                            lemma_flattened_end(before.iter);
                            assert(self.iter.bound() * (cap + 1) == 0) by (nonlinear_arith)
                                requires
                                    self.iter.bound() == 0,
                            ;
                            assert(self.bound() == 0);
                            assert(before.yields(Seq::empty()));
                            assert forall|q: Seq<Self::Item>| #[trigger]
                                self.begins(q) implies old(self).begins(q) by {
                                lemma_flattened_over(Seq::empty(), before.iter, self.iter, q, false);
                                assert(before.begins(q));
                            }
                            assert forall|t: Seq<Self::Item>| #[trigger]
                                self.yields(t) implies old(self).yields(t) by {
                                lemma_flattened_over(Seq::empty(), before.iter, self.iter, t, true);
                                assert(before.yields(t));
                            }
                            assert forall|cs: Seq<I::Item>| #[trigger]
                                self.iter.begins(cs) implies forall|i: int|
                                0 <= i < cs.len() ==> (#[trigger] cs[i]).wf() && cs[i].bound()
                                    <= cap by {
                                assert(before.iter.begins(cs));
                            }
                        }
                        return None;
                    },
                },
            };
            let ghost outer = self.iter;
            let ghost cur0 = cur;
            proof {
                // Whatever the cursor `cur0` at the head and `outer` give, the
                // adapter could give before this turn of the loop.
                assert forall|q: Seq<Self::Item>, ended: bool| #[trigger]
                    flattened(seq![cur0], outer, q, ended) implies flattened(
                    head_of(before.current_sub_iter),
                    before.iter,
                    q,
                    ended,
                ) by {
                    if before.current_sub_iter is None {
                        lemma_flattened_pull(before.iter, cur0, outer, q, ended);
                    }
                }
            }
            match cur.next() {
                Some(x) => {
                    self.current_sub_iter = Some(cur);
                    proof {
                        lemma_flattened_first(outer, cur0, x);
                        assert(before.begins(seq![x]));
                        assert forall|q: Seq<Self::Item>| #[trigger]
                            self.begins(q) implies old(self).begins(seq![x] + q) by {
                            lemma_flattened_item(outer, cur0, x, cur, q, false);
                            assert(before.begins(seq![x] + q));
                        }
                        assert forall|t: Seq<Self::Item>| #[trigger]
                            self.yields(t) implies old(self).yields(seq![x] + t) by {
                            lemma_flattened_item(outer, cur0, x, cur, t, true);
                            assert(before.yields(seq![x] + t));
                        }
                        assert(self.bound() < before.bound());
                    }
                    return Some(x);
                },
                None => {
                    proof {
                        assert forall|q: Seq<Self::Item>| #[trigger]
                            self.begins(q) implies old(self).begins(q) by {
                            lemma_flattened_drop(outer, cur0, q, false);
                            assert(before.begins(q));
                        }
                        assert forall|t: Seq<Self::Item>| #[trigger]
                            self.yields(t) implies old(self).yields(t) by {
                            lemma_flattened_drop(outer, cur0, t, true);
                            assert(before.yields(t));
                        }
                        assert(self.bound() <= before.bound());
                    }
                },
            }
        }
    }
}

/// Over a cursor that is sure to yield the cursors `cs`, each of which is sure
/// to yield its part of `parts`, what is flattened to the end is the parts one
/// after the other: the items of the first cursor, then those of the second,
/// and so on. What is flattened up to any point is the beginning of that.
pub proof fn lemma_flattened_fixed<I: LinqIterator>(
    it: I,
    cs: Seq<I::Item>,
    parts: Seq<Seq<<I::Item as LinqIterator>::Item>>,
    t: Seq<<I::Item as LinqIterator>::Item>,
) where I::Item: LinqIterator
    requires
        fixed(it, cs),
        parts.len() == cs.len(),
        forall|i: int| 0 <= i < cs.len() ==> fixed(#[trigger] cs[i], parts[i]),
    ensures
        flattened(Seq::empty(), it, t, true) <==> t == parts.flatten(),
        flattened(Seq::empty(), it, t, false) ==> t.is_prefix_of(parts.flatten()),
{
    let none = Seq::<I::Item>::empty();
    assert(none + cs =~= cs);
    if flattened(none, it, t, true) {
        let (cs2, parts2) = choose|
            cs2: Seq<I::Item>,
            parts2: Seq<Seq<<I::Item as LinqIterator>::Item>>,
        | #[trigger] flattened_by(none, it, cs2, parts2, t, true);
        assert(cs2 == cs);
        assert forall|i: int| 0 <= i < cs.len() implies parts2[i] == parts[i] by {
            if i < cs.len() - 1 {
                assert((none + cs)[i].yields(parts2[i]));
            } else {
                assert((none + cs).last().yields(parts2.last()));
            }
            assert(fixed(cs[i], parts[i]));
            assert(cs[i].yields(parts2[i]));
        }
        assert(parts2 =~= parts);
    }
    if t == parts.flatten() {
        assert forall|i: int| 0 <= i < cs.len() implies (#[trigger] cs[i]).yields(parts[i]) by {
            assert(fixed(cs[i], parts[i]));
        }
        assert(chained(none + cs, parts, true));
        assert(flattened_by(none, it, cs, parts, t, true));
    }
    if flattened(none, it, t, false) {
        let (cs2, parts2) = choose|
            cs2: Seq<I::Item>,
            parts2: Seq<Seq<<I::Item as LinqIterator>::Item>>,
        | #[trigger] flattened_by(none, it, cs2, parts2, t, false);
        let n = cs2.len() as int;
        assert(none + cs2 =~= cs2);
        if n == 0 {
            assert(parts2 =~= Seq::<Seq<<I::Item as LinqIterator>::Item>>::empty());
            assert(t =~= Seq::<<I::Item as LinqIterator>::Item>::empty());
        } else {
            assert(it.begins(cs2));
            assert(cs2.is_prefix_of(cs));
            assert forall|i: int| 0 <= i < n implies cs2[i] == cs[i] by {
                assert(cs2[i] == cs.subrange(0, n)[i]);
            }
            let whole = parts.take(n - 1);
            let last2 = parts2.last();
            assert forall|i: int| 0 <= i < n - 1 implies parts2[i] == parts[i] by {
                assert(cs2[i].yields(parts2[i]));
                assert(fixed(cs[i], parts[i]));
            }
            assert(last2.is_prefix_of(parts[n - 1])) by {
                assert(fixed(cs[n - 1], parts[n - 1]));
                assert(cs2.last() == cs[n - 1]);
                if last2.len() > 0 {
                    assert(cs2.last().begins(last2));
                }
            }
            assert(parts2 =~= whole + seq![last2]);
            assert(parts =~= whole + seq![parts[n - 1]] + parts.skip(n));
            vstd::seq_lib::lemma_flatten_concat(whole, seq![last2]);
            vstd::seq_lib::lemma_flatten_concat(whole + seq![parts[n - 1]], parts.skip(n));
            vstd::seq_lib::lemma_flatten_concat(whole, seq![parts[n - 1]]);
            seq![last2].lemma_flatten_one_element();
            seq![parts[n - 1]].lemma_flatten_one_element();
            assert(t =~= whole.flatten() + last2);
            assert(parts.flatten() =~= whole.flatten() + parts[n - 1] + parts.skip(n).flatten());
            assert(t.is_prefix_of(parts.flatten()));
        }
    }
}

} // verus!
