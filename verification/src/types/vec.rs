//! A cursor over the items of a vector.

use crate::linq::into_iterator::LinqIntoIterator;
use crate::linq::iterator::LinqIterator;
use std::collections::VecDeque;
use vstd::prelude::*;

verus! {

/// Yields the items of a vector, front to back.
#[derive(Debug)]
pub struct VecIterator<T> {
    data: VecDeque<T>,
}

impl<T> VecIterator<T> {
    /// The items still to come.
    pub closed spec fn items(&self) -> Seq<T> {
        self.data@
    }
}

impl<T> LinqIterator for VecIterator<T> {
    type Item = T;

    closed spec fn wf(&self) -> bool {
        true
    }

    closed spec fn begins(&self, p: Seq<T>) -> bool {
        p.is_prefix_of(self.data@)
    }

    closed spec fn yields(&self, s: Seq<T>) -> bool {
        s == self.data@
    }

    closed spec fn bound(&self) -> nat {
        self.data@.len()
    }

    fn next(&mut self) -> (r: Option<T>)
        ensures
            match r {
                Some(x) => {
                    &&& old(self).items().len() > 0
                    &&& x == old(self).items()[0]
                    &&& final(self).items() == old(self).items().skip(1)
                },
                None => {
                    &&& old(self).items().len() == 0
                    &&& final(self).items() == old(self).items()
                },
            },
    {
        let r = self.data.pop_front();
        proof {
            let all = old(self).data@;
            let rest = self.data@;
            if r is Some {
                let x = r.unwrap();
                assert(rest =~= all.skip(1));
                assert(seq![x] + rest =~= all);
                assert(seq![x].is_prefix_of(all));
                assert forall|p: Seq<T>| #[trigger] self.begins(p) implies old(self).begins(
                    seq![x] + p,
                ) by {
                    assert((seq![x] + p).is_prefix_of(all));
                }
                assert(self.bound() < old(self).bound());
            } else {
                assert(self.bound() == 0);
                assert(all =~= Seq::<T>::empty());
                assert(old(self).yields(Seq::empty()));
            }
        }
        r
    }
}

impl<T> LinqIntoIterator for Vec<T> {
    type Item = T;

    type IteratorType = VecIterator<T>;

    open spec fn items(&self) -> Seq<T> {
        self@
    }

    fn into_linq_iter(self) -> (r: VecIterator<T>)
        ensures
            r.items() == self@,
    {
        let mut rest = self;
        let mut data: VecDeque<T> = VecDeque::new();
        loop
            invariant
                rest@ + data@ == self@,
            ensures
                data@ == self@,
            decreases rest.len(),
        {
            match rest.pop() {
                Some(x) => {
                    data.push_front(x);
                    proof {
                        assert(rest@ + data@ =~= self@);
                    }
                },
                None => {
                    proof {
                        assert(rest@ + data@ =~= data@);
                    }
                    break ;
                },
            }
        }
        let r = VecIterator { data };
        proof {
            assert(r.bound() == self@.len());
            assert forall|s: Seq<T>| #[trigger] r.yields(s) <==> s == self@ by {}
            assert forall|p: Seq<T>| #[trigger] r.begins(p) <==> p.is_prefix_of(self@) by {}
        }
        r
    }
}

} // verus!
