//! Building a pipeline by chaining adapters onto a cursor.

use crate::linq::calls::{filtered, mapped};
use crate::linq::flatten::{flattened, holds_cursors, Flatten};
use crate::linq::group_by::{grouped_begins, grouped_yields, GroupBy};
use crate::linq::iterator::{
    bounded_begins, bounded_yields, maps_all, reads_all, LinqIterator, Select, Take, Where,
};
use crate::linq::order::total_order;
use crate::linq::order_by::{sorted_begins, sorted_yields, OrderBy};
use vstd::prelude::*;

verus! {

/// The adapters as methods of every cursor. Each method consumes the cursor and
/// gives the adapter that wraps it; none of them pulls an item.
pub trait LinqChain: LinqIterator {
    /// Maps each item by `func`.
    fn select<Output, Func: Fn(Self::Item) -> Output>(self, func: Func) -> (r: Select<Self, Func>)
        requires
            self.wf(),
            maps_all(self, func),
        ensures
            r.wf(),
            r.bound() == self.bound(),
            forall|q: Seq<Output>| #[trigger]
                r.begins(q) <==> exists|p: Seq<Self::Item>| #[trigger]
                    self.begins(p) && mapped(func, p, q),
            forall|t: Seq<Output>| #[trigger]
                r.yields(t) <==> exists|s: Seq<Self::Item>| #[trigger]
                    self.yields(s) && mapped(func, s, t),
    {
        Select::new(self, func)
    }

    /// Keeps the items on which `pred` gives `true`.
    fn where_linq<Pred: Fn(&Self::Item) -> bool>(self, pred: Pred) -> (r: Where<Self, Pred>)
        requires
            self.wf(),
            reads_all(self, pred),
        ensures
            r.wf(),
            r.bound() == self.bound(),
            forall|q: Seq<Self::Item>| #[trigger]
                r.begins(q) <==> exists|p: Seq<Self::Item>| #[trigger]
                    self.begins(p) && filtered(pred, p, q),
            forall|t: Seq<Self::Item>| #[trigger]
                r.yields(t) <==> exists|s: Seq<Self::Item>| #[trigger]
                    self.yields(s) && filtered(pred, s, t),
    {
        Where::new(self, pred)
    }

    /// Keeps the first `k` items.
    fn take(self, k: usize) -> (r: Take<Self>)
        requires
            self.wf(),
        ensures
            r.wf(),
            r.source() == self,
            r.emitted() == 0,
            r.limit() == k,
            r.bound() <= k,
            r.bound() <= self.bound(),
            forall|p: Seq<Self::Item>| #[trigger] r.begins(p) <==> bounded_begins(self, k as int, p),
            forall|t: Seq<Self::Item>| #[trigger] r.yields(t) <==> bounded_yields(self, k as int, t),
    {
        Take::new(self, k)
    }

    /// Yields the items of the cursors that this cursor yields, one cursor after
    /// the other.
    fn flatten(self) -> (r: Flatten<Self>) where Self::Item: LinqIterator
        requires
            self.wf(),
            exists|cap: nat| holds_cursors(self, cap),
        ensures
            r.wf(),
            forall|q: Seq<<Self::Item as LinqIterator>::Item>| #[trigger]
                r.begins(q) <==> flattened(Seq::empty(), self, q, false),
            forall|t: Seq<<Self::Item as LinqIterator>::Item>| #[trigger]
                r.yields(t) <==> flattened(Seq::empty(), self, t, true),
    {
        Flatten::new(self)
    }

    /// Sorts the items by their keys, ascending and stable.
    fn order_by<K: Ord, F: Fn(&Self::Item) -> K>(self, key: F) -> (r: OrderBy<Self, F>)
        requires
            self.wf(),
            total_order::<K>(),
            reads_all(self, key),
        ensures
            r.wf(),
            !r.materialized(),
            r.buffered() == Seq::<Self::Item>::empty(),
            r.source() == self,
            r.key_function() == key,
            r.bound() == self.bound(),
            forall|p: Seq<Self::Item>| #[trigger] r.begins(p) <==> sorted_begins(self, key, p),
            forall|t: Seq<Self::Item>| #[trigger] r.yields(t) <==> sorted_yields(self, key, t),
    {
        OrderBy::new(self, key)
    }

    /// Groups the items by their keys, the groups in ascending order of the
    /// keys.
    fn group_by<F: Fn(&Self::Item) -> K, K: Ord>(self, key: F) -> (r: GroupBy<Self, F, K>)
        requires
            self.wf(),
            total_order::<K>(),
            reads_all(self, key),
        ensures
            r.wf(),
            !r.materialized(),
            r.buffered() == Seq::<(K, Vec<Self::Item>)>::empty(),
            r.source() == self,
            r.key_function() == key,
            r.bound() == self.bound(),
            forall|p: Seq<(K, Vec<Self::Item>)>| #[trigger]
                r.begins(p) <==> grouped_begins(self, key, p),
            forall|g: Seq<(K, Vec<Self::Item>)>| #[trigger]
                r.yields(g) <==> grouped_yields(self, key, g),
    {
        GroupBy::new(self, key)
    }
}

impl<I: LinqIterator> LinqChain for I {

}

} // verus!
