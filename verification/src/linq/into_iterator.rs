//! Turning an owned container into a cursor.

use crate::linq::iterator::{fixed, LinqIterator};
use vstd::prelude::*;

verus! {

/// A container that can be consumed into a cursor over its items.
pub trait LinqIntoIterator: Sized {
    type Item;

    type IteratorType: LinqIterator<Item = Self::Item>;

    /// The items of the container, in its order.
    spec fn items(&self) -> Seq<Self::Item>;

    /// Consumes the container. The cursor yields each item once, in the
    /// container's order.
    fn into_linq_iter(self) -> (r: Self::IteratorType)
        ensures
            r.wf(),
            fixed(r, self.items()),
            r.bound() == self.items().len(),
    ;
}

} // verus!
