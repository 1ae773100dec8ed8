//! The cursor trait, its adapters, and the mathematics their contracts rest on.
//!
//! `iterator` holds the trait and the adapters that pull through; `flatten`,
//! `order_by` and `group_by` hold one adapter each. `chain` offers the adapters
//! as methods of every cursor. `calls` says what function values give, `order`
//! how keys compare, `sorting` and `grouping` what sorted and grouped mean.

pub mod calls;
pub mod chain;
pub mod flatten;
pub mod group_by;
pub mod grouping;
pub mod into_iterator;
pub mod iterator;
pub mod order;
pub mod order_by;
pub mod sorting;
