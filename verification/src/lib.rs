//! Lazy, composable sequence pipelines over single-pass cursors.
//!
//! A cursor hands out one item per pull. Adapters wrap a cursor and transform
//! what it yields: mapping, filtering, bounding, flattening, sorting and
//! grouping. A pipeline is built by wrapping; no item moves until something
//! pulls at its outer end.
//!
//! Every cursor says which sequences of items it may hand out, and each adapter
//! states its own sequences in terms of those of the cursor beneath it and of
//! what the functions it was given may return. A cursor over fixed data may
//! hand out one sequence only; so may any pipeline over it whose functions give
//! one result on each argument.

pub mod linq;
pub mod types;
