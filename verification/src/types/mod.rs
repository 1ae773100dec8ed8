//! Cursors over concrete sources.

pub mod fibonacci;
pub mod vec;
