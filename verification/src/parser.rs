//! The Earley parser's states.

pub mod state;
