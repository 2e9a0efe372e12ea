//! A control-flow-elimination pass over a tree-shaped compiler IR.
//!
//! Expression trees may contain early-return constructs nested inside
//! sequential blocks and conditionals.  The pass rewrites each tree into a
//! semantically equivalent one without any return construct, using only
//! sequential evaluation, conditionals, synthesized temporaries and small
//! record values that carry "did we return, and with what value" across
//! statement and branch boundaries.

pub mod driver;
pub mod ir;
pub mod laws;
pub mod names;
pub mod pass;

pub use driver::{remove_return, Component, Document};
