//! An in-memory virtual filesystem driven by a small line-oriented command
//! language (CREATE, LIST, MOVE, DELETE).
//!
//! The library is split into:
//! - [`scan`]: splitting text into whitespace-separated tokens and
//!   slash-separated path segments;
//! - [`parser`]: the command grammar;
//! - [`tree`]: the directory tree and its structural operations;
//! - [`render`]: the indented-outline listing;
//! - [`engine`]: the engine that applies commands to a tree, and the
//!   classifier that turns failures into user-facing diagnostics.

use vstd::prelude::*;

pub mod engine;
pub mod parser;
pub mod render;
pub mod scan;
pub mod tree;

verus! {

} // verus!
