//! An interactive fuzzy selector library: a pure matching engine that ranks
//! candidate lines against an incrementally typed query, and a terminal
//! session state machine that consumes decoded key events and produces
//! render instructions. All terminal I/O lives outside this crate; the
//! library computes, and its callers perform the reads and writes.
use vstd::prelude::*;

pub mod controller;
pub mod matching;
pub mod render;
pub mod text;

verus! {

} // verus!
