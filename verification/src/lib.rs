//! A restricted G-code dialect turned into flat motion commands and
//! streamed to a motion controller one command at a time.
//!
//! The parser decodes program text line by line, expanding circular
//! arcs into short linear segments, and the transport session governs
//! the strict write-then-acknowledge handshake.  Coordinates are held
//! exactly as signed counts of thousandths of a coordinate unit, and
//! angles as micro-radians, so every step of the pipeline carries a
//! proved contract.

pub mod arc;
pub mod command;
pub mod num;
pub mod parser;
pub mod session;
pub mod trig;

use vstd::prelude::*;

verus! {

/// One wire-level instruction for the motion controller.
///
/// Coordinates (`X`, `Y`) are exact fixed-point values counted in
/// thousandths of a coordinate unit; integer tags (`N`, `M`, `J`, `K`)
/// are carried verbatim.
#[derive(Clone, Copy, Debug, PartialEq, Eq, Structural)]
pub enum Command {
    G20,
    G21,
    N(i64),
    M(i64),
    J(i64),
    K(i64),
    X(i64),
    Y(i64),
}

} // verus!
