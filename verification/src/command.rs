//! The command vocabulary and the error taxonomy of the evaluator.

use vstd::prelude::*;

verus! {

/// A movement direction: `forward` moves ahead, `up` and `down` adjust
/// either the depth (simple rule) or the aim (aim-based rule).
#[derive(Clone, Copy, Debug, PartialEq, Eq, Structural)]
pub enum Direction {
    Forward,
    Up,
    Down,
}

/// One parsed command: a direction and a signed magnitude, read from a
/// line of the form `<direction> <magnitude>`.
#[derive(Clone, Copy, Debug, PartialEq, Eq, Structural)]
pub struct Command {
    pub dir: Direction,
    pub val: i32,
}

/// Why an evaluation failed. The first three classify the first bad input
/// line; `Overflow` reports an accumulator or product leaving the `i32`
/// range during evaluation of a well-formed command list.
#[derive(Clone, Copy, Debug, PartialEq, Eq, Structural)]
pub enum CommandError {
    /// A line has no space separating direction from magnitude.
    MissingSeparator,
    /// The text after the separator is not a base-10 integer in `i32` range.
    InvalidMagnitude,
    /// The word before the separator is not `forward`, `up` or `down`.
    UnknownDirection,
    /// An intermediate position value or a final product does not fit in `i32`.
    Overflow,
}

} // verus!
