//! A submarine trajectory evaluator: parses a newline-separated list of
//! movement commands (`forward`, `up`, `down`, each with an integer
//! magnitude) and folds them into a final position under two rules — a
//! simple cumulative rule and an aim-based rule — or both at once.

pub mod command;
pub mod eval;
pub mod text;
