//! The engine's one error.

use vstd::prelude::*;

verus! {

/// A board mutation produced a state with no legal completion. This is an
/// expected outcome during search and generation: the caller backtracks or
/// restores the previous state.
#[derive(Clone, Copy, PartialEq, Eq, Structural, Debug)]
pub struct Unsolvable;

} // verus!
