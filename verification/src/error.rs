//! The ways in which recolouring fails.

use vstd::prelude::*;

verus! {

/// Why an art could not be measured or recoloured. Each failure is
/// deterministic: the same input fails the same way.
#[derive(Clone, Copy, Debug, PartialEq, Eq, Structural)]
pub enum RecolorError {
    /// A slot outside `1..=6` was named.
    InvalidPlaceholder,
    /// Line `line` (counted from 0) needs the slot of an earlier line, and
    /// no earlier line has a placeholder.
    MissingColorState { line: usize },
    /// The gradient could not be spread to the length that the art needs.
    ProfileSpreadFailure,
    /// The art is wider or higher than 255.
    DimensionOverflow,
    /// A custom mapping gives `slot` the palette index `index`, which the
    /// palette lacks.
    InvalidColorIndex { slot: u8, index: u8 },
}

} // verus!
