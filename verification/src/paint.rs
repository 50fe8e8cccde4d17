//! How a brush dab lands on a layer.

use vstd::prelude::*;

verus! {

/// Ink adds colour; erase removes it; alpha-lock paints only where the
/// layer already has coverage.
#[derive(Clone, Copy, PartialEq, Eq, Debug)]
pub enum PaintMode {
    Ink,
    Erase,
    AlphaLock,
}

} // verus!
