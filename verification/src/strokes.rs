//! Stroke classification.

use vstd::prelude::*;

verus! {

/// Brush tier of a stroke: hard (contours, dense areas), standard, soft (broad areas).
#[derive(Clone, Copy, PartialEq, Eq, Debug, Structural)]
pub enum Tag {
    Hard,
    Standard,
    Soft,
}

} // verus!
