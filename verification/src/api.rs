//! Result and error types of the rendering entry point used by mobile bindings.

use vstd::prelude::*;

verus! {

/// Rendering failure, carrying a human-readable message.
#[derive(Debug)]
pub enum PainterlyError {
    Failed { msg: String },
}

impl From<String> for PainterlyError {
    fn from(msg: String) -> (e: Self) {
        PainterlyError::Failed { msg }
    }
}

impl vstd::std_specs::convert::FromSpecImpl<String> for PainterlyError {
    open spec fn obeys_from_spec() -> bool {
        true
    }

    open spec fn from_spec(v: String) -> Self {
        PainterlyError::Failed { msg: v }
    }
}

impl PainterlyError {
    /// The message of the failure.
    pub fn message(&self) -> (m: &String)
        ensures
            self matches PainterlyError::Failed { msg } && m == msg,
    {
        match self {
            PainterlyError::Failed { msg } => msg,
        }
    }
}

/// A finished rendering: the painting encoded as PNG, its size, the number of
/// strokes painted and the wall-clock time taken.
pub struct RenderResult {
    pub png: Vec<u8>,
    pub width: u32,
    pub height: u32,
    pub strokes: u32,
    pub millis: u64,
}

} // verus!
