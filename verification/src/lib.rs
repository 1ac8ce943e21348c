//! Painterly rendering: the integer image logic of a flow-guided stroke painter,
//! specified and verified.

pub mod api;
pub mod brushes;
pub mod buf;
pub mod color;
pub mod palette;
pub mod pipeline;
pub mod strokes;
