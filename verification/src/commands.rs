//! Commands sent to the dome output.

use vstd::prelude::*;

use crate::color::Rgb;

verus! {

/// One command in a dome command stream.
#[derive(Clone, Debug, PartialEq, Eq)]
pub enum DomeCommand {
    /// Set one logical LED of one strut.
    Pixel {
        /// Strut index.
        strut_index: usize,
        /// LED index along the strut.
        led_index: usize,
        /// New color.
        color: Rgb,
    },
    /// Replace the whole frame buffer.
    Frame(Vec<Rgb>),
    /// Show what was written since the previous flush.
    Flush,
}

} // verus!
