//! Output settings of a render.
use vstd::prelude::*;

verus! {

/// Where and how large the rendered image is: `file` names the output,
/// `width` and `height` are in pixels, and the window shows each pixel
/// `scale` times larger.
pub struct OutputConfig {
    pub file: String,
    pub width: u32,
    pub height: u32,
    pub scale: u32,
}

} // verus!
