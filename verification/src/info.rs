//! What is known of a decoded image.

use vstd::prelude::*;

verus! {

/// Description of a successfully decoded QOI image.
///
/// The channel count is taken from the image header and is either 3 (RGB) or
/// 4 (RGBA).
#[derive(Debug, Clone, Copy, PartialEq, Eq, Structural)]
pub struct ImageInfo {
    /// Image width in pixels.
    pub width: u32,
    /// Image height in pixels.
    pub height: u32,
    /// Channel count from the header: 3 for RGB, 4 for RGBA.
    pub channels: u8,
    /// Colorspace from the header: 0 = sRGB with linear alpha, 1 = all linear.
    pub colorspace: u8,
    /// Number of bytes written into the output buffer
    /// (`width * height * channels`).
    pub output_bytes: usize,
}

impl ImageInfo {
    /// Returns true when the image uses 3 channels (RGB).
    #[verifier::allow_in_spec]
    pub fn is_rgb(&self) -> (yes: bool)
        ensures
            yes == (self.channels == 3),
        returns
            self.channels == 3,
    {
        self.channels == 3
    }

    /// Returns true when the image uses 4 channels (RGBA).
    #[verifier::allow_in_spec]
    pub fn is_rgba(&self) -> (yes: bool)
        ensures
            yes == (self.channels == 4),
        returns
            self.channels == 4,
    {
        self.channels == 4
    }
}

} // verus!
