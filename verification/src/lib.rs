//! A decoder for the [QOI image format], with its behaviour proved.
//!
//! # Usage
//!
//! The caller owns the output buffer. [`decode`] writes tightly packed RGB
//! (`RGBRGBRGB...`) or RGBA (`RGBARGBARGBA...`) bytes into it and allocates
//! nothing. The image header declares `width`, `height` and a channel count of
//! 3 or 4, so a buffer of `width * height * channels` bytes is required. If the
//! buffer is too small, [`Error::OutputTooSmall`] is returned.
//!
//! ```
//! let image: &[u8] = &[
//!     b'q', b'o', b'i', b'f',
//!     0, 0, 0, 1,
//!     0, 0, 0, 1,
//!     3,
//!     0,
//!     0xFE, 255, 0, 0,
//!     0, 0, 0, 0, 0, 0, 0, 1,
//! ];
//!
//! let mut pixels = [0u8; 1 * 1 * 3];
//! let info = qoi::decode(image, &mut pixels)?;
//!
//! assert_eq!(info.width, 1);
//! assert_eq!(info.height, 1);
//! assert_eq!(info.channels, 3);
//! assert_eq!(pixels, [255, 0, 0]);
//! # Ok::<(), qoi::Error>(())
//! ```
//!
//! # What is stated
//!
//! An image is a [`header`], a [`stream`] of [`chunk`]s and an end marker. The
//! contract of [`decode`] says what is returned and what is written, for every
//! input and every buffer. [`byte_laws`] say what each chunk adds to the output,
//! byte for byte, and how an image begins and ends. [`format_laws`] and
//! [`decode_laws`] say what follows for images as a whole.
//!
//! [QOI image format]: https://qoiformat.org/

pub mod byte_laws;
pub mod chunk;
pub mod decode_laws;
pub mod decoder;
pub mod error;
pub mod format_laws;
pub mod header;
pub mod info;
pub mod pixel;
pub mod reader;
pub mod stream;

pub use crate::chunk::Chunk;
pub use crate::decoder::decode;
pub use crate::error::Error;
pub use crate::info::ImageInfo;
pub use crate::pixel::Pixel;
