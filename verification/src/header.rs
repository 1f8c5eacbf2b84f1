//! The fourteen bytes that an image begins with.

use crate::error::Error;
use crate::reader::{be_u32, Reader};
use vstd::prelude::*;

verus! {

/// "qoif", read as a number with the most significant byte first.
pub const QOI_MAGIC: u32 = 0x716F_6966;

/// How many bytes the header takes.
pub const HEADER_SIZE: usize = 14;

/// The four bytes that every image begins with: "qoif" in ASCII.
pub open spec fn magic() -> Seq<u8> {
    seq![0x71, 0x6F, 0x69, 0x66]
}

/// `n` as four bytes, most significant byte first.
pub open spec fn be_bytes(n: u32) -> Seq<u8> {
    seq![
        (n / 0x100_0000) as u8,
        (n / 0x1_0000 % 0x100) as u8,
        (n / 0x100 % 0x100) as u8,
        (n % 0x100) as u8,
    ]
}

/// What the header of an image declares.
#[derive(Debug, Clone, Copy, PartialEq, Eq, Structural)]
pub struct Header {
    /// Image width in pixels.
    pub width: u32,
    /// Image height in pixels.
    pub height: u32,
    /// Channel count: 3 for RGB, 4 for RGBA.
    pub channels: u8,
    /// Colorspace: 0 = sRGB with linear alpha, 1 = all linear.
    pub colorspace: u8,
}

impl Header {
    /// The header declares an image that the format has room for.
    pub open spec fn wf(self) -> bool {
        &&& self.width > 0
        &&& self.height > 0
        &&& self.channels == 3 || self.channels == 4
        &&& self.colorspace <= 1
    }

    /// How many pixels the image has.
    pub open spec fn pixel_count(self) -> nat {
        self.width as nat * self.height as nat
    }

    /// How many bytes the decoded image takes.
    pub open spec fn image_size(self) -> nat {
        self.pixel_count() * self.channels as nat
    }

    /// This header as bytes.
    pub open spec fn bytes(self) -> Seq<u8> {
        magic() + be_bytes(self.width) + be_bytes(self.height) + seq![
            self.channels,
            self.colorspace,
        ]
    }
}

/// The fields that stand behind the magic bytes, whatever they are.
pub open spec fn header_fields(input: Seq<u8>) -> Header
    recommends
        input.len() >= HEADER_SIZE,
{
    Header {
        width: be_u32(input.subrange(4, 8)) as u32,
        height: be_u32(input.subrange(8, 12)) as u32,
        channels: input[12],
        colorspace: input[13],
    }
}

/// The header that `input` begins with, or why it has none.
pub open spec fn parse_header(input: Seq<u8>) -> Result<Header, Error> {
    let header = header_fields(input);
    if input.len() < 4 {
        Err(Error::TruncatedInput)
    } else if input.take(4) != magic() {
        Err(Error::InvalidMagic)
    } else if input.len() < HEADER_SIZE {
        Err(Error::TruncatedInput)
    } else if header.width == 0 || header.height == 0 {
        Err(Error::InvalidDimensions)
    } else if header.channels != 3 && header.channels != 4 {
        Err(Error::InvalidChannelCount(header.channels))
    } else if header.colorspace > 1 {
        Err(Error::InvalidColorSpace(header.colorspace))
    } else {
        Ok(header)
    }
}

/// Reads the header off the front of an input.
pub(crate) fn read_header(reader: &mut Reader) -> (result: Result<Header, Error>)
    requires
        old(reader).wf(),
        old(reader).pos == 0,
    ensures
        result == parse_header(old(reader).bytes@),
        final(reader).bytes == old(reader).bytes,
        result is Ok ==> old(reader).advanced(HEADER_SIZE as int, *final(reader)),
{
    let ghost input = reader.bytes@;
    assert(input.skip(0) =~= input);
    let magic_number = reader.read_u32_be()?;
    if magic_number != QOI_MAGIC {
        return Err(Error::InvalidMagic);
    }
    assert(input.take(4) =~= magic());
    let width = reader.read_u32_be()?;
    assert(input.skip(4).take(4) =~= input.subrange(4, 8));
    let height = reader.read_u32_be()?;
    assert(input.skip(8).take(4) =~= input.subrange(8, 12));
    let channels = reader.read_u8()?;
    let colorspace = reader.read_u8()?;
    if width == 0 || height == 0 {
        return Err(Error::InvalidDimensions);
    }
    if channels != 3 && channels != 4 {
        return Err(Error::InvalidChannelCount(channels));
    }
    if colorspace > 1 {
        return Err(Error::InvalidColorSpace(colorspace));
    }
    Ok(Header { width, height, channels, colorspace })
}

} // verus!
