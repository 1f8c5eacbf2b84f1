//! The six kinds of chunk that the pixels of an image are encoded in: how they
//! are written as bytes, how they are read back, and the pixel that each gives.

use crate::error::Error;
use crate::pixel::Pixel;
use crate::reader::Reader;
use vstd::prelude::*;

verus! {

/// First byte of the lowest [`Chunk::Index`].
pub const QOI_OP_INDEX: u8 = 0x00;

/// First byte of the lowest [`Chunk::Diff`].
pub const QOI_OP_DIFF: u8 = 0x40;

/// First byte of the lowest [`Chunk::Luma`].
pub const QOI_OP_LUMA: u8 = 0x80;

/// First byte of the shortest [`Chunk::Run`].
pub const QOI_OP_RUN: u8 = 0xC0;

/// First byte of a [`Chunk::Rgb`].
pub const QOI_OP_RGB: u8 = 0xFE;

/// First byte of a [`Chunk::Rgba`].
pub const QOI_OP_RGBA: u8 = 0xFF;

/// The longest run that one chunk can hold. The two first bytes of longer runs
/// are those of [`Chunk::Rgb`] and [`Chunk::Rgba`].
pub const LONGEST_RUN: u8 = 62;

/// One chunk of the encoded stream.
#[derive(Debug, Clone, Copy, PartialEq, Eq, Structural)]
pub enum Chunk {
    /// A pixel given in full, but for its alpha.
    Rgb { r: u8, g: u8, b: u8 },
    /// A pixel given in full.
    Rgba { r: u8, g: u8, b: u8, a: u8 },
    /// The pixel in a slot of the table of recent pixels.
    Index { slot: u8 },
    /// A pixel that differs by at most two from the previous one.
    Diff { dr: i8, dg: i8, db: i8 },
    /// A pixel given by how far its green moved, and how far red and blue moved
    /// beyond that.
    Luma { dg: i8, dr_dg: i8, db_dg: i8 },
    /// The previous pixel, a number of times.
    Run { len: u8 },
}

/// `x` moved by `d`, modulo 256.
pub open spec fn moved(x: u8, d: int) -> u8 {
    ((x + d) % 256) as u8
}

impl Chunk {
    /// Every field is one that the encoding has room for.
    pub open spec fn wf(self) -> bool {
        match self {
            Chunk::Rgb { .. } => true,
            Chunk::Rgba { .. } => true,
            Chunk::Index { slot } => slot < 64,
            Chunk::Diff { dr, dg, db } => -2 <= dr < 2 && -2 <= dg < 2 && -2 <= db < 2,
            Chunk::Luma { dg, dr_dg, db_dg } => {
                -32 <= dg < 32 && -8 <= dr_dg < 8 && -8 <= db_dg < 8
            },
            Chunk::Run { len } => 1 <= len <= LONGEST_RUN,
        }
    }

    /// This chunk as bytes.
    pub open spec fn bytes(self) -> Seq<u8> {
        match self {
            Chunk::Rgb { r, g, b } => seq![QOI_OP_RGB, r, g, b],
            Chunk::Rgba { r, g, b, a } => seq![QOI_OP_RGBA, r, g, b, a],
            Chunk::Index { slot } => seq![(QOI_OP_INDEX + slot) as u8],
            Chunk::Diff { dr, dg, db } => seq![
                (QOI_OP_DIFF + 16 * (dr + 2) + 4 * (dg + 2) + (db + 2)) as u8,
            ],
            Chunk::Luma { dg, dr_dg, db_dg } => seq![
                (QOI_OP_LUMA + (dg + 32)) as u8,
                (16 * (dr_dg + 8) + (db_dg + 8)) as u8,
            ],
            Chunk::Run { len } => seq![(QOI_OP_RUN + (len - 1)) as u8],
        }
    }

    /// How many pixels this chunk gives.
    pub open spec fn count(self) -> nat {
        match self {
            Chunk::Run { len } => len as nat,
            _ => 1,
        }
    }

    /// The pixel that this chunk gives, after the pixel `px` and with `table`
    /// as the table of recent pixels.
    pub open spec fn pixel(self, px: Pixel, table: Seq<Pixel>) -> Pixel {
        match self {
            Chunk::Rgb { r, g, b } => Pixel { r, g, b, a: px.a },
            Chunk::Rgba { r, g, b, a } => Pixel { r, g, b, a },
            Chunk::Index { slot } => table[slot as int],
            Chunk::Diff { dr, dg, db } => Pixel {
                r: moved(px.r, dr as int),
                g: moved(px.g, dg as int),
                b: moved(px.b, db as int),
                a: px.a,
            },
            Chunk::Luma { dg, dr_dg, db_dg } => Pixel {
                r: moved(px.r, dg + dr_dg),
                g: moved(px.g, dg as int),
                b: moved(px.b, dg + db_dg),
                a: px.a,
            },
            Chunk::Run { .. } => px,
        }
    }
}

/// The chunk that `bytes` begins with, or `None` where it ends inside one.
pub open spec fn first_chunk(bytes: Seq<u8>) -> Option<Chunk> {
    if bytes.len() == 0 {
        None
    } else if bytes[0] == QOI_OP_RGB {
        if bytes.len() < 4 {
            None
        } else {
            Some(Chunk::Rgb { r: bytes[1], g: bytes[2], b: bytes[3] })
        }
    } else if bytes[0] == QOI_OP_RGBA {
        if bytes.len() < 5 {
            None
        } else {
            Some(Chunk::Rgba { r: bytes[1], g: bytes[2], b: bytes[3], a: bytes[4] })
        }
    } else if bytes[0] < QOI_OP_DIFF {
        Some(Chunk::Index { slot: bytes[0] })
    } else if bytes[0] < QOI_OP_LUMA {
        Some(
            Chunk::Diff {
                dr: (bytes[0] / 16 % 4 - 2) as i8,
                dg: (bytes[0] / 4 % 4 - 2) as i8,
                db: (bytes[0] % 4 - 2) as i8,
            },
        )
    } else if bytes[0] < QOI_OP_RUN {
        if bytes.len() < 2 {
            None
        } else {
            Some(
                Chunk::Luma {
                    dg: (bytes[0] % 64 - 32) as i8,
                    dr_dg: (bytes[1] / 16 - 8) as i8,
                    db_dg: (bytes[1] % 16 - 8) as i8,
                },
            )
        }
    } else {
        Some(Chunk::Run { len: (bytes[0] % 64 + 1) as u8 })
    }
}

/// The bit fields of a byte, as quotients and remainders.
proof fn lemma_fields(b: u8)
    ensures
        (b >> 4) & 3 == b / 16 % 4,
        (b >> 2) & 3 == b / 4 % 4,
        b & 3 == b % 4,
        b & 63 == b % 64,
        b >> 4 == b / 16,
        b & 15 == b % 16,
{
    assert((b >> 4) & 3 == b / 16 % 4) by (bit_vector);
    assert((b >> 2) & 3 == b / 4 % 4) by (bit_vector);
    assert(b & 3 == b % 4) by (bit_vector);
    assert(b & 63 == b % 64) by (bit_vector);
    assert(b >> 4 == b / 16) by (bit_vector);
    assert(b & 15 == b % 16) by (bit_vector);
}

/// Reads the next chunk. Where the input ends inside it, everything that is
/// left is passed over.
pub(crate) fn read_chunk(reader: &mut Reader) -> (result: Result<Chunk, Error>)
    requires
        old(reader).wf(),
    ensures
        first_chunk(old(reader).rest()) matches Some(chunk) ==> {
            &&& result == Ok::<Chunk, Error>(chunk)
            &&& chunk.wf()
            &&& old(reader).advanced(chunk.bytes().len() as int, *final(reader))
        },
        first_chunk(old(reader).rest()) is None ==> {
            &&& result == Err::<Chunk, Error>(Error::TruncatedInput)
            &&& old(reader).advanced(old(reader).rest().len() as int, *final(reader))
        },
{
    let byte = reader.read_u8()?;
    proof {
        lemma_fields(byte);
    }
    if byte == QOI_OP_RGB {
        let r = reader.read_u8()?;
        let g = reader.read_u8()?;
        let b = reader.read_u8()?;
        Ok(Chunk::Rgb { r, g, b })
    } else if byte == QOI_OP_RGBA {
        let r = reader.read_u8()?;
        let g = reader.read_u8()?;
        let b = reader.read_u8()?;
        let a = reader.read_u8()?;
        Ok(Chunk::Rgba { r, g, b, a })
    } else if byte < QOI_OP_DIFF {
        Ok(Chunk::Index { slot: byte })
    } else if byte < QOI_OP_LUMA {
        let dr: i8 = ((byte >> 4) & 0x03) as i8 - 2;
        let dg: i8 = ((byte >> 2) & 0x03) as i8 - 2;
        let db: i8 = (byte & 0x03) as i8 - 2;
        Ok(Chunk::Diff { dr, dg, db })
    } else if byte < QOI_OP_RUN {
        let byte2 = reader.read_u8()?;
        proof {
            lemma_fields(byte2);
        }
        let dg: i8 = (byte & 0x3F) as i8 - 32;
        let dr_dg: i8 = (byte2 >> 4) as i8 - 8;
        let db_dg: i8 = (byte2 & 0x0F) as i8 - 8;
        Ok(Chunk::Luma { dg, dr_dg, db_dg })
    } else {
        Ok(Chunk::Run { len: (byte & 0x3F) + 1 })
    }
}

/// `x` moved by `d`, modulo 256.
fn shift(x: u8, d: i8) -> (y: u8)
    ensures
        y == moved(x, d as int),
{
    x.wrapping_add_signed(d)
}

impl Chunk {
    /// The pixel that this chunk gives, after the pixel `px` and with `table`
    /// as the table of recent pixels.
    pub(crate) fn apply(self, px: Pixel, table: &[Pixel; 64]) -> (next: Pixel)
        requires
            self.wf(),
        ensures
            next == self.pixel(px, table@),
    {
        match self {
            Chunk::Rgb { r, g, b } => Pixel { r, g, b, a: px.a },
            Chunk::Rgba { r, g, b, a } => Pixel { r, g, b, a },
            Chunk::Index { slot } => table[slot as usize],
            Chunk::Diff { dr, dg, db } => Pixel {
                r: shift(px.r, dr),
                g: shift(px.g, dg),
                b: shift(px.b, db),
                a: px.a,
            },
            Chunk::Luma { dg, dr_dg, db_dg } => Pixel {
                r: shift(px.r, dg + dr_dg),
                g: shift(px.g, dg),
                b: shift(px.b, dg + db_dg),
                a: px.a,
            },
            Chunk::Run { .. } => px,
        }
    }

    /// How many pixels this chunk gives.
    pub(crate) fn run(self) -> (n: u64)
        ensures
            n == self.count(),
    {
        match self {
            Chunk::Run { len } => len as u64,
            _ => 1,
        }
    }
}

} // verus!
