//! Pixels, their slot in the table of recent pixels, and how they are laid out
//! in an output buffer.

use vstd::prelude::*;

verus! {

/// One pixel, with its alpha.
#[derive(Debug, Clone, Copy, PartialEq, Eq, Structural)]
pub struct Pixel {
    /// Red.
    pub r: u8,
    /// Green.
    pub g: u8,
    /// Blue.
    pub b: u8,
    /// Alpha.
    pub a: u8,
}

impl Pixel {
    /// What every slot of the table holds before the first chunk.
    #[verifier::allow_in_spec]
    pub fn zero() -> Pixel
        returns
            (Pixel { r: 0, g: 0, b: 0, a: 0 }),
    {
        Pixel { r: 0, g: 0, b: 0, a: 0 }
    }

    /// The pixel that the first chunk starts from: opaque black.
    #[verifier::allow_in_spec]
    pub fn first() -> Pixel
        returns
            (Pixel { r: 0, g: 0, b: 0, a: 255 }),
    {
        Pixel { r: 0, g: 0, b: 0, a: 255 }
    }

    /// The slot of the 64 slot table that this pixel is kept in.
    pub open spec fn slot(self) -> int {
        (3 * self.r + 5 * self.g + 7 * self.b + 11 * self.a) % 64
    }

    /// Component `i` of this pixel, in the order red, green, blue, alpha.
    pub open spec fn component(self, i: int) -> u8 {
        if i == 0 {
            self.r
        } else if i == 1 {
            self.g
        } else if i == 2 {
            self.b
        } else {
            self.a
        }
    }

    /// The first `channels` components of this pixel.
    pub open spec fn bytes(self, channels: nat) -> Seq<u8> {
        Seq::new(channels, |i: int| self.component(i))
    }
}

/// `pixels` laid out one after the other, `channels` bytes each: byte `k` is
/// component `k % channels` of pixel `k / channels`.
pub open spec fn packed(pixels: Seq<Pixel>, channels: nat) -> Seq<u8> {
    Seq::new(
        pixels.len() * channels,
        |k: int| pixels[k / channels as int].component(k % channels as int),
    )
}

/// Pixels are laid out independently of those before and behind them.
pub(crate) proof fn lemma_packed_add(first: Seq<Pixel>, second: Seq<Pixel>, channels: nat)
    requires
        channels == 3 || channels == 4,
    ensures
        packed(first + second, channels) == packed(first, channels) + packed(second, channels),
{
    if channels == 3 {
        assert(packed(first + second, 3) =~= packed(first, 3) + packed(second, 3));
    } else {
        assert(packed(first + second, 4) =~= packed(first, 4) + packed(second, 4));
    }
}

/// One pixel is laid out as its own bytes.
pub(crate) proof fn lemma_packed_one(px: Pixel, channels: nat)
    requires
        channels == 3 || channels == 4,
    ensures
        packed(seq![px], channels) == px.bytes(channels),
{
    if channels == 3 {
        assert(packed(seq![px], 3) =~= px.bytes(3));
    } else {
        assert(packed(seq![px], 4) =~= px.bytes(4));
    }
}

/// The slot of the table that `px` is kept in.
pub(crate) fn index_pos(px: &Pixel) -> (pos: usize)
    ensures
        pos == px.slot(),
{
    let hash: u32 = px.r as u32 * 3 + px.g as u32 * 5 + px.b as u32 * 7 + px.a as u32 * 11;
    let pos: usize = hash as usize & 63;
    assert(pos == hash as usize % 64) by {
        let h: usize = hash as usize;
        assert(h & 63 == h % 64) by (bit_vector);
    }
    pos
}

/// Writes the first `channels` components of `px` at `pos`.
pub(crate) fn write_pixel(out: &mut [u8], pos: usize, px: &Pixel, channels: usize)
    requires
        channels == 3 || channels == 4,
        pos + channels <= old(out)@.len(),
    ensures
        final(out)@ == old(out)@.take(pos as int) + px.bytes(channels as nat) + old(out)@.skip(
            pos + channels,
        ),
{
    out[pos] = px.r;
    out[pos + 1] = px.g;
    out[pos + 2] = px.b;
    if channels == 4 {
        out[pos + 3] = px.a;
    }
    assert(out@ =~= old(out)@.take(pos as int) + px.bytes(channels as nat) + old(out)@.skip(
        pos + channels,
    ));
}

} // verus!
