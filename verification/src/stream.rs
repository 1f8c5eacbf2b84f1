//! The encoded stream as a whole: the chunks that it is made of, and the pixels
//! that they give.

use crate::chunk::{first_chunk, Chunk};
use crate::pixel::Pixel;
use vstd::prelude::*;

verus! {

/// How many slots the table of recent pixels has.
pub const TABLE_SIZE: usize = 64;

/// What a chunk is read against: the pixel before it, and the table of recent
/// pixels.
pub struct State {
    /// The pixel that was given last.
    pub px: Pixel,
    /// The pixel that was given last of those kept in each slot.
    pub table: Seq<Pixel>,
}

/// `n` times the pixel `px`.
pub open spec fn repeated(px: Pixel, n: nat) -> Seq<Pixel> {
    Seq::new(n, |i: int| px)
}

impl State {
    /// What the first chunk is read against.
    pub open spec fn initial() -> State {
        State { px: Pixel::first(), table: repeated(Pixel::zero(), TABLE_SIZE as nat) }
    }

    /// What the chunk behind `chunk` is read against.
    pub open spec fn after(self, chunk: Chunk) -> State {
        let px = chunk.pixel(self.px, self.table);
        State { px, table: self.table.update(px.slot(), px) }
    }
}

/// How many pixels `chunks` give together.
pub open spec fn total(chunks: Seq<Chunk>) -> nat
    decreases chunks.len(),
{
    if chunks.len() == 0 {
        0
    } else {
        chunks[0].count() + total(chunks.drop_first())
    }
}

/// The bytes of `chunks`, one after the other.
pub open spec fn encoded(chunks: Seq<Chunk>) -> Seq<u8>
    decreases chunks.len(),
{
    if chunks.len() == 0 {
        seq![]
    } else {
        chunks[0].bytes() + encoded(chunks.drop_first())
    }
}

/// The pixels that `chunks` give, from `state` on.
pub open spec fn painted(state: State, chunks: Seq<Chunk>) -> Seq<Pixel>
    decreases chunks.len(),
{
    if chunks.len() == 0 {
        seq![]
    } else {
        let next = state.after(chunks[0]);
        repeated(next.px, chunks[0].count()) + painted(next, chunks.drop_first())
    }
}

/// How a stream of chunks ends.
pub enum Ending {
    /// The last chunk gives the last pixel.
    Complete,
    /// The bytes end inside a chunk, or where one should begin.
    Truncated,
    /// The next chunk gives more pixels than are left.
    Overrun,
}

/// The chunks that a stream is made of.
pub struct Framing {
    /// The chunks up to the last pixel, or up to the first that cannot be taken.
    pub chunks: Seq<Chunk>,
    /// What stands behind them.
    pub ending: Ending,
}

/// The chunks at the front of `bytes` that `count` pixels are encoded in.
pub open spec fn framing(bytes: Seq<u8>, count: nat) -> Framing
    decreases count,
{
    if count == 0 {
        Framing { chunks: seq![], ending: Ending::Complete }
    } else {
        match first_chunk(bytes) {
            None => Framing { chunks: seq![], ending: Ending::Truncated },
            Some(chunk) => if chunk.count() > count {
                Framing { chunks: seq![], ending: Ending::Overrun }
            } else {
                let rest = framing(
                    bytes.skip(chunk.bytes().len() as int),
                    (count - chunk.count()) as nat,
                );
                Framing { chunks: seq![chunk] + rest.chunks, ending: rest.ending }
            },
        }
    }
}

/// A stream whose next chunk can be taken is that chunk and the stream behind it.
pub(crate) proof fn lemma_framing_step(bytes: Seq<u8>, count: nat, state: State)
    requires
        count > 0,
        first_chunk(bytes) is Some,
        first_chunk(bytes)->0.count() <= count,
    ensures
        ({
            let chunk = first_chunk(bytes)->0;
            let all = framing(bytes, count);
            let rest = framing(
                bytes.skip(chunk.bytes().len() as int),
                (count - chunk.count()) as nat,
            );
            let next = state.after(chunk);
            &&& all.chunks == seq![chunk] + rest.chunks
            &&& all.ending == rest.ending
            &&& total(all.chunks) == chunk.count() + total(rest.chunks)
            &&& encoded(all.chunks) == chunk.bytes() + encoded(rest.chunks)
            &&& painted(state, all.chunks) == repeated(next.px, chunk.count()) + painted(
                next,
                rest.chunks,
            )
        }),
{
    let chunk = first_chunk(bytes)->0;
    let all = framing(bytes, count);
    let rest = framing(bytes.skip(chunk.bytes().len() as int), (count - chunk.count()) as nat);
    assert(all.chunks.drop_first() =~= rest.chunks);
}

} // verus!
