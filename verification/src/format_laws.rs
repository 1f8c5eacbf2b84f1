//! What holds of the format: chunks, headers and streams are read back as they
//! are written, and the table of recent pixels keeps its promise.

use crate::chunk::{first_chunk, Chunk};
use crate::error::Error;
use crate::header::{be_bytes, magic, parse_header, Header, HEADER_SIZE};
use crate::pixel::{packed, Pixel};
use crate::reader::be_u32;
use crate::stream::{
    encoded, framing, lemma_framing_step, painted, repeated, total, Ending, State, TABLE_SIZE,
};
use vstd::prelude::*;

verus! {

/// Every chunk of `chunks` is one that the encoding has room for.
pub open spec fn all_wf(chunks: Seq<Chunk>) -> bool {
    forall|i: int| 0 <= i < chunks.len() ==> (#[trigger] chunks[i]).wf()
}

/// What is read back of a chunk is that chunk, whatever stands behind it.
pub proof fn law_chunk_read_back(chunk: Chunk, rest: Seq<u8>)
    requires
        chunk.wf(),
    ensures
        first_chunk(chunk.bytes() + rest) == Some(chunk),
{
}

/// A chunk is read off exactly the bytes that it is written as: no two strings
/// of bytes are read as the same chunk.
pub proof fn law_chunk_bytes(bytes: Seq<u8>)
    ensures
        first_chunk(bytes) matches Some(chunk) ==> {
            &&& chunk.wf()
            &&& chunk.bytes().len() <= bytes.len()
            &&& bytes.take(chunk.bytes().len() as int) == chunk.bytes()
        },
{
    if let Some(chunk) = first_chunk(bytes) {
        assert(bytes.take(chunk.bytes().len() as int) =~= chunk.bytes());
    }
}

/// A chunk that is cut short is not read at all.
pub proof fn law_chunk_cut_short(chunk: Chunk, len: nat)
    requires
        chunk.wf(),
        len < chunk.bytes().len(),
    ensures
        first_chunk(chunk.bytes().take(len as int)) is None,
{
}

/// A number is read back of its four bytes.
proof fn lemma_be_bytes(n: u32)
    ensures
        be_u32(be_bytes(n)) == n,
{
    let q = n / 0x100;
    let p = q / 0x100;
    assert(n == q * 0x100 + n % 0x100);
    assert(q == p * 0x100 + q % 0x100);
    assert(p == p / 0x100 * 0x100 + p % 0x100);
    assert(n / 0x1_0000 == p);
    assert(n / 0x100_0000 == p / 0x100);
}

/// The four bytes of a number are read back of it.
proof fn lemma_be_u32(bytes: Seq<u8>)
    requires
        bytes.len() == 4,
    ensures
        0 <= be_u32(bytes) <= u32::MAX,
        be_bytes(be_u32(bytes) as u32) == bytes,
{
    let n = be_u32(bytes) as u32;
    assert(n / 0x100_0000 == bytes[0]);
    assert(n / 0x1_0000 == bytes[0] * 0x100 + bytes[1]);
    assert(n / 0x100 == bytes[0] * 0x1_0000 + bytes[1] * 0x100 + bytes[2]);
    assert(be_bytes(n) =~= bytes);
}

/// What is read back of a header is that header, whatever stands behind it.
pub proof fn law_header_read_back(header: Header, rest: Seq<u8>)
    requires
        header.wf(),
    ensures
        parse_header(header.bytes() + rest) == Ok::<Header, Error>(header),
{
    let input = header.bytes() + rest;
    assert(input.take(4) =~= magic());
    assert(input.subrange(4, 8) =~= be_bytes(header.width));
    assert(input.subrange(8, 12) =~= be_bytes(header.height));
    lemma_be_bytes(header.width);
    lemma_be_bytes(header.height);
}

/// A header is read off exactly the bytes that it is written as.
pub proof fn law_header_bytes(input: Seq<u8>)
    ensures
        parse_header(input) matches Ok(header) ==> {
            &&& header.wf()
            &&& input.len() >= HEADER_SIZE
            &&& input.take(HEADER_SIZE as int) == header.bytes()
        },
{
    if let Ok(header) = parse_header(input) {
        lemma_be_u32(input.subrange(4, 8));
        lemma_be_u32(input.subrange(8, 12));
        let front = input.take(HEADER_SIZE as int);
        assert(front =~= input.take(4) + input.subrange(4, 8) + input.subrange(8, 12) + seq![
            input[12],
            input[13],
        ]);
    }
}

/// The chunks of a stream are read back of it, and what stands behind them is
/// read as if it stood alone.
pub proof fn law_stream_read_back(chunks: Seq<Chunk>, rest: Seq<u8>, count: nat)
    requires
        all_wf(chunks),
    ensures
        framing(encoded(chunks) + rest, total(chunks) + count).chunks == chunks + framing(
            rest,
            count,
        ).chunks,
        framing(encoded(chunks) + rest, total(chunks) + count).ending == framing(
            rest,
            count,
        ).ending,
    decreases chunks.len(),
{
    let bytes = encoded(chunks) + rest;
    if chunks.len() == 0 {
        assert(bytes =~= rest);
        assert(chunks + framing(rest, count).chunks =~= framing(rest, count).chunks);
    } else {
        let chunk = chunks[0];
        let tail = chunks.drop_first();
        let behind = encoded(tail) + rest;
        assert(bytes =~= chunk.bytes() + behind);
        law_chunk_read_back(chunk, behind);
        lemma_framing_step(bytes, total(chunks) + count, State::initial());
        assert(bytes.skip(chunk.bytes().len() as int) =~= behind);
        law_stream_read_back(tail, rest, count);
        assert(chunks + framing(rest, count).chunks =~= seq![chunk] + (tail + framing(
            rest,
            count,
        ).chunks));
    }
}

/// A stream of `count` pixels is read as chunks that stand at its front as they
/// are written. They give `count` pixels where the stream is complete. Where it
/// is not, they give fewer, and either no chunk stands behind them or one that
/// gives more pixels than are left.
pub proof fn law_stream_bytes(bytes: Seq<u8>, count: nat)
    ensures
        ({
            let frame = framing(bytes, count);
            let behind = bytes.skip(encoded(frame.chunks).len() as int);
            &&& all_wf(frame.chunks)
            &&& encoded(frame.chunks).is_prefix_of(bytes)
            &&& match frame.ending {
                Ending::Complete => total(frame.chunks) == count,
                Ending::Truncated => total(frame.chunks) < count && first_chunk(behind) is None,
                Ending::Overrun => {
                    &&& total(frame.chunks) < count
                    &&& first_chunk(behind) matches Some(chunk) && total(frame.chunks)
                        + chunk.count() > count
                },
            }
        }),
    decreases count,
{
    assert(bytes.skip(0) =~= bytes);
    if count > 0 {
        law_chunk_bytes(bytes);
        if let Some(chunk) = first_chunk(bytes) {
            if chunk.count() <= count {
                let behind = bytes.skip(chunk.bytes().len() as int);
                let left = (count - chunk.count()) as nat;
                lemma_framing_step(bytes, count, State::initial());
                law_stream_bytes(behind, left);
                let all = encoded(framing(bytes, count).chunks);
                let tail = encoded(framing(behind, left).chunks);
                assert forall|i: int| 0 <= i < all.len() implies all[i] == bytes[i] by {
                    let n = chunk.bytes().len() as int;
                    if i < n {
                        assert(all[i] == bytes.take(n)[i]);
                    } else {
                        assert(tail[i - n] == behind.subrange(0, tail.len() as int)[i - n]);
                    }
                }
                assert(all =~= bytes.subrange(0, all.len() as int));
                assert(bytes.skip(all.len() as int) =~= behind.skip(tail.len() as int));
            }
        }
    }
}

/// A stream that is cut short ends inside a chunk or where one should begin, and
/// gives the pixels that come before the cut.
pub proof fn law_stream_cut_short(state: State, chunks: Seq<Chunk>, len: nat)
    requires
        all_wf(chunks),
        len < encoded(chunks).len(),
    ensures
        framing(encoded(chunks).take(len as int), total(chunks)).ending is Truncated,
        painted(
            state,
            framing(encoded(chunks).take(len as int), total(chunks)).chunks,
        ).is_prefix_of(painted(state, chunks)),
    decreases chunks.len(),
{
    let chunk = chunks[0];
    let tail = chunks.drop_first();
    let n = chunk.bytes().len();
    let cut = encoded(chunks).take(len as int);
    if len < n {
        assert(cut =~= chunk.bytes().take(len as int));
        law_chunk_cut_short(chunk, len);
        assert(painted(state, framing(cut, total(chunks)).chunks) =~= seq![]);
    } else {
        let left = (len - n) as nat;
        let behind = encoded(tail).take(left as int);
        let next = state.after(chunk);
        assert(cut =~= chunk.bytes() + behind);
        law_chunk_read_back(chunk, behind);
        lemma_framing_step(cut, total(chunks), state);
        assert(cut.skip(n as int) =~= behind);
        law_stream_cut_short(next, tail, left);
        let some = painted(next, framing(behind, total(tail)).chunks);
        let all = painted(next, tail);
        let first = repeated(next.px, chunk.count());
        assert forall|i: int| 0 <= i < (first + some).len() implies (first + some)[i] == (first
            + all)[i] by {
            if i >= first.len() {
                let k = i - first.len();
                assert(some[k] == all.subrange(0, some.len() as int)[k]);
            }
        }
        assert(first + some =~= (first + all).subrange(0, (first + some).len() as int));
    }
}

/// Chunks give as many pixels as they count.
pub proof fn law_pixel_count(state: State, chunks: Seq<Chunk>)
    ensures
        painted(state, chunks).len() == total(chunks),
    decreases chunks.len(),
{
    if chunks.len() > 0 {
        law_pixel_count(state.after(chunks[0]), chunks.drop_first());
    }
}

/// What the chunk behind `chunks` is read against.
pub open spec fn state_behind(state: State, chunks: Seq<Chunk>) -> State
    decreases chunks.len(),
{
    if chunks.len() == 0 {
        state
    } else {
        state_behind(state.after(chunks[0]), chunks.drop_first())
    }
}

/// Every slot of the table holds a pixel that is kept in that slot, or the zero
/// pixel that it held at first.
pub open spec fn table_wf(state: State) -> bool {
    &&& state.table.len() == TABLE_SIZE
    &&& forall|i: int|
        0 <= i < TABLE_SIZE ==> (#[trigger] state.table[i]).slot() == i || state.table[i]
            == Pixel::zero()
}

/// The table is well formed at first, and every chunk keeps it so.
pub proof fn law_table_kept(state: State, chunks: Seq<Chunk>)
    ensures
        table_wf(State::initial()),
        table_wf(state) ==> table_wf(state_behind(state, chunks)),
    decreases chunks.len(),
{
    if chunks.len() > 0 {
        law_table_kept(state.after(chunks[0]), chunks.drop_first());
    }
}

/// A pixel is found again in its slot until another pixel is kept there.
pub proof fn law_index_recalls(state: State, chunk: Chunk, later: Seq<Chunk>)
    requires
        state.table.len() == TABLE_SIZE,
        ({
            let px = state.after(chunk).px;
            let pixels = painted(state.after(chunk), later);
            forall|i: int|
                0 <= i < pixels.len() && (#[trigger] pixels[i]).slot() == px.slot() ==> pixels[i]
                    == px
        }),
        all_wf(later),
    ensures
        ({
            let px = state.after(chunk).px;
            let now = state_behind(state.after(chunk), later);
            Chunk::Index { slot: px.slot() as u8 }.pixel(now.px, now.table) == px
        }),
{
    let kept = state.after(chunk);
    lemma_slot_kept(kept, kept.px, later);
}

/// A pixel stays in its slot while no other pixel is kept there.
proof fn lemma_slot_kept(state: State, px: Pixel, chunks: Seq<Chunk>)
    requires
        state.table.len() == TABLE_SIZE,
        state.table[px.slot()] == px,
        all_wf(chunks),
        ({
            let pixels = painted(state, chunks);
            forall|i: int|
                0 <= i < pixels.len() && (#[trigger] pixels[i]).slot() == px.slot() ==> pixels[i]
                    == px
        }),
    ensures
        state_behind(state, chunks).table[px.slot()] == px,
    decreases chunks.len(),
{
    if chunks.len() > 0 {
        let next = state.after(chunks[0]);
        let tail = chunks.drop_first();
        let first = repeated(next.px, chunks[0].count());
        let pixels = painted(state, chunks);
        let behind = painted(next, tail);
        assert(chunks[0].wf());
        assert(pixels[0] == next.px);
        assert forall|i: int|
            0 <= i < behind.len() && (#[trigger] behind[i]).slot() == px.slot() implies behind[i]
            == px by {
            assert(pixels[first.len() + i] == behind[i]);
        }
        lemma_slot_kept(next, px, tail);
    }
}

/// The alpha of a pixel changes only where it is given in full or found in the
/// table.
pub proof fn law_alpha_kept(chunk: Chunk, px: Pixel, table: Seq<Pixel>)
    requires
        !(chunk is Rgba),
        !(chunk is Index),
    ensures
        chunk.pixel(px, table).a == px.a,
{
}

/// A run gives the previous pixel again, as often as it says.
pub proof fn law_run_repeats(state: State, len: u8)
    ensures
        painted(state, seq![Chunk::Run { len }]) == repeated(state.px, len as nat),
{
    let chunks = seq![Chunk::Run { len }];
    reveal_with_fuel(painted, 2);
    assert(painted(state, chunks) =~= repeated(state.px, len as nat));
}

/// A diff chunk moves red, green and blue by its three differences, modulo 256.
pub proof fn law_diff_moves(px: Pixel, table: Seq<Pixel>, dr: i8, dg: i8, db: i8)
    ensures
        ({
            let next = Chunk::Diff { dr, dg, db }.pixel(px, table);
            &&& (next.r - px.r - dr) % 256 == 0
            &&& (next.g - px.g - dg) % 256 == 0
            &&& (next.b - px.b - db) % 256 == 0
            &&& next.a == px.a
        }),
{
}

/// A luma chunk moves green by its first difference, and red and blue by as much
/// and their own difference more, modulo 256.
pub proof fn law_luma_moves(px: Pixel, table: Seq<Pixel>, dg: i8, dr_dg: i8, db_dg: i8)
    ensures
        ({
            let next = Chunk::Luma { dg, dr_dg, db_dg }.pixel(px, table);
            &&& (next.g - px.g - dg) % 256 == 0
            &&& ((next.r - px.r) - (next.g - px.g) - dr_dg) % 256 == 0
            &&& ((next.b - px.b) - (next.g - px.g) - db_dg) % 256 == 0
            &&& next.a == px.a
        }),
{
}

/// A remainder by 64 moves with its number.
proof fn lemma_mod_64(n: int, k: int)
    ensures
        (n + k) % 64 == (n % 64 + k) % 64,
{
}

/// The zero pixel is kept in slot 0, and one more of red, green, blue or alpha
/// moves a pixel on by 3, 5, 7 or 11 slots, past the last slot to the first.
pub proof fn law_slot_moves(px: Pixel)
    ensures
        0 <= px.slot() < 64,
        (Pixel { r: 0, g: 0, b: 0, a: 0 }).slot() == 0,
        px.r < 255 ==> (Pixel { r: (px.r + 1) as u8, ..px }).slot() == (px.slot() + 3) % 64,
        px.g < 255 ==> (Pixel { g: (px.g + 1) as u8, ..px }).slot() == (px.slot() + 5) % 64,
        px.b < 255 ==> (Pixel { b: (px.b + 1) as u8, ..px }).slot() == (px.slot() + 7) % 64,
        px.a < 255 ==> (Pixel { a: (px.a + 1) as u8, ..px }).slot() == (px.slot() + 11) % 64,
{
    let n = 3 * px.r + 5 * px.g + 7 * px.b + 11 * px.a;
    lemma_mod_64(n, 3);
    lemma_mod_64(n, 5);
    lemma_mod_64(n, 7);
    lemma_mod_64(n, 11);
}

/// Each pixel is laid out as its own red, green and blue and, with four channels,
/// its alpha, behind the bytes of the pixels before it.
pub proof fn law_layout(pixels: Seq<Pixel>, i: int)
    requires
        0 <= i < pixels.len(),
    ensures
        packed(pixels, 3).len() == 3 * pixels.len(),
        packed(pixels, 3)[3 * i] == pixels[i].r,
        packed(pixels, 3)[3 * i + 1] == pixels[i].g,
        packed(pixels, 3)[3 * i + 2] == pixels[i].b,
        packed(pixels, 4).len() == 4 * pixels.len(),
        packed(pixels, 4)[4 * i] == pixels[i].r,
        packed(pixels, 4)[4 * i + 1] == pixels[i].g,
        packed(pixels, 4)[4 * i + 2] == pixels[i].b,
        packed(pixels, 4)[4 * i + 3] == pixels[i].a,
{
    assert((3 * i) / 3 == i && (3 * i) % 3 == 0);
    assert((3 * i + 1) / 3 == i && (3 * i + 1) % 3 == 1);
    assert((3 * i + 2) / 3 == i && (3 * i + 2) % 3 == 2);
    assert((4 * i) / 4 == i && (4 * i) % 4 == 0);
    assert((4 * i + 1) / 4 == i && (4 * i + 1) % 4 == 1);
    assert((4 * i + 2) / 4 == i && (4 * i + 2) % 4 == 2);
    assert((4 * i + 3) / 4 == i && (4 * i + 3) % 4 == 3);
}

} // verus!
