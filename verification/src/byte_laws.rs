//! What decoding does, said of the bytes that go in and the bytes that come
//! out: which bytes begin an image, what each chunk adds to the output of the
//! chunks before it, and how an image ends.

use crate::chunk::{first_chunk, Chunk};
use crate::decode_laws::{image, law_channels, law_only_images_decode, law_output_size};
use crate::decoder::{
    behind_chunks, decode_output, decode_result, has_end_marker, image_framing, image_pixels,
    QOI_END_MARKER,
};
use crate::error::Error;
use crate::format_laws::{
    all_wf, law_chunk_bytes, law_chunk_read_back, law_diff_moves, law_layout, law_luma_moves,
    law_pixel_count, law_stream_bytes, law_stream_read_back, state_behind,
};
use crate::header::{header_fields, magic, parse_header};
use crate::info::ImageInfo;
use crate::pixel::{lemma_packed_add, packed, Pixel};
use crate::stream::{
    encoded, framing, lemma_framing_step, painted, repeated, total, State,
};
use vstd::prelude::*;

verus! {

/// How many bytes a chunk takes that begins with the byte `first`.
pub open spec fn chunk_size(first: u8) -> nat {
    if first == 0xFE {
        4
    } else if first == 0xFF {
        5
    } else if 0x80 <= first < 0xC0 {
        2
    } else {
        1
    }
}

/// `bytes` is one chunk.
pub open spec fn one_chunk(bytes: Seq<u8>) -> bool {
    bytes.len() > 0 && bytes.len() == chunk_size(bytes[0])
}

/// `bytes` is chunks, one after the other, and does not end inside one.
pub open spec fn whole_chunks(bytes: Seq<u8>) -> bool
    decreases bytes.len(),
{
    bytes.len() == 0 || (bytes.len() >= chunk_size(bytes[0]) && whole_chunks(
        bytes.skip(chunk_size(bytes[0]) as int),
    ))
}

/// `input` is an image of four channels that breaks off behind a whole chunk,
/// or behind its header, with pixels still to come.
pub open spec fn underway(input: Seq<u8>, capacity: nat) -> bool {
    &&& input.len() >= 14
    &&& input[12] == 4
    &&& whole_chunks(input.skip(14))
    &&& decode_result(input, capacity) == Err::<ImageInfo, Error>(Error::TruncatedInput)
}

/// How many pixels the header of `input` declares: its width, in four bytes with
/// the most significant first, times its height, in the four bytes behind it.
pub open spec fn declared(input: Seq<u8>) -> int {
    (input[4] * 0x100_0000 + input[5] * 0x1_0000 + input[6] * 0x100 + input[7]) * (input[8]
        * 0x100_0000 + input[9] * 0x1_0000 + input[10] * 0x100 + input[11])
}

/// The size of a chunk is that of the bytes that it is read off.
proof fn lemma_chunk_size(bytes: Seq<u8>)
    ensures
        first_chunk(bytes) is Some <==> bytes.len() > 0 && bytes.len() >= chunk_size(bytes[0]),
        first_chunk(bytes) matches Some(chunk) ==> chunk.bytes().len() == chunk_size(bytes[0]),
{
}

/// Whole chunks that leave pixels to come are all taken.
proof fn lemma_all_taken(bytes: Seq<u8>, count: nat)
    requires
        whole_chunks(bytes),
        framing(bytes, count).ending is Truncated,
    ensures
        encoded(framing(bytes, count).chunks) == bytes,
    decreases count,
{
    lemma_chunk_size(bytes);
    law_chunk_bytes(bytes);
    match first_chunk(bytes) {
        None => {
            assert(bytes =~= seq![]);
        },
        Some(chunk) => {
            let behind = bytes.skip(chunk.bytes().len() as int);
            lemma_framing_step(bytes, count, State::initial());
            lemma_all_taken(behind, (count - chunk.count()) as nat);
            assert(bytes =~= bytes.take(chunk.bytes().len() as int) + behind);
        },
    }
}

/// Whole chunks and one more are whole chunks.
proof fn lemma_whole_and_one(bytes: Seq<u8>, chunk: Seq<u8>)
    requires
        whole_chunks(bytes),
        one_chunk(chunk),
    ensures
        whole_chunks(bytes + chunk),
    decreases bytes.len(),
{
    let both = bytes + chunk;
    if bytes.len() == 0 {
        assert(both =~= chunk);
        assert(both.skip(chunk_size(both[0]) as int) =~= seq![]);
        assert(whole_chunks(seq![]));
    } else {
        let n = chunk_size(bytes[0]) as int;
        lemma_whole_and_one(bytes.skip(n), chunk);
        assert(both.skip(n) =~= bytes.skip(n) + chunk);
    }
}

/// What is known of an image that breaks off.
proof fn lemma_underway(input: Seq<u8>, capacity: nat)
    requires
        underway(input, capacity),
    ensures
        parse_header(input) is Ok,
        ({
            let header = parse_header(input)->Ok_0;
            let chunks = image_framing(input, header).chunks;
            let pixels = painted(State::initial(), chunks);
            &&& header.channels == 4
            &&& header.image_size() <= capacity
            &&& header.pixel_count() == declared(input)
            &&& all_wf(chunks)
            &&& encoded(chunks) == input.skip(14)
            &&& total(chunks) < header.pixel_count()
            &&& pixels.len() == total(chunks)
            &&& decode_output(input, capacity) == packed(pixels, 4)
            &&& decode_output(input, capacity).len() == 4 * total(chunks)
        }),
{
    let header = parse_header(input)->Ok_0;
    let body = input.skip(14);
    let chunks = image_framing(input, header).chunks;
    lemma_fields(input);
    lemma_all_taken(body, header.pixel_count());
    law_stream_bytes(body, header.pixel_count());
    law_pixel_count(State::initial(), chunks);
    assert(packed(painted(State::initial(), chunks), 4).len() == 4 * total(chunks));
}

/// The fields of a header, byte by byte.
proof fn lemma_fields(input: Seq<u8>)
    requires
        input.len() >= 14,
    ensures
        header_fields(input).width == input[4] * 0x100_0000 + input[5] * 0x1_0000 + input[6] * 0x100
            + input[7],
        header_fields(input).height == input[8] * 0x100_0000 + input[9] * 0x1_0000 + input[10]
            * 0x100 + input[11],
        header_fields(input).channels == input[12],
        header_fields(input).colorspace == input[13],
        header_fields(input).pixel_count() == declared(input),
        header_fields(input).image_size() == declared(input) * input[12],
{
}

/// The magic bytes, one by one.
proof fn lemma_magic(input: Seq<u8>)
    requires
        input.len() >= 4,
    ensures
        input.take(4) == magic() <==> input[0] == 0x71 && input[1] == 0x6F && input[2] == 0x69
            && input[3] == 0x66,
{
    let front = input.take(4);
    assert(front[0] == input[0] && front[1] == input[1] && front[2] == input[2] && front[3]
        == input[3]);
    if input[0] == 0x71 && input[1] == 0x6F && input[2] == 0x69 && input[3] == 0x66 {
        assert(front =~= magic());
    }
}

/// More bytes leave the header, and the chunks before them, as they are.
proof fn lemma_more(input: Seq<u8>, more: Seq<u8>, capacity: nat)
    requires
        underway(input, capacity),
    ensures
        parse_header(input + more) == parse_header(input),
        declared(input + more) == declared(input),
        ({
            let header = parse_header(input)->Ok_0;
            let chunks = image_framing(input, header).chunks;
            let left = (header.pixel_count() - total(chunks)) as nat;
            &&& image_framing(input + more, header).chunks == chunks + framing(more, left).chunks
            &&& image_framing(input + more, header).ending == framing(more, left).ending
        }),
{
    lemma_underway(input, capacity);
    let header = parse_header(input)->Ok_0;
    let chunks = image_framing(input, header).chunks;
    let left = (header.pixel_count() - total(chunks)) as nat;
    let longer = input + more;
    assert(longer.take(4) =~= input.take(4));
    assert(longer.subrange(4, 8) =~= input.subrange(4, 8));
    assert(longer.subrange(8, 12) =~= input.subrange(8, 12));
    assert(longer.skip(14) =~= input.skip(14) + more);
    law_stream_read_back(chunks, more, left);
}

/// The pixels of chunks behind others are those that they give from the state
/// that the others leave.
proof fn lemma_painted_add(state: State, chunks: Seq<Chunk>, more: Seq<Chunk>)
    ensures
        painted(state, chunks + more) == painted(state, chunks) + painted(
            state_behind(state, chunks),
            more,
        ),
    decreases chunks.len(),
{
    if chunks.len() == 0 {
        assert(chunks + more =~= more);
        assert(painted(state, chunks) + painted(state, more) =~= painted(state, more));
    } else {
        let next = state.after(chunks[0]);
        let tail = chunks.drop_first();
        lemma_painted_add(next, tail, more);
        assert((chunks + more).drop_first() =~= tail + more);
        let first = repeated(next.px, chunks[0].count());
        assert(first + (painted(next, tail) + painted(state_behind(next, tail), more)) =~= (first
            + painted(next, tail)) + painted(state_behind(next, tail), more));
    }
}

/// The bytes of chunks behind others come behind the bytes of the others.
proof fn lemma_encoded_add(chunks: Seq<Chunk>, more: Seq<Chunk>)
    ensures
        encoded(chunks + more) == encoded(chunks) + encoded(more),
    decreases chunks.len(),
{
    if chunks.len() == 0 {
        assert(chunks + more =~= more);
        assert(encoded(chunks) + encoded(more) =~= encoded(more));
    } else {
        let tail = chunks.drop_first();
        lemma_encoded_add(tail, more);
        assert((chunks + more).drop_first() =~= tail + more);
        assert(chunks[0].bytes() + (encoded(tail) + encoded(more)) =~= (chunks[0].bytes()
            + encoded(tail)) + encoded(more));
    }
}

/// The state behind the chunks of `input`.
spec fn state_of(input: Seq<u8>) -> State {
    state_behind(State::initial(), image_framing(input, parse_header(input)->Ok_0).chunks)
}

/// What one more chunk does that gives no more pixels than are left.
proof fn lemma_taken(input: Seq<u8>, chunk: Seq<u8>, rest: Seq<u8>, capacity: nat)
    requires
        underway(input, capacity),
        one_chunk(chunk),
        first_chunk(chunk) is Some,
        decode_output(input, capacity).len() + 4 * first_chunk(chunk)->0.count() <= 4 * declared(
            input,
        ),
    ensures
        ({
            let c = first_chunk(chunk)->0;
            let before = decode_output(input, capacity);
            let after = decode_output(input + chunk, capacity);
            let px = state_of(input).after(c).px;
            &&& after == before + packed(repeated(px, c.count()), 4)
            &&& after.len() == before.len() + 4 * c.count()
            &&& after.len() < 4 * declared(input) ==> underway(input + chunk, capacity)
            &&& after.len() == 4 * declared(input) ==> {
                &&& decode_output(input + chunk + rest, capacity) == after
                &&& if has_end_marker(rest) {
                    decode_result(input + chunk + rest, capacity) is Ok
                } else {
                    decode_result(input + chunk + rest, capacity) == Err::<ImageInfo, Error>(
                        Error::InvalidEndMarker,
                    )
                }
            }
        }),
{
    let c = first_chunk(chunk)->0;
    let header = parse_header(input)->Ok_0;
    let chunks = image_framing(input, header).chunks;
    let left = (header.pixel_count() - total(chunks)) as nat;
    let px = state_of(input).after(c).px;
    let none: Seq<u8> = seq![];
    let both = input + chunk;
    lemma_underway(input, capacity);
    lemma_chunk_size(chunk);
    law_chunk_bytes(chunk);
    assert(chunk.take(chunk.len() as int) =~= chunk);
    // The chunk alone.
    lemma_more(input, chunk, capacity);
    lemma_framing_step(chunk, left, State::initial());
    assert(chunk.skip(chunk.len() as int) =~= none);
    assert(framing(none, (left - c.count()) as nat).chunks =~= seq![]);
    assert(framing(chunk, left).chunks =~= seq![c]);
    lemma_painted_add(State::initial(), chunks, seq![c]);
    lemma_painted_one(state_of(input), c);
    lemma_packed_add(painted(State::initial(), chunks), repeated(px, c.count()), 4);
    assert(packed(repeated(px, c.count()), 4).len() == 4 * c.count());
    lemma_whole_and_one(input.skip(14), chunk);
    assert(both.skip(14) =~= input.skip(14) + chunk);
    // The chunk and what stands behind it.
    if c.count() == left {
        let more = chunk + rest;
        let longer = input + chunk + rest;
        assert(longer =~= input + more);
        lemma_more(input, more, capacity);
        lemma_first_of(chunk, rest);
        lemma_framing_step(more, left, State::initial());
        assert(framing(more, left).chunks =~= seq![c]);
        lemma_encoded_add(chunks, seq![c]);
        lemma_encoded_one(c);
        assert(encoded(chunks + seq![c]).len() == input.len() - 14 + chunk.len());
        assert(behind_chunks(longer, header) =~= rest);
    }
}

/// A chunk is read alike whatever stands behind it.
proof fn lemma_first_of(chunk: Seq<u8>, rest: Seq<u8>)
    requires
        one_chunk(chunk),
    ensures
        first_chunk(chunk) is Some,
        first_chunk(chunk + rest) == first_chunk(chunk),
{
    lemma_chunk_size(chunk);
}

/// The pixels that one chunk gives.
proof fn lemma_painted_one(state: State, chunk: Chunk)
    ensures
        painted(state, seq![chunk]) == repeated(state.after(chunk).px, chunk.count()),
{
    reveal_with_fuel(painted, 2);
    assert(painted(state, seq![chunk]) =~= repeated(state.after(chunk).px, chunk.count()));
}

/// The bytes of one chunk.
proof fn lemma_encoded_one(chunk: Chunk)
    ensures
        encoded(seq![chunk]) == chunk.bytes(),
{
    reveal_with_fuel(encoded, 2);
    assert(encoded(seq![chunk]) =~= chunk.bytes());
}

/// The last pixel that chunks give is the one that the next chunk starts from.
proof fn lemma_last_pixel(state: State, chunks: Seq<Chunk>)
    requires
        all_wf(chunks),
        chunks.len() > 0,
    ensures
        painted(state, chunks).len() > 0,
        state_behind(state, chunks).px == painted(state, chunks).last(),
    decreases chunks.len(),
{
    let next = state.after(chunks[0]);
    let tail = chunks.drop_first();
    assert(chunks[0].wf());
    reveal_with_fuel(painted, 2);
    reveal_with_fuel(state_behind, 2);
    if tail.len() > 0 {
        lemma_last_pixel(next, tail);
    } else {
        assert(painted(state, chunks) =~= repeated(next.px, chunks[0].count()));
    }
}

/// A slot of the table holds the last pixel that is kept there, or what it held
/// before.
proof fn lemma_slot(state: State, chunks: Seq<Chunk>, slot: int, last: int)
    requires
        all_wf(chunks),
        state.table.len() == 64,
        0 <= slot < 64,
        -1 <= last < painted(state, chunks).len(),
        last >= 0 ==> painted(state, chunks)[last].slot() == slot,
        forall|j: int|
            last < j < painted(state, chunks).len() ==> (#[trigger] painted(state, chunks)[j]).slot()
                != slot,
    ensures
        state_behind(state, chunks).table[slot] == if last >= 0 {
            painted(state, chunks)[last]
        } else {
            state.table[slot]
        },
    decreases chunks.len(),
{
    if chunks.len() > 0 {
        let next = state.after(chunks[0]);
        let tail = chunks.drop_first();
        let n = chunks[0].count() as int;
        let all = painted(state, chunks);
        let behind = painted(next, tail);
        assert(chunks[0].wf());
        assert(all == repeated(next.px, chunks[0].count()) + behind);
        assert(all[0] == next.px);
        assert forall|j: int| 0 <= j < behind.len() implies behind[j] == all[n + j] by {}
        if last >= n {
            lemma_slot(next, tail, slot, last - n);
        } else {
            assert forall|j: int| -1 < j < behind.len() implies (#[trigger] behind[j]).slot()
                != slot by {
                assert(behind[j] == all[n + j]);
            }
            lemma_slot(next, tail, slot, -1);
        }
    }
}

/// One pixel, as bytes.
proof fn lemma_packed_pixel(px: Pixel)
    ensures
        packed(repeated(px, 1), 4) == seq![px.r, px.g, px.b, px.a],
{
    assert(packed(repeated(px, 1), 4) =~= seq![px.r, px.g, px.b, px.a]);
}

/// The four bytes that were written last, or those of opaque black where none
/// were.
pub open spec fn previous(written: Seq<u8>) -> Seq<u8> {
    if written.len() == 0 {
        seq![0, 0, 0, 255]
    } else {
        written.skip(written.len() - 4)
    }
}

/// The bytes that were written last are those of the pixel that the next chunk
/// starts from.
proof fn lemma_previous(input: Seq<u8>, capacity: nat)
    requires
        underway(input, capacity),
    ensures
        ({
            let written = decode_output(input, capacity);
            let px = state_of(input).px;
            &&& written.len() % 4 == 0
            &&& previous(written) == seq![px.r, px.g, px.b, px.a]
        }),
{
    lemma_underway(input, capacity);
    let header = parse_header(input)->Ok_0;
    let chunks = image_framing(input, header).chunks;
    let pixels = painted(State::initial(), chunks);
    let written = decode_output(input, capacity);
    let px = state_of(input).px;
    if chunks.len() == 0 {
        assert(previous(written) =~= seq![px.r, px.g, px.b, px.a]);
    } else {
        lemma_last_pixel(State::initial(), chunks);
        law_layout(pixels, pixels.len() - 1);
        assert(previous(written) =~= seq![px.r, px.g, px.b, px.a]);
    }
}

/// An RGB chunk adds the red, green and blue that it holds, and the alpha of the
/// pixel before it.
pub proof fn law_rgb_bytes(input: Seq<u8>, r: u8, g: u8, b: u8, capacity: nat)
    requires
        underway(input, capacity),
    ensures
        ({
            let before = decode_output(input, capacity);
            decode_output(input + seq![0xFEu8, r, g, b], capacity) == before + seq![
                r,
                g,
                b,
                previous(before)[3],
            ]
        }),
{
    let chunk = seq![0xFEu8, r, g, b];
    lemma_underway(input, capacity);
    lemma_previous(input, capacity);
    lemma_taken(input, chunk, seq![], capacity);
    lemma_packed_pixel(state_of(input).after(first_chunk(chunk)->0).px);
}

/// An RGBA chunk adds the four bytes that it holds.
pub proof fn law_rgba_bytes(input: Seq<u8>, r: u8, g: u8, b: u8, a: u8, capacity: nat)
    requires
        underway(input, capacity),
    ensures
        decode_output(input + seq![0xFFu8, r, g, b, a], capacity) == decode_output(input, capacity)
            + seq![r, g, b, a],
{
    let chunk = seq![0xFFu8, r, g, b, a];
    lemma_underway(input, capacity);
    lemma_taken(input, chunk, seq![], capacity);
    lemma_packed_pixel(state_of(input).after(first_chunk(chunk)->0).px);
}

/// A diff chunk moves red, green and blue of the pixel before it by the three
/// differences in its two-bit fields, each of them two more than the difference.
pub proof fn law_diff_bytes(input: Seq<u8>, dr: int, dg: int, db: int, capacity: nat)
    requires
        underway(input, capacity),
        -2 <= dr <= 1,
        -2 <= dg <= 1,
        -2 <= db <= 1,
    ensures
        ({
            let before = decode_output(input, capacity);
            let byte = (64 + 16 * (dr + 2) + 4 * (dg + 2) + (db + 2)) as u8;
            let after = decode_output(input + seq![byte], capacity);
            let p = previous(before);
            let q = previous(after);
            &&& after == before + q
            &&& (q[0] - p[0] - dr) % 256 == 0
            &&& (q[1] - p[1] - dg) % 256 == 0
            &&& (q[2] - p[2] - db) % 256 == 0
            &&& q[3] == p[3]
        }),
{
    let byte = (64 + 16 * (dr + 2) + 4 * (dg + 2) + (db + 2)) as u8;
    let c = Chunk::Diff { dr: dr as i8, dg: dg as i8, db: db as i8 };
    let state = state_of(input);
    law_chunk_read_back(c, seq![]);
    assert(c.bytes() + seq![] =~= seq![byte]);
    lemma_one_pixel(input, seq![byte], c, capacity);
    law_diff_moves(state.px, state.table, dr as i8, dg as i8, db as i8);
}

/// What a chunk adds that gives one pixel.
proof fn lemma_one_pixel(input: Seq<u8>, chunk: Seq<u8>, c: Chunk, capacity: nat)
    requires
        underway(input, capacity),
        one_chunk(chunk),
        first_chunk(chunk) == Some(c),
        c.count() == 1,
    ensures
        ({
            let before = decode_output(input, capacity);
            let after = decode_output(input + chunk, capacity);
            let p = state_of(input).px;
            let q = c.pixel(p, state_of(input).table);
            &&& previous(before) == seq![p.r, p.g, p.b, p.a]
            &&& previous(after) == seq![q.r, q.g, q.b, q.a]
            &&& after == before + previous(after)
        }),
{
    let px = state_of(input).after(c).px;
    lemma_underway(input, capacity);
    lemma_previous(input, capacity);
    lemma_taken(input, chunk, seq![], capacity);
    lemma_packed_pixel(px);
    lemma_new_previous(decode_output(input, capacity), px);
}

/// The bytes written last are the new ones.
proof fn lemma_new_previous(before: Seq<u8>, px: Pixel)
    ensures
        previous(before + seq![px.r, px.g, px.b, px.a]) == seq![px.r, px.g, px.b, px.a],
{
    assert(previous(before + seq![px.r, px.g, px.b, px.a]) =~= seq![px.r, px.g, px.b, px.a]);
}

/// A luma chunk moves green of the pixel before it by the difference in its
/// first byte, and red and blue by that and the differences in its second.
pub proof fn law_luma_bytes(input: Seq<u8>, dg: int, more_r: int, more_b: int, capacity: nat)
    requires
        underway(input, capacity),
        -32 <= dg <= 31,
        -8 <= more_r <= 7,
        -8 <= more_b <= 7,
    ensures
        ({
            let before = decode_output(input, capacity);
            let first = (128 + (dg + 32)) as u8;
            let second = (16 * (more_r + 8) + (more_b + 8)) as u8;
            let after = decode_output(input + seq![first, second], capacity);
            let p = previous(before);
            let q = previous(after);
            &&& after == before + q
            &&& (q[1] - p[1] - dg) % 256 == 0
            &&& ((q[0] - p[0]) - (q[1] - p[1]) - more_r) % 256 == 0
            &&& ((q[2] - p[2]) - (q[1] - p[1]) - more_b) % 256 == 0
            &&& q[3] == p[3]
        }),
{
    let first = (128 + (dg + 32)) as u8;
    let second = (16 * (more_r + 8) + (more_b + 8)) as u8;
    let c = Chunk::Luma { dg: dg as i8, dr_dg: more_r as i8, db_dg: more_b as i8 };
    let state = state_of(input);
    law_chunk_read_back(c, seq![]);
    assert(c.bytes() + seq![] =~= seq![first, second]);
    lemma_one_pixel(input, seq![first, second], c, capacity);
    law_luma_moves(state.px, state.table, dg as i8, more_r as i8, more_b as i8);
}

/// A run adds the pixel before it again, one to sixty-two times, where as many
/// pixels are still to come. Where they are not, the image is refused, whatever
/// stands behind the run, and nothing is added.
pub proof fn law_run_bytes(input: Seq<u8>, n: int, rest: Seq<u8>, capacity: nat)
    requires
        underway(input, capacity),
        1 <= n <= 62,
    ensures
        ({
            let before = decode_output(input, capacity);
            let byte = (192 + (n - 1)) as u8;
            let after = decode_output(input + seq![byte], capacity);
            if before.len() + 4 * n <= 4 * declared(input) {
                &&& after.len() == before.len() + 4 * n
                &&& before.is_prefix_of(after)
                &&& forall|k: int|
                    before.len() <= k < after.len() ==> #[trigger] after[k] == previous(before)[k
                        % 4]
            } else {
                &&& decode_result(input + seq![byte] + rest, capacity) == Err::<ImageInfo, Error>(
                    Error::MalformedStream,
                )
                &&& decode_output(input + seq![byte] + rest, capacity) == before
            }
        }),
{
    let byte = (192 + (n - 1)) as u8;
    let chunk = seq![byte];
    let before = decode_output(input, capacity);
    assert(first_chunk(chunk) == Some(Chunk::Run { len: n as u8 }));
    lemma_underway(input, capacity);
    lemma_previous(input, capacity);
    if before.len() + 4 * n <= 4 * declared(input) {
        lemma_taken(input, chunk, seq![], capacity);
        let after = decode_output(input + chunk, capacity);
        let px = state_of(input).px;
        lemma_repeated_bytes(before, px, n as nat);
        assert(after == before + packed(repeated(px, n as nat), 4));
    } else {
        lemma_overrun(input, chunk, rest, capacity);
    }
}

/// The bytes of a pixel that is written several times.
proof fn lemma_repeated_bytes(before: Seq<u8>, px: Pixel, n: nat)
    requires
        before.len() % 4 == 0,
    ensures
        ({
            let after = before + packed(repeated(px, n), 4);
            &&& after.len() == before.len() + 4 * n
            &&& before.is_prefix_of(after)
            &&& forall|k: int|
                before.len() <= k < after.len() ==> #[trigger] after[k] == seq![
                    px.r,
                    px.g,
                    px.b,
                    px.a,
                ][k % 4]
        }),
{
    let new = packed(repeated(px, n), 4);
    let after = before + new;
    assert(before =~= after.subrange(0, before.len() as int));
    assert forall|k: int| before.len() <= k < after.len() implies #[trigger] after[k] == seq![
        px.r,
        px.g,
        px.b,
        px.a,
    ][k % 4] by {
        let j = k - before.len();
        assert(j % 4 == k % 4);
        assert(after[k] == new[j]);
        assert(new[j] == px.component(j % 4));
    }
}

/// What one more chunk does that gives more pixels than are left.
proof fn lemma_overrun(input: Seq<u8>, chunk: Seq<u8>, rest: Seq<u8>, capacity: nat)
    requires
        underway(input, capacity),
        one_chunk(chunk),
        first_chunk(chunk) is Some,
        decode_output(input, capacity).len() + 4 * first_chunk(chunk)->0.count() > 4 * declared(
            input,
        ),
    ensures
        decode_result(input + chunk + rest, capacity) == Err::<ImageInfo, Error>(
            Error::MalformedStream,
        ),
        decode_output(input + chunk + rest, capacity) == decode_output(input, capacity),
{
    let header = parse_header(input)->Ok_0;
    let chunks = image_framing(input, header).chunks;
    let more = chunk + rest;
    lemma_underway(input, capacity);
    lemma_more(input, more, capacity);
    lemma_first_of(chunk, rest);
    assert(input + chunk + rest =~= input + more);
    assert(image_framing(input + more, header).chunks =~= chunks);
}

/// An index chunk adds again the last pixel that the byte of the chunk is the
/// slot of: three times red, five times green, seven times blue and eleven times
/// alpha, modulo 64. `last` is where that pixel stands in the output.
pub proof fn law_index_bytes(input: Seq<u8>, slot: u8, last: int, capacity: nat)
    requires
        underway(input, capacity),
        slot < 64,
        ({
            let w = decode_output(input, capacity);
            &&& 0 <= last < w.len() / 4
            &&& (3 * w[4 * last] + 5 * w[4 * last + 1] + 7 * w[4 * last + 2] + 11 * w[4 * last + 3])
                % 64 == slot
            &&& forall|j: int|
                last < j < w.len() / 4 ==> (3 * #[trigger] w[4 * j] + 5 * w[4 * j + 1] + 7 * w[4 * j
                    + 2] + 11 * w[4 * j + 3]) % 64 != slot
        }),
    ensures
        ({
            let w = decode_output(input, capacity);
            decode_output(input + seq![slot], capacity) == w + w.subrange(4 * last, 4 * last + 4)
        }),
{
    let w = decode_output(input, capacity);
    lemma_index(input, slot, last, capacity);
    lemma_underway(input, capacity);
    let pixels = painted(State::initial(), image_framing(input, parse_header(input)->Ok_0).chunks);
    law_layout(pixels, last);
    let px = pixels[last];
    assert(w.subrange(4 * last, 4 * last + 4) =~= seq![px.r, px.g, px.b, px.a]);
}

/// An index chunk whose byte is the slot of no pixel so far adds four zeros.
pub proof fn law_index_of_empty_slot(input: Seq<u8>, slot: u8, capacity: nat)
    requires
        underway(input, capacity),
        slot < 64,
        ({
            let w = decode_output(input, capacity);
            forall|j: int|
                0 <= j < w.len() / 4 ==> (3 * #[trigger] w[4 * j] + 5 * w[4 * j + 1] + 7 * w[4 * j
                    + 2] + 11 * w[4 * j + 3]) % 64 != slot
        }),
    ensures
        decode_output(input + seq![slot], capacity) == decode_output(input, capacity) + seq![
            0u8,
            0,
            0,
            0,
        ],
{
    lemma_index(input, slot, -1, capacity);
}

/// What an index chunk adds, as a pixel.
proof fn lemma_index(input: Seq<u8>, slot: u8, last: int, capacity: nat)
    requires
        underway(input, capacity),
        slot < 64,
        ({
            let w = decode_output(input, capacity);
            &&& -1 <= last < w.len() / 4
            &&& last >= 0 ==> (3 * w[4 * last] + 5 * w[4 * last + 1] + 7 * w[4 * last + 2] + 11
                * w[4 * last + 3]) % 64 == slot
            &&& forall|j: int|
                last < j < w.len() / 4 ==> (3 * #[trigger] w[4 * j] + 5 * w[4 * j + 1] + 7 * w[4 * j
                    + 2] + 11 * w[4 * j + 3]) % 64 != slot
        }),
    ensures
        ({
            let pixels = painted(
                State::initial(),
                image_framing(input, parse_header(input)->Ok_0).chunks,
            );
            let px = if last >= 0 {
                pixels[last]
            } else {
                Pixel { r: 0, g: 0, b: 0, a: 0 }
            };
            decode_output(input + seq![slot], capacity) == decode_output(input, capacity) + seq![
                px.r,
                px.g,
                px.b,
                px.a,
            ]
        }),
{
    let w = decode_output(input, capacity);
    let chunk = seq![slot];
    let chunks = image_framing(input, parse_header(input)->Ok_0).chunks;
    let pixels = painted(State::initial(), chunks);
    lemma_underway(input, capacity);
    assert(first_chunk(chunk) == Some(Chunk::Index { slot }));
    if last >= 0 {
        law_layout(pixels, last);
    }
    assert forall|j: int| last < j < pixels.len() implies (#[trigger] pixels[j]).slot() != slot by {
        law_layout(pixels, j);
        assert((3 * w[4 * j] + 5 * w[4 * j + 1] + 7 * w[4 * j + 2] + 11 * w[4 * j + 3]) % 64
            != slot);
    }
    lemma_slot(State::initial(), chunks, slot as int, last);
    lemma_taken(input, chunk, seq![], capacity);
    lemma_packed_pixel(state_of(input).after(first_chunk(chunk)->0).px);
}

/// Every chunk but one that gives more pixels than are left adds to the output.
/// While pixels are still to come, the image goes on behind it. With the last
/// pixel the image is decoded where seven zeros and a one come next, whatever
/// stands behind them, and refused where they do not, and nothing more is
/// written. A chunk that adds nothing has the image refused.
pub proof fn law_image_goes_on(input: Seq<u8>, chunk: Seq<u8>, rest: Seq<u8>, capacity: nat)
    requires
        underway(input, capacity),
        one_chunk(chunk),
    ensures
        ({
            let before = decode_output(input, capacity);
            let after = decode_output(input + chunk, capacity);
            let result = decode_result(input + chunk + rest, capacity);
            let output = decode_output(input + chunk + rest, capacity);
            let marker = rest.len() >= 8 && rest[0] == 0 && rest[1] == 0 && rest[2] == 0 && rest[3]
                == 0 && rest[4] == 0 && rest[5] == 0 && rest[6] == 0 && rest[7] == 1;
            &&& before.len() <= after.len() <= 4 * declared(input)
            &&& before.len() < after.len() < 4 * declared(input) ==> underway(
                input + chunk,
                capacity,
            )
            &&& before.len() < after.len() == 4 * declared(input) ==> output == after
            &&& before.len() < after.len() == 4 * declared(input) && marker ==> result is Ok
            &&& before.len() < after.len() == 4 * declared(input) && !marker ==> result == Err::<
                ImageInfo,
                Error,
            >(Error::InvalidEndMarker)
            &&& before.len() == after.len() ==> output == before && result == Err::<
                ImageInfo,
                Error,
            >(Error::MalformedStream)
        }),
{
    lemma_underway(input, capacity);
    lemma_first_of(chunk, rest);
    lemma_marker(rest);
    law_chunk_bytes(chunk);
    let c = first_chunk(chunk)->0;
    if decode_output(input, capacity).len() + 4 * c.count() <= 4 * declared(input) {
        lemma_taken(input, chunk, rest, capacity);
    } else {
        lemma_overrun(input, chunk, seq![], capacity);
        assert(input + chunk + seq![] =~= input + chunk);
        lemma_overrun(input, chunk, rest, capacity);
    }
}

/// The end marker, byte by byte.
proof fn lemma_marker(rest: Seq<u8>)
    ensures
        has_end_marker(rest) <==> rest.len() >= 8 && rest[0] == 0 && rest[1] == 0 && rest[2] == 0
            && rest[3] == 0 && rest[4] == 0 && rest[5] == 0 && rest[6] == 0 && rest[7] == 1,
{
    if rest.len() >= 8 {
        let front = rest.take(8);
        assert(forall|i: int| 0 <= i < 8 ==> front[i] == rest[i]);
        if has_end_marker(rest) {
            assert(front[0] == 0 && front[1] == 0 && front[2] == 0 && front[3] == 0 && front[4] == 0
                && front[5] == 0 && front[6] == 0 && front[7] == 1);
        } else if rest[0] == 0 && rest[1] == 0 && rest[2] == 0 && rest[3] == 0 && rest[4] == 0
            && rest[5] == 0 && rest[6] == 0 && rest[7] == 1 {
            assert(front =~= QOI_END_MARKER@);
        }
    }
}

/// The first bytes of a chunk that is not there whole add nothing, and leave the
/// image broken off.
pub proof fn law_part_of_chunk(input: Seq<u8>, part: Seq<u8>, capacity: nat)
    requires
        underway(input, capacity),
        0 < part.len() < chunk_size(part[0]),
    ensures
        decode_result(input + part, capacity) == Err::<ImageInfo, Error>(Error::TruncatedInput),
        decode_output(input + part, capacity) == decode_output(input, capacity),
{
    lemma_underway(input, capacity);
    lemma_more(input, part, capacity);
    lemma_chunk_size(part);
    let header = parse_header(input)->Ok_0;
    assert(image_framing(input + part, header).chunks =~= image_framing(input, header).chunks);
}

/// A header that stands alone and whose image the buffer has room for is an
/// image with all of its pixels still to come.
pub proof fn law_image_begins(input: Seq<u8>, capacity: nat)
    requires
        input.len() == 14,
        input[0] == 0x71,
        input[1] == 0x6F,
        input[2] == 0x69,
        input[3] == 0x66,
        declared(input) > 0,
        input[12] == 3 || input[12] == 4,
        input[13] == 0 || input[13] == 1,
        declared(input) * input[12] <= capacity,
    ensures
        decode_result(input, capacity) == Err::<ImageInfo, Error>(Error::TruncatedInput),
        decode_output(input, capacity).len() == 0,
        input[12] == 4 ==> underway(input, capacity),
{
    lemma_magic(input);
    lemma_fields(input);
    lemma_factors(input);
    let header = header_fields(input);
    assert(input.skip(14) =~= seq![]);
    assert(image_framing(input, header).chunks =~= seq![]);
    assert(packed(seq![], header.channels as nat).len() == 0);
}

/// There are pixels where neither width nor height is zero.
proof fn lemma_factors(input: Seq<u8>)
    requires
        input.len() >= 14,
    ensures
        declared(input) > 0 <==> header_fields(input).width > 0 && header_fields(input).height > 0,
        declared(input) >= 0,
{
    lemma_fields(input);
    let w = header_fields(input).width as int;
    let h = header_fields(input).height as int;
    assert(w > 0 && h > 0 ==> w * h > 0) by (nonlinear_arith);
    assert(w == 0 || h == 0 ==> w * h == 0) by (nonlinear_arith);
    assert(declared(input) == w * h);
}

/// What is wrong with the first fourteen bytes of an input is said, the first
/// fault first, and nothing is written.
pub proof fn law_header_faults(input: Seq<u8>, capacity: nat)
    ensures
        ({
            let result = decode_result(input, capacity);
            let magic = input.len() >= 4 && input[0] == 0x71 && input[1] == 0x6F && input[2] == 0x69
                && input[3] == 0x66;
            let whole = magic && input.len() >= 14;
            let width = input[4] * 0x100_0000 + input[5] * 0x1_0000 + input[6] * 0x100 + input[7];
            let height = input[8] * 0x100_0000 + input[9] * 0x1_0000 + input[10] * 0x100
                + input[11];
            let sized = whole && width > 0 && height > 0;
            let channels = sized && (input[12] == 3 || input[12] == 4);
            let valid = channels && input[13] <= 1;
            let fits = valid && width * height * input[12] <= capacity;
            &&& input.len() < 4 ==> result == Err::<ImageInfo, Error>(Error::TruncatedInput)
            &&& input.len() >= 4 && !magic ==> result == Err::<ImageInfo, Error>(
                Error::InvalidMagic,
            )
            &&& magic && !whole ==> result == Err::<ImageInfo, Error>(Error::TruncatedInput)
            &&& whole && !sized ==> result == Err::<ImageInfo, Error>(Error::InvalidDimensions)
            &&& sized && !channels ==> result == Err::<ImageInfo, Error>(
                Error::InvalidChannelCount(input[12]),
            )
            &&& channels && !valid ==> result == Err::<ImageInfo, Error>(
                Error::InvalidColorSpace(input[13]),
            )
            &&& valid && !fits ==> result == Err::<ImageInfo, Error>(Error::OutputTooSmall)
            &&& fits ==> match result {
                Ok(_) => true,
                Err(error) => error == Error::TruncatedInput || error == Error::MalformedStream
                    || error == Error::InvalidEndMarker,
            }
            &&& !fits ==> decode_output(input, capacity).len() == 0
        }),
{
    if input.len() >= 4 {
        lemma_magic(input);
    }
    if input.len() >= 14 {
        lemma_fields(input);
    }
}

/// Of a decoded image, the width is the number in the four bytes behind the
/// magic bytes and the height that in the four behind those, each with the most
/// significant byte first, then come the channel count and the colorspace, a
/// byte each. As many bytes are written as the three first of these multiply to.
pub proof fn law_info_is_header(input: Seq<u8>, capacity: nat)
    requires
        capacity <= usize::MAX,
        decode_result(input, capacity) is Ok,
    ensures
        input.len() >= 22,
        ({
            let info = decode_result(input, capacity)->Ok_0;
            &&& info.width == input[4] * 0x100_0000 + input[5] * 0x1_0000 + input[6] * 0x100
                + input[7]
            &&& info.height == input[8] * 0x100_0000 + input[9] * 0x1_0000 + input[10] * 0x100
                + input[11]
            &&& info.channels == input[12]
            &&& info.colorspace == input[13]
            &&& info.output_bytes == info.width * info.height * info.channels
            &&& info.output_bytes == decode_output(input, capacity).len()
        }),
{
    lemma_fields(input);
    law_output_size(input, capacity);
    law_only_images_decode(input, capacity);
    let header = parse_header(input)->Ok_0;
    let whole = image(header, image_framing(input, header).chunks);
    assert(whole.len() >= 22);
}

/// An RGB image has the bytes of the RGBA image with the same chunks, without
/// each alpha, and is decoded or refused alike.
pub proof fn law_rgb_leaves_alpha_out(input: Seq<u8>, capacity: nat)
    requires
        input.len() >= 14,
        input[12] == 3,
        declared(input) * 4 <= capacity,
    ensures
        ({
            let rgb = decode_output(input, capacity);
            let rgba = decode_output(input.update(12, 4), capacity);
            &&& 4 * rgb.len() == 3 * rgba.len()
            &&& rgba.len() % 4 == 0
            &&& forall|i: int, c: int|
                0 <= i < rgba.len() / 4 && 0 <= c < 3 ==> #[trigger] rgb[3 * i + c] == rgba[4 * i
                    + c]
        }),
        match decode_result(input.update(12, 4), capacity) {
            Ok(_) => decode_result(input, capacity) is Ok,
            Err(error) => decode_result(input, capacity) == Err::<ImageInfo, Error>(error),
        },
{
    let other = input.update(12, 4);
    assert(other.take(4) =~= input.take(4));
    assert(other.subrange(4, 8) =~= input.subrange(4, 8));
    assert(other.subrange(8, 12) =~= input.subrange(8, 12));
    lemma_fields(input);
    lemma_fields(other);
    if parse_header(input) is Ok {
        let header = parse_header(input)->Ok_0;
        let pixels = image_pixels(input, header);
        lemma_factors(input);
        assert(declared(input) * 3 <= declared(input) * 4);
        law_channels(input, capacity);
        assert(other.skip(14) =~= input.skip(14));
        assert(packed(pixels, 3).len() == pixels.len() * 3);
        assert(packed(pixels, 4).len() == pixels.len() * 4);
    }
}

/// An image is RGB where each of its pixels takes three bytes, RGBA where each
/// takes four, and a decoded image is one of the two.
pub proof fn law_rgb_or_rgba(info: ImageInfo, input: Seq<u8>, capacity: nat)
    requires
        capacity <= usize::MAX,
        decode_result(input, capacity) == Ok::<ImageInfo, Error>(info),
    ensures
        info.is_rgb() != info.is_rgba(),
        info.is_rgb() <==> decode_output(input, capacity).len() == declared(input) * 3,
        info.is_rgba() <==> decode_output(input, capacity).len() == declared(input) * 4,
{
    law_info_is_header(input, capacity);
    law_header_faults(input, capacity);
    lemma_factors(input);
    lemma_fields(input);
}

/// With the channel count of an RGB image, and no other, a pixel takes three
/// bytes, and with that of an RGBA image, and no other, it takes four.
pub proof fn law_channels_of_pixel(info: ImageInfo, px: Pixel)
    ensures
        info.is_rgb() <==> packed(seq![px], info.channels as nat).len() == 3,
        info.is_rgba() <==> packed(seq![px], info.channels as nat).len() == 4,
{
    let one = seq![px];
    let n = info.channels as nat;
    assert(one.len() == 1);
    assert(one.len() * n == n) by (nonlinear_arith)
        requires
            one.len() == 1,
    ;
}

} // verus!
