//! Decoding an image into a buffer.

use crate::chunk::read_chunk;
use crate::decode_laws::law_output_size;
use crate::error::Error;
use crate::header::{parse_header, read_header, Header, HEADER_SIZE};
use crate::info::ImageInfo;
use crate::pixel::{index_pos, lemma_packed_add, lemma_packed_one, packed, write_pixel, Pixel};
use crate::reader::Reader;
use crate::stream::{
    encoded, framing, lemma_framing_step, painted, repeated, Ending, Framing, State,
};
use vstd::prelude::*;

verus! {

/// The eight bytes that stand behind the last chunk.
pub const QOI_END_MARKER: [u8; 8] = [0, 0, 0, 0, 0, 0, 0, 1];

/// The chunks of the image in `input`, whose header is `header`.
pub open spec fn image_framing(input: Seq<u8>, header: Header) -> Framing {
    framing(input.skip(HEADER_SIZE as int), header.pixel_count())
}

/// What stands behind the chunks of the image in `input`.
pub open spec fn behind_chunks(input: Seq<u8>, header: Header) -> Seq<u8> {
    input.skip((HEADER_SIZE + encoded(image_framing(input, header).chunks).len()) as int)
}

/// The pixels of the image in `input`, up to where its stream breaks off.
pub open spec fn image_pixels(input: Seq<u8>, header: Header) -> Seq<Pixel> {
    painted(State::initial(), image_framing(input, header).chunks)
}

/// What is known of an image with the header `header` once it is decoded.
pub open spec fn image_info(header: Header) -> ImageInfo {
    ImageInfo {
        width: header.width,
        height: header.height,
        channels: header.channels,
        colorspace: header.colorspace,
        output_bytes: header.image_size() as usize,
    }
}

/// `bytes` begins with the end marker.
pub open spec fn has_end_marker(bytes: Seq<u8>) -> bool {
    bytes.len() >= 8 && bytes.take(8) == QOI_END_MARKER@
}

/// What decoding `input` into a buffer of `capacity` bytes gives.
pub open spec fn decode_result(input: Seq<u8>, capacity: nat) -> Result<ImageInfo, Error> {
    match parse_header(input) {
        Err(error) => Err(error),
        Ok(header) => if header.image_size() > capacity {
            Err(Error::OutputTooSmall)
        } else {
            match image_framing(input, header).ending {
                Ending::Truncated => Err(Error::TruncatedInput),
                Ending::Overrun => Err(Error::MalformedStream),
                Ending::Complete => if has_end_marker(behind_chunks(input, header)) {
                    Ok(image_info(header))
                } else {
                    Err(Error::InvalidEndMarker)
                },
            }
        },
    }
}

/// What decoding `input` into a buffer of `capacity` bytes writes at the front
/// of the buffer: the pixels up to where the stream breaks off, and nothing
/// where the header is refused or the buffer is too small.
pub open spec fn decode_output(input: Seq<u8>, capacity: nat) -> Seq<u8> {
    match parse_header(input) {
        Err(_) => seq![],
        Ok(header) => if header.image_size() > capacity {
            seq![]
        } else {
            packed(image_pixels(input, header), header.channels as nat)
        },
    }
}

/// The number of pixels that a header can declare fits in 64 bits.
proof fn lemma_header_sizes(header: Header)
    ensures
        header.pixel_count() <= u64::MAX,
        header.pixel_count() == header.width * header.height,
{
    assert(header.width * header.height <= u32::MAX * u32::MAX) by (nonlinear_arith)
        requires
            header.width <= u32::MAX,
            header.height <= u32::MAX,
    ;
}

/// Writes `run` times the pixel `px` at `pos`, and gives the position behind it.
fn write_run(out: &mut [u8], pos: usize, px: &Pixel, channels: usize, run: u64) -> (end: usize)
    requires
        channels == 3 || channels == 4,
        pos + run * channels <= old(out)@.len(),
    ensures
        end == pos + run * channels,
        final(out)@ == old(out)@.take(pos as int) + packed(
            repeated(*px, run as nat),
            channels as nat,
        ) + old(out)@.skip(end as int),
{
    let ghost before = out@;
    let mut at: usize = pos;
    let mut i: u64 = 0;
    assert(out@ =~= before.take(pos as int) + packed(repeated(*px, 0), channels as nat)
        + before.skip(pos as int));
    while i < run
        invariant
            channels == 3 || channels == 4,
            i <= run,
            at == pos + i * channels,
            pos + run * channels <= before.len(),
            out@.len() == before.len(),
            out@ == before.take(pos as int) + packed(repeated(*px, i as nat), channels as nat)
                + before.skip(at as int),
        decreases run - i,
    {
        assert(at + channels == pos + (i + 1) * channels <= pos + run * channels)
            by (nonlinear_arith)
            requires
                i < run,
                at == pos + i * channels,
        ;
        let ghost done = repeated(*px, i as nat);
        assert(done.len() * channels == i * channels);
        write_pixel(out, at, px, channels);
        proof {
            let next = repeated(*px, (i + 1) as nat);
            assert(next =~= done + seq![*px]);
            lemma_packed_add(done, seq![*px], channels as nat);
            lemma_packed_one(*px, channels as nat);
            assert(out@ =~= before.take(pos as int) + packed(next, channels as nat) + before.skip(
                at + channels,
            ));
        }
        assert(at + channels <= out.len());
        at = at + channels;
        i = i + 1;
    }
    at
}

/// Reads the chunks of `pixels` pixels and writes the pixels to the front of
/// `output`.
fn read_pixels(reader: &mut Reader, output: &mut [u8], pixels: u64, channels: usize) -> (result:
    Result<usize, Error>)
    requires
        old(reader).wf(),
        channels == 3 || channels == 4,
        pixels * channels <= old(output)@.len(),
    ensures
        ({
            let frame = framing(old(reader).rest(), pixels as nat);
            let bytes = packed(painted(State::initial(), frame.chunks), channels as nat);
            &&& final(output)@ == bytes + old(output)@.skip(bytes.len() as int)
            &&& match frame.ending {
                Ending::Truncated => result == Err::<usize, Error>(Error::TruncatedInput),
                Ending::Overrun => result == Err::<usize, Error>(Error::MalformedStream),
                Ending::Complete => {
                    &&& result matches Ok(n) && n == pixels * channels
                    &&& old(reader).advanced(encoded(frame.chunks).len() as int, *final(reader))
                },
            }
        }),
{
    let ghost before = output@;
    let ghost frame = framing(reader.rest(), pixels as nat);
    let ghost mut state = State::initial();
    let ghost mut done: Seq<Pixel> = seq![];
    let mut remaining: u64 = pixels;
    let mut out_pos: usize = 0;
    let mut table: [Pixel; 64] = [Pixel::zero(); 64];
    let mut px: Pixel = Pixel::first();
    assert(table@ =~= state.table);
    assert(done + painted(state, frame.chunks) =~= painted(state, frame.chunks));
    assert(output@ =~= packed(done, channels as nat) + before.skip(0));
    while remaining > 0
        invariant
            reader.wf(),
            reader.bytes == old(reader).bytes,
            before == old(output)@,
            channels == 3 || channels == 4,
            frame == framing(old(reader).rest(), pixels as nat),
            frame.ending == framing(reader.rest(), remaining as nat).ending,
            reader.pos + encoded(framing(reader.rest(), remaining as nat).chunks).len() == old(
                reader,
            ).pos + encoded(frame.chunks).len(),
            painted(State::initial(), frame.chunks) == done + painted(
                state,
                framing(reader.rest(), remaining as nat).chunks,
            ),
            px == state.px,
            table@ == state.table,
            done.len() + remaining == pixels,
            out_pos == done.len() * channels,
            pixels * channels <= before.len(),
            output@.len() == before.len(),
            output@ == packed(done, channels as nat) + before.skip(out_pos as int),
        decreases remaining,
    {
        let ghost unread = reader.rest();
        let ghost rest = framing(unread, remaining as nat);
        let chunk = match read_chunk(reader) {
            Ok(chunk) => chunk,
            Err(error) => {
                assert(done + painted(state, rest.chunks) =~= done);
                return Err(error);
            },
        };
        px = chunk.apply(px, &table);
        let run = chunk.run();
        if run > remaining {
            assert(done + painted(state, rest.chunks) =~= done);
            return Err(Error::MalformedStream);
        }
        table[index_pos(&px)] = px;
        assert(out_pos + run * channels == (done.len() + run) * channels <= pixels * channels)
            by (nonlinear_arith)
            requires
                out_pos == done.len() * channels,
                done.len() + run <= pixels,
        ;
        out_pos = write_run(output, out_pos, &px, channels, run);
        remaining = remaining - run;
        proof {
            let next = state.after(chunk);
            let more = repeated(px, run as nat);
            let after = framing(reader.rest(), remaining as nat);
            assert(reader.rest() =~= unread.skip(chunk.bytes().len() as int));
            lemma_framing_step(unread, (remaining + run) as nat, state);
            assert(done + painted(state, rest.chunks) =~= (done + more) + painted(
                next,
                after.chunks,
            ));
            lemma_packed_add(done, more, channels as nat);
            assert(output@ =~= packed(done + more, channels as nat) + before.skip(out_pos as int));
            done = done + more;
            state = next;
        }
    }
    assert(done + painted(state, seq![]) =~= done);
    Ok(out_pos)
}

/// Whether the end marker comes next.
fn at_end_marker(reader: &Reader) -> (yes: bool)
    requires
        reader.wf(),
    ensures
        yes == has_end_marker(reader.rest()),
{
    let ghost rest = reader.rest();
    if reader.bytes.len() - reader.pos < 8 {
        return false;
    }
    let mut i: usize = 0;
    while i < 8
        invariant
            reader.wf(),
            rest == reader.rest(),
            rest.len() >= 8,
            i <= 8,
            forall|k: int| 0 <= k < i ==> rest[k] == QOI_END_MARKER@[k],
        decreases 8 - i,
    {
        assert(reader.pos + i < reader.bytes.len());
        if reader.bytes[reader.pos + i] != QOI_END_MARKER[i] {
            assert(rest.take(8)[i as int] != QOI_END_MARKER@[i as int]);
            return false;
        }
        i = i + 1;
    }
    assert(rest.take(8) =~= QOI_END_MARKER@);
    true
}

/// Decodes a QOI image from `input` into `output`.
///
/// `output` must be at least `width * height * channels` bytes long, where
/// the dimensions and channel count come from the image header. The decoded
/// pixels are written as tightly packed RGB or RGBA bytes. No memory is
/// allocated.
///
/// Returns an [`ImageInfo`] describing the image on success, or an [`Error`]
/// if the stream is malformed or `output` is too small.
pub fn decode(input: &[u8], output: &mut [u8]) -> (result: Result<ImageInfo, Error>)
    ensures
        result == decode_result(input@, old(output)@.len()),
        ({
            let bytes = decode_output(input@, old(output)@.len());
            final(output)@ == bytes + old(output)@.skip(bytes.len() as int)
        }),
        final(output)@.len() == old(output)@.len(),
        result matches Ok(info) ==> info.output_bytes == info.width * info.height * info.channels
            <= old(output)@.len(),
{
    proof {
        assert(output.len() <= usize::MAX);
        law_output_size(input@, output@.len());
    }
    let mut reader = Reader::new(input);
    assert(seq![] + output@.skip(0) =~= output@);
    let header = read_header(&mut reader)?;
    proof {
        lemma_header_sizes(header);
    }
    let capacity: u64 = output.len() as u64;
    let pixels: u64 = header.width as u64 * header.height as u64;
    let needed: u64 = match pixels.checked_mul(header.channels as u64) {
        Some(needed) => needed,
        None => {
            return Err(Error::OutputTooSmall);
        },
    };
    if needed > capacity {
        return Err(Error::OutputTooSmall);
    }
    let output_bytes = read_pixels(&mut reader, output, pixels, header.channels as usize)?;
    if !at_end_marker(&reader) {
        return Err(Error::InvalidEndMarker);
    }
    Ok(
        ImageInfo {
            width: header.width,
            height: header.height,
            channels: header.channels,
            colorspace: header.colorspace,
            output_bytes,
        },
    )
}

} // verus!
