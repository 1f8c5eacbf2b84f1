//! What holds of decoding as a whole: which inputs decode and to what, what is
//! said of the others, and how much is written.

use crate::chunk::Chunk;
use crate::decoder::{
    behind_chunks, decode_output, decode_result, has_end_marker, image_framing, image_info,
    image_pixels, QOI_END_MARKER,
};
use crate::error::Error;
use crate::format_laws::{
    all_wf, law_chunk_read_back, law_header_bytes, law_header_read_back, law_pixel_count,
    law_stream_bytes, law_stream_cut_short, law_stream_read_back,
};
use crate::header::{header_fields, magic, parse_header, Header, HEADER_SIZE};
use crate::info::ImageInfo;
use crate::pixel::{lemma_packed_add, packed, Pixel};
use crate::stream::{encoded, painted, repeated, total, State};
use vstd::prelude::*;

verus! {

/// The image with the header `header` and the chunks `chunks`, as bytes.
pub open spec fn image(header: Header, chunks: Seq<Chunk>) -> Seq<u8> {
    header.bytes() + encoded(chunks) + QOI_END_MARKER@
}

/// An input that begins with a header is read as that header and the stream
/// behind it.
proof fn lemma_header_and_body(header: Header, body: Seq<u8>)
    requires
        header.wf(),
    ensures
        parse_header(header.bytes() + body) == Ok::<Header, Error>(header),
        header.bytes().len() == HEADER_SIZE,
        (header.bytes() + body).skip(HEADER_SIZE as int) == body,
{
    law_header_read_back(header, body);
    assert((header.bytes() + body).skip(HEADER_SIZE as int) =~= body);
}

/// Every image decodes: a header, chunks that give as many pixels as the header
/// declares, and the end marker, whatever stands behind it, are decoded to the
/// pixels that the chunks give.
pub proof fn law_image_decodes(header: Header, chunks: Seq<Chunk>, rest: Seq<u8>, capacity: nat)
    requires
        header.wf(),
        all_wf(chunks),
        total(chunks) == header.pixel_count(),
        header.image_size() <= capacity,
    ensures
        decode_result(image(header, chunks) + rest, capacity) == Ok::<_, Error>(
            image_info(header),
        ),
        decode_output(image(header, chunks) + rest, capacity) == packed(
            painted(State::initial(), chunks),
            header.channels as nat,
        ),
{
    let input = image(header, chunks) + rest;
    let behind = QOI_END_MARKER@ + rest;
    let body = encoded(chunks) + behind;
    assert(input =~= header.bytes() + body);
    lemma_header_and_body(header, body);
    law_stream_read_back(chunks, behind, 0);
    assert(image_framing(input, header).chunks =~= chunks);
    assert(behind_chunks(input, header) =~= behind);
    assert(behind.take(8) =~= QOI_END_MARKER@);
}

/// Nothing but images decodes: where decoding succeeds, the input begins with
/// the image that its header and chunks are written as.
pub proof fn law_only_images_decode(input: Seq<u8>, capacity: nat)
    requires
        decode_result(input, capacity) is Ok,
    ensures
        parse_header(input) is Ok,
        ({
            let header = parse_header(input)->Ok_0;
            let chunks = image_framing(input, header).chunks;
            &&& header.wf()
            &&& all_wf(chunks)
            &&& total(chunks) == header.pixel_count()
            &&& header.image_size() <= capacity
            &&& image(header, chunks).is_prefix_of(input)
        }),
{
    let header = parse_header(input)->Ok_0;
    let body = input.skip(HEADER_SIZE as int);
    let chunks = image_framing(input, header).chunks;
    law_header_bytes(input);
    law_stream_bytes(body, header.pixel_count());
    let behind = behind_chunks(input, header);
    let whole = image(header, chunks);
    let n = HEADER_SIZE + encoded(chunks).len();
    assert(whole.len() == n + 8);
    assert forall|i: int| 0 <= i < whole.len() implies whole[i] == input[i] by {
        if i < HEADER_SIZE {
            assert(whole[i] == input.take(HEADER_SIZE as int)[i]);
        } else if i < n {
            let k = i - HEADER_SIZE;
            assert(encoded(chunks)[k] == body.subrange(0, encoded(chunks).len() as int)[k]);
        } else {
            assert(QOI_END_MARKER@[i - n] == behind.take(8)[i - n]);
        }
    }
    assert(whole =~= input.subrange(0, whole.len() as int));
}

/// Decoding succeeds on exactly those inputs that begin with an image that the
/// buffer has room for.
pub proof fn law_decodes_iff_image(input: Seq<u8>, capacity: nat)
    ensures
        decode_result(input, capacity) is Ok <==> exists|header: Header, chunks: Seq<Chunk>|
            {
                &&& #[trigger] image(header, chunks).is_prefix_of(input)
                &&& header.wf()
                &&& all_wf(chunks)
                &&& total(chunks) == header.pixel_count()
                &&& header.image_size() <= capacity
            },
{
    if decode_result(input, capacity) is Ok {
        law_only_images_decode(input, capacity);
        let header = parse_header(input)->Ok_0;
        assert(image(header, image_framing(input, header).chunks).is_prefix_of(input));
    }
    if exists|header: Header, chunks: Seq<Chunk>|
        {
            &&& #[trigger] image(header, chunks).is_prefix_of(input)
            &&& header.wf()
            &&& all_wf(chunks)
            &&& total(chunks) == header.pixel_count()
            &&& header.image_size() <= capacity
        } {
        let (header, chunks) = choose|header: Header, chunks: Seq<Chunk>|
            {
                &&& #[trigger] image(header, chunks).is_prefix_of(input)
                &&& header.wf()
                &&& all_wf(chunks)
                &&& total(chunks) == header.pixel_count()
                &&& header.image_size() <= capacity
            };
        let whole = image(header, chunks);
        assert(input =~= whole + input.skip(whole.len() as int));
        law_image_decodes(header, chunks, input.skip(whole.len() as int), capacity);
    }
}

/// A sequence is its front and what stands behind it, with or without more.
proof fn lemma_front(front: Seq<u8>, whole: Seq<u8>, extra: Seq<u8>)
    requires
        front.is_prefix_of(whole),
    ensures
        whole == front + whole.skip(front.len() as int),
        whole + extra == front + (whole.skip(front.len() as int) + extra),
{
    assert(whole =~= front + whole.skip(front.len() as int));
    assert(whole + extra =~= front + (whole.skip(front.len() as int) + extra));
}

/// What stands behind the end marker changes nothing.
pub proof fn law_trailing_bytes_ignored(input: Seq<u8>, extra: Seq<u8>, capacity: nat)
    requires
        decode_result(input, capacity) is Ok,
    ensures
        decode_result(input + extra, capacity) == decode_result(input, capacity),
        decode_output(input + extra, capacity) == decode_output(input, capacity),
{
    law_only_images_decode(input, capacity);
    let header = parse_header(input)->Ok_0;
    let chunks = image_framing(input, header).chunks;
    let whole = image(header, chunks);
    let rest = input.skip(whole.len() as int);
    lemma_front(whole, input, extra);
    law_image_decodes(header, chunks, rest, capacity);
    law_image_decodes(header, chunks, rest + extra, capacity);
}

/// The bytes of the front of a picture are the front of its bytes.
proof fn lemma_packed_prefix(some: Seq<Pixel>, all: Seq<Pixel>, channels: nat)
    requires
        some.is_prefix_of(all),
        channels == 3 || channels == 4,
    ensures
        packed(some, channels).is_prefix_of(packed(all, channels)),
{
    let rest = all.skip(some.len() as int);
    assert(all =~= some + rest);
    lemma_packed_add(some, rest, channels);
    assert(packed(some, channels) =~= packed(all, channels).subrange(
        0,
        packed(some, channels).len() as int,
    ));
}

/// An image that is cut short in its header.
proof fn lemma_cut_in_header(header: Header, body: Seq<u8>, len: nat, capacity: nat)
    requires
        len < HEADER_SIZE,
    ensures
        decode_result((header.bytes() + body).take(len as int), capacity) == Err::<
            ImageInfo,
            Error,
        >(Error::TruncatedInput),
        decode_output((header.bytes() + body).take(len as int), capacity) == Seq::<u8>::empty(),
{
    let cut = (header.bytes() + body).take(len as int);
    if len >= 4 {
        assert(cut.take(4) =~= magic());
    }
}

/// An image that is cut short in its chunks.
proof fn lemma_cut_in_chunks(header: Header, chunks: Seq<Chunk>, len: nat, capacity: nat)
    requires
        header.wf(),
        all_wf(chunks),
        total(chunks) == header.pixel_count(),
        header.image_size() <= capacity,
        len < encoded(chunks).len(),
    ensures
        decode_result(header.bytes() + encoded(chunks).take(len as int), capacity) == Err::<
            ImageInfo,
            Error,
        >(Error::TruncatedInput),
        decode_output(
            header.bytes() + encoded(chunks).take(len as int),
            capacity,
        ).is_prefix_of(packed(painted(State::initial(), chunks), header.channels as nat)),
{
    let body = encoded(chunks).take(len as int);
    let cut = header.bytes() + body;
    lemma_header_and_body(header, body);
    law_stream_cut_short(State::initial(), chunks, len);
    lemma_packed_prefix(
        image_pixels(cut, header),
        painted(State::initial(), chunks),
        header.channels as nat,
    );
}

/// An image whose end marker is not the one that it should be.
proof fn lemma_no_end_marker(header: Header, chunks: Seq<Chunk>, behind: Seq<u8>, capacity: nat)
    requires
        header.wf(),
        all_wf(chunks),
        total(chunks) == header.pixel_count(),
        header.image_size() <= capacity,
        !has_end_marker(behind),
    ensures
        decode_result(header.bytes() + (encoded(chunks) + behind), capacity) == Err::<
            ImageInfo,
            Error,
        >(Error::InvalidEndMarker),
        decode_output(header.bytes() + (encoded(chunks) + behind), capacity) == packed(
            painted(State::initial(), chunks),
            header.channels as nat,
        ),
{
    let body = encoded(chunks) + behind;
    let input = header.bytes() + body;
    lemma_header_and_body(header, body);
    law_stream_read_back(chunks, behind, 0);
    assert(image_framing(input, header).chunks =~= chunks);
    assert(behind_chunks(input, header) =~= behind);
}

/// The image with the header `header` and the chunks `chunks` up to `len` bytes.
proof fn lemma_cut(header: Header, chunks: Seq<Chunk>, len: nat)
    requires
        len < image(header, chunks).len(),
    ensures
        ({
            let cut = image(header, chunks).take(len as int);
            let tail = encoded(chunks) + QOI_END_MARKER@;
            let n = encoded(chunks).len();
            if len < HEADER_SIZE {
                cut == (header.bytes() + tail).take(len as int)
            } else if len < HEADER_SIZE + n {
                cut == header.bytes() + encoded(chunks).take(len - HEADER_SIZE)
            } else {
                cut == header.bytes() + (encoded(chunks) + QOI_END_MARKER@.take(
                    len - HEADER_SIZE - n,
                ))
            }
        }),
        image(header, chunks).len() == HEADER_SIZE + encoded(chunks).len() + 8,
{
    let front = header.bytes();
    let mid = encoded(chunks);
    let cut = image(header, chunks).take(len as int);
    assert(front.len() == HEADER_SIZE);
    if len < HEADER_SIZE {
        assert(cut =~= (front + (mid + QOI_END_MARKER@)).take(len as int));
    } else if len < HEADER_SIZE + mid.len() {
        assert(cut =~= front + mid.take(len - HEADER_SIZE));
    } else {
        assert(cut =~= front + (mid + QOI_END_MARKER@.take(len - HEADER_SIZE - mid.len())));
    }
}

/// An image that is cut short is refused: for lack of input where the cut lies
/// in the header or the chunks, and for lack of its end marker where it lies in
/// that. What is written is the front of what the whole image gives.
pub proof fn law_image_cut_short(header: Header, chunks: Seq<Chunk>, len: nat, capacity: nat)
    requires
        header.wf(),
        all_wf(chunks),
        total(chunks) == header.pixel_count(),
        header.image_size() <= capacity,
        len < image(header, chunks).len(),
    ensures
        decode_result(image(header, chunks).take(len as int), capacity) == if len < image(
            header,
            chunks,
        ).len() - 8 {
            Err::<ImageInfo, Error>(Error::TruncatedInput)
        } else {
            Err::<ImageInfo, Error>(Error::InvalidEndMarker)
        },
        decode_output(image(header, chunks).take(len as int), capacity).is_prefix_of(
            decode_output(image(header, chunks), capacity),
        ),
{
    let whole = image(header, chunks);
    let n = encoded(chunks).len();
    let bytes = packed(painted(State::initial(), chunks), header.channels as nat);
    assert(whole + seq![] =~= whole);
    law_image_decodes(header, chunks, seq![], capacity);
    lemma_cut(header, chunks, len);
    if len < HEADER_SIZE {
        lemma_cut_in_header(header, encoded(chunks) + QOI_END_MARKER@, len, capacity);
        assert(Seq::<u8>::empty() =~= bytes.subrange(0, 0));
    } else if len < HEADER_SIZE + n {
        lemma_cut_in_chunks(header, chunks, (len - HEADER_SIZE) as nat, capacity);
    } else {
        let behind = QOI_END_MARKER@.take(len - HEADER_SIZE - n);
        lemma_no_end_marker(header, chunks, behind, capacity);
        assert(bytes =~= bytes.subrange(0, bytes.len() as int));
    }
}

/// An image whose end marker is altered or missing is refused for that, and its
/// pixels are written all the same.
pub proof fn law_end_marker_needed(
    header: Header,
    chunks: Seq<Chunk>,
    behind: Seq<u8>,
    capacity: nat,
)
    requires
        header.wf(),
        all_wf(chunks),
        total(chunks) == header.pixel_count(),
        header.image_size() <= capacity,
        !QOI_END_MARKER@.is_prefix_of(behind),
    ensures
        decode_result(header.bytes() + encoded(chunks) + behind, capacity) == Err::<
            ImageInfo,
            Error,
        >(Error::InvalidEndMarker),
        decode_output(header.bytes() + encoded(chunks) + behind, capacity) == packed(
            painted(State::initial(), chunks),
            header.channels as nat,
        ),
{
    let input = header.bytes() + encoded(chunks) + behind;
    assert(input =~= header.bytes() + (encoded(chunks) + behind));
    if has_end_marker(behind) {
        assert(QOI_END_MARKER@ =~= behind.subrange(0, 8));
    }
    lemma_no_end_marker(header, chunks, behind, capacity);
}

/// A chunk that gives more pixels than are left is refused, and what the chunks
/// before it give is written.
pub proof fn law_overrun_is_malformed(
    header: Header,
    chunks: Seq<Chunk>,
    chunk: Chunk,
    rest: Seq<u8>,
    capacity: nat,
)
    requires
        header.wf(),
        all_wf(chunks),
        chunk.wf(),
        total(chunks) < header.pixel_count() < total(chunks) + chunk.count(),
        header.image_size() <= capacity,
    ensures
        decode_result(header.bytes() + encoded(chunks) + chunk.bytes() + rest, capacity) == Err::<
            ImageInfo,
            Error,
        >(Error::MalformedStream),
        decode_output(header.bytes() + encoded(chunks) + chunk.bytes() + rest, capacity)
            == packed(painted(State::initial(), chunks), header.channels as nat),
{
    let input = header.bytes() + encoded(chunks) + chunk.bytes() + rest;
    let behind = chunk.bytes() + rest;
    let body = encoded(chunks) + behind;
    assert(input =~= header.bytes() + body);
    lemma_header_and_body(header, body);
    law_chunk_read_back(chunk, rest);
    let left = (header.pixel_count() - total(chunks)) as nat;
    law_stream_read_back(chunks, behind, left);
    assert(image_framing(input, header).chunks =~= chunks);
}

/// No more is written than the image takes and the buffer has room for: whole
/// pixels, none where the header is refused or the buffer is too small, and all
/// of them where the image is decoded or only its end marker is missing.
pub proof fn law_output_size(input: Seq<u8>, capacity: nat)
    requires
        capacity <= usize::MAX,
    ensures
        decode_output(input, capacity).len() <= capacity,
        parse_header(input) is Err ==> decode_output(input, capacity).len() == 0,
        parse_header(input) matches Ok(header) ==> {
            let size = decode_output(input, capacity).len();
            &&& header.image_size() > capacity ==> size == 0
            &&& size <= header.image_size()
            &&& size % header.channels as nat == 0
            &&& decode_result(input, capacity) == Err::<ImageInfo, Error>(Error::InvalidEndMarker)
                ==> size == header.image_size()
        },
        decode_result(input, capacity) matches Ok(info) ==> {
            &&& info.output_bytes == info.width * info.height * info.channels
            &&& info.output_bytes == decode_output(input, capacity).len()
        },
{
    if let Ok(header) = parse_header(input) {
        let count = header.pixel_count();
        let channels = header.channels as nat;
        let chunks = image_framing(input, header).chunks;
        let pixels = image_pixels(input, header);
        law_stream_bytes(input.skip(HEADER_SIZE as int), count);
        law_pixel_count(State::initial(), chunks);
        assert(pixels.len() <= count);
        assert(pixels.len() * channels <= count * channels) by (nonlinear_arith)
            requires
                pixels.len() <= count,
        ;
        if channels == 3 {
            assert(packed(pixels, channels).len() == pixels.len() * 3);
        } else {
            assert(packed(pixels, channels).len() == pixels.len() * 4);
        }
    }
}

/// A buffer that is larger than need be changes nothing.
pub proof fn law_larger_buffer(input: Seq<u8>, capacity: nat, larger: nat)
    requires
        capacity <= larger,
        decode_result(input, capacity) != Err::<ImageInfo, Error>(Error::OutputTooSmall),
    ensures
        decode_result(input, larger) == decode_result(input, capacity),
        decode_output(input, larger) == decode_output(input, capacity),
{
}

/// Each error comes on exactly these inputs.
pub proof fn law_errors(input: Seq<u8>, capacity: nat)
    ensures
        ({
            let result = decode_result(input, capacity);
            let has_magic = input.len() >= 4 && input.take(4) == magic();
            let has_header = has_magic && input.len() >= HEADER_SIZE;
            let header = header_fields(input);
            let fits = has_header && header.wf() && header.image_size() <= capacity;
            let ending = image_framing(input, header).ending;
            &&& result == Err::<ImageInfo, Error>(Error::InvalidMagic) <==> input.len() >= 4
                && !has_magic
            &&& result == Err::<ImageInfo, Error>(Error::InvalidDimensions) <==> has_header && (
            header.width == 0 || header.height == 0)
            &&& result matches Err(Error::InvalidChannelCount(n)) ==> n == header.channels
            &&& result == Err::<ImageInfo, Error>(Error::InvalidChannelCount(header.channels))
                <==> has_header && header.width > 0 && header.height > 0 && header.channels != 3
                && header.channels != 4
            &&& result matches Err(Error::InvalidColorSpace(n)) ==> n == header.colorspace
            &&& result == Err::<ImageInfo, Error>(Error::InvalidColorSpace(header.colorspace))
                <==> has_header && header.width > 0 && header.height > 0 && (header.channels == 3
                || header.channels == 4) && header.colorspace > 1
            &&& result == Err::<ImageInfo, Error>(Error::OutputTooSmall) <==> has_header
                && header.wf() && header.image_size() > capacity
            &&& result == Err::<ImageInfo, Error>(Error::TruncatedInput) <==> input.len() < 4 || (
            has_magic && input.len() < HEADER_SIZE) || (fits && ending is Truncated)
            &&& result == Err::<ImageInfo, Error>(Error::MalformedStream) <==> fits
                && ending is Overrun
            &&& result == Err::<ImageInfo, Error>(Error::InvalidEndMarker) <==> fits
                && ending is Complete && !has_end_marker(behind_chunks(input, header))
        }),
{
}

/// The chunks that give each pixel of `pixels` in full.
pub open spec fn in_full(pixels: Seq<Pixel>) -> Seq<Chunk> {
    Seq::new(
        pixels.len(),
        |i: int|
            Chunk::Rgba { r: pixels[i].r, g: pixels[i].g, b: pixels[i].b, a: pixels[i].a },
    )
}

/// Chunks that give pixels in full give those pixels.
proof fn lemma_in_full(state: State, pixels: Seq<Pixel>)
    ensures
        painted(state, in_full(pixels)) == pixels,
        total(in_full(pixels)) == pixels.len(),
    decreases pixels.len(),
{
    let chunks = in_full(pixels);
    if pixels.len() == 0 {
        assert(painted(state, chunks) =~= pixels);
    } else {
        let next = state.after(chunks[0]);
        let tail = pixels.drop_first();
        assert(chunks.drop_first() =~= in_full(tail));
        lemma_in_full(next, tail);
        assert(repeated(next.px, 1) + tail =~= pixels);
    }
}

/// Every picture is the picture of some image: the one that gives each of its
/// pixels in full decodes to it.
pub proof fn law_every_picture(header: Header, pixels: Seq<Pixel>, capacity: nat)
    requires
        header.wf(),
        pixels.len() == header.pixel_count(),
        header.image_size() <= capacity,
    ensures
        decode_result(image(header, in_full(pixels)), capacity) == Ok::<ImageInfo, Error>(
            image_info(header),
        ),
        decode_output(image(header, in_full(pixels)), capacity) == packed(
            pixels,
            header.channels as nat,
        ),
{
    lemma_in_full(State::initial(), pixels);
    law_image_decodes(header, in_full(pixels), seq![], capacity);
    assert(image(header, in_full(pixels)) + seq![] =~= image(header, in_full(pixels)));
}

/// The channel count decides only whether alpha is written: with 4 in place of 3
/// the same image has the same pixels and is decoded or refused alike, and red,
/// green and blue of each pixel are the same bytes.
pub proof fn law_channels(input: Seq<u8>, capacity: nat)
    requires
        parse_header(input) is Ok,
        parse_header(input)->Ok_0.channels == 3,
        parse_header(input)->Ok_0.pixel_count() * 4 <= capacity,
    ensures
        ({
            let rgb = decode_output(input, capacity);
            let rgba = decode_output(input.update(12, 4), capacity);
            &&& rgb.len() / 3 == rgba.len() / 4
            &&& forall|i: int, c: int|
                0 <= i < rgb.len() / 3 && 0 <= c < 3 ==> #[trigger] rgb[3 * i + c] == rgba[4 * i
                    + c]
        }),
        ({
            let rgb = decode_result(input, capacity);
            let rgba = decode_result(input.update(12, 4), capacity);
            match rgb {
                Ok(info) => rgba matches Ok(other) && other.width == info.width && other.height
                    == info.height && other.channels == 4 && other.colorspace == info.colorspace,
                Err(error) => rgba == Err::<ImageInfo, Error>(error),
            }
        }),
{
    let other = input.update(12, 4);
    let header = parse_header(input)->Ok_0;
    let wider = Header { channels: 4, ..header };
    law_header_bytes(input);
    assert(other.take(4) =~= input.take(4));
    assert(other.subrange(4, 8) =~= input.subrange(4, 8));
    assert(other.subrange(8, 12) =~= input.subrange(8, 12));
    assert(other.skip(HEADER_SIZE as int) =~= input.skip(HEADER_SIZE as int));
    assert(parse_header(other) == Ok::<Header, Error>(wider));
    law_stream_bytes(input.skip(HEADER_SIZE as int), header.pixel_count());
    assert(behind_chunks(other, wider) =~= behind_chunks(input, header));
    let pixels = image_pixels(input, header);
    assert(packed(pixels, 3).len() == pixels.len() * 3);
    assert(packed(pixels, 4).len() == pixels.len() * 4);
    assert forall|i: int, c: int| 0 <= i < pixels.len() && 0 <= c < 3 implies #[trigger] packed(
        pixels,
        3,
    )[3 * i + c] == packed(pixels, 4)[4 * i + c] by {
        assert((3 * i + c) / 3 == i && (3 * i + c) % 3 == c);
        assert((4 * i + c) / 4 == i && (4 * i + c) % 4 == c);
    }
}

} // verus!
