//! Why an image is refused, and what is said of it.

use vstd::prelude::*;
use vstd::string::StringExecFns;

verus! {

/// Errors returned by [`decode`](crate::decode).
#[derive(Debug, Clone, Copy, PartialEq, Eq, Structural)]
pub enum Error {
    /// The four magic bytes are not "qoif".
    InvalidMagic,
    /// The image width or height is zero.
    InvalidDimensions,
    /// The header channel count is not 3 or 4.
    InvalidChannelCount(u8),
    /// The header colorspace value is not 0 or 1.
    InvalidColorSpace(u8),
    /// The output buffer is smaller than `width * height * channels`.
    OutputTooSmall,
    /// The input ended before all required bytes were read.
    TruncatedInput,
    /// The eight-byte end marker is missing or does not match the format.
    InvalidEndMarker,
    /// The encoded stream declares more pixels than the header allows.
    MalformedStream,
}

/// The decimal digit that stands for `d`.
pub open spec fn digit_char(d: nat) -> char
    recommends
        d < 10,
{
    ('0' as nat + d) as char
}

/// `n` in decimal, without leading zeros.
pub open spec fn decimal(n: nat) -> Seq<char>
    decreases n,
{
    if n < 10 {
        seq![digit_char(n)]
    } else {
        decimal(n / 10).push(digit_char(n % 10))
    }
}

/// The decimal digit that stands for `d`, as text.
fn digit(d: u8) -> (s: &'static str)
    requires
        d < 10,
    ensures
        s@ == seq![digit_char(d as nat)],
{
    proof {
        reveal_strlit("0");
        reveal_strlit("1");
        reveal_strlit("2");
        reveal_strlit("3");
        reveal_strlit("4");
        reveal_strlit("5");
        reveal_strlit("6");
        reveal_strlit("7");
        reveal_strlit("8");
        reveal_strlit("9");
    }
    match d {
        0 => "0",
        1 => "1",
        2 => "2",
        3 => "3",
        4 => "4",
        5 => "5",
        6 => "6",
        7 => "7",
        8 => "8",
        _ => "9",
    }
}

/// Appends `n` in decimal to `s`.
fn append_decimal(s: &mut String, n: u8)
    ensures
        final(s)@ == old(s)@ + decimal(n as nat),
    decreases n,
{
    if n >= 10 {
        append_decimal(s, n / 10);
    }
    s.append(digit(n % 10));
    assert(s@ =~= old(s)@ + decimal(n as nat));
}

impl Error {
    /// What is said of this error.
    pub open spec fn message(self) -> Seq<char> {
        match self {
            Error::InvalidMagic => "invalid QOI magic bytes"@,
            Error::InvalidDimensions => "image width and height must be non-zero"@,
            Error::InvalidChannelCount(channels) => "invalid channel count "@ + decimal(
                channels as nat,
            ) + ", expected 3 or 4"@,
            Error::InvalidColorSpace(colorspace) => "invalid colorspace value "@ + decimal(
                colorspace as nat,
            ) + ", expected 0 or 1"@,
            Error::OutputTooSmall => "output buffer is too small for the image"@,
            Error::TruncatedInput => "unexpected end of input"@,
            Error::InvalidEndMarker => "missing or invalid end marker"@,
            Error::MalformedStream => "malformed QOI stream"@,
        }
    }

    /// What is said of this error, as text for a person to read.
    pub fn to_string(&self) -> (text: String)
        ensures
            text@ == self.message(),
    {
        match self {
            Error::InvalidMagic => String::from_str("invalid QOI magic bytes"),
            Error::InvalidDimensions => String::from_str("image width and height must be non-zero"),
            Error::InvalidChannelCount(channels) => {
                let mut text = String::from_str("invalid channel count ");
                append_decimal(&mut text, *channels);
                text.append(", expected 3 or 4");
                text
            },
            Error::InvalidColorSpace(colorspace) => {
                let mut text = String::from_str("invalid colorspace value ");
                append_decimal(&mut text, *colorspace);
                text.append(", expected 0 or 1");
                text
            },
            Error::OutputTooSmall => String::from_str("output buffer is too small for the image"),
            Error::TruncatedInput => String::from_str("unexpected end of input"),
            Error::InvalidEndMarker => String::from_str("missing or invalid end marker"),
            Error::MalformedStream => String::from_str("malformed QOI stream"),
        }
    }
}

/// What `decimal` gives of a byte: one digit below ten, two below a hundred and
/// three from there on, which stand for units, tens and hundreds.
pub proof fn law_decimal(n: u8)
    ensures
        ({
            let text = decimal(n as nat);
            let d = |i: int| text[i] as int - 48;
            &&& forall|i: int| 0 <= i < text.len() ==> '0' <= #[trigger] text[i] <= '9'
            &&& n < 10 ==> text.len() == 1 && d(0) == n
            &&& 10 <= n < 100 ==> text.len() == 2 && 10 * d(0) + d(1) == n
            &&& 100 <= n ==> text.len() == 3 && 100 * d(0) + 10 * d(1) + d(2) == n
        }),
{
    reveal_with_fuel(decimal, 3);
}

/// The refused channel count, or colorspace, stands between words that are the
/// same for all of them.
pub proof fn law_message_names_value(n: u8)
    ensures
        ({
            let text = Error::InvalidChannelCount(n).message();
            let k = text.len() - 17;
            &&& text.take(22) == "invalid channel count "@
            &&& text.subrange(22, k) == decimal(n as nat)
            &&& text.skip(k) == ", expected 3 or 4"@
        }),
        ({
            let text = Error::InvalidColorSpace(n).message();
            let k = text.len() - 17;
            &&& text.take(25) == "invalid colorspace value "@
            &&& text.subrange(25, k) == decimal(n as nat)
            &&& text.skip(k) == ", expected 0 or 1"@
        }),
{
    reveal_strlit("invalid channel count ");
    reveal_strlit(", expected 3 or 4");
    reveal_strlit("invalid colorspace value ");
    reveal_strlit(", expected 0 or 1");
    let c = Error::InvalidChannelCount(n).message();
    let s = Error::InvalidColorSpace(n).message();
    assert(c.take(22) =~= "invalid channel count "@);
    assert(c.subrange(22, c.len() - 17) =~= decimal(n as nat));
    assert(c.skip(c.len() - 17) =~= ", expected 3 or 4"@);
    assert(s.take(25) =~= "invalid colorspace value "@);
    assert(s.subrange(25, s.len() - 17) =~= decimal(n as nat));
    assert(s.skip(s.len() - 17) =~= ", expected 0 or 1"@);
}

/// No two errors are spoken of alike.
pub proof fn law_messages_differ(one: Error, other: Error)
    requires
        one.message() == other.message(),
    ensures
        one == other,
{
    reveal_strlit("invalid QOI magic bytes");
    reveal_strlit("image width and height must be non-zero");
    reveal_strlit("invalid channel count ");
    reveal_strlit("invalid colorspace value ");
    reveal_strlit("output buffer is too small for the image");
    reveal_strlit("unexpected end of input");
    reveal_strlit("missing or invalid end marker");
    reveal_strlit("malformed QOI stream");
    let a = one.message();
    let b = other.message();
    assert(a[0] == b[0] && a[1] == b[1] && a[2] == b[2] && a[8] == b[8] && a[9] == b[9]);
    match one {
        Error::InvalidChannelCount(n) | Error::InvalidColorSpace(n) => {
            law_message_names_value(n);
            law_decimal(n);
        },
        _ => {},
    }
    match other {
        Error::InvalidChannelCount(n) | Error::InvalidColorSpace(n) => {
            law_message_names_value(n);
            law_decimal(n);
        },
        _ => {},
    }
}

} // verus!
