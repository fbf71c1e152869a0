//! Base64 decoding.

use crate::text::Text;
use base64::engine::general_purpose::{STANDARD, URL_SAFE_NO_PAD};
use base64::{DecodeError, Engine};
use vstd::prelude::*;
use vstd::utf8::encode_utf8;

verus! {

broadcast use vstd::string::group_string_axioms;

/// Why text is not base64.
#[derive(Debug, Clone, Copy, PartialEq, Eq, Structural)]
pub enum Base64Error {
    /// A byte outside of the alphabet, with its offset.
    InvalidByte(usize, u8),
    /// The number of symbols cannot be right.
    InvalidLength(usize),
    /// The last symbol has bits that stand for nothing, with its offset.
    InvalidLastSymbol(usize, u8),
    /// The padding is not as it has to be.
    InvalidPadding,
}

/// What `URL_SAFE_NO_PAD` makes of a text.
pub uninterp spec fn url_safe_no_pad(text: Text) -> Result<Seq<u8>, Base64Error>;

/// What `STANDARD` makes of a text.
pub uninterp spec fn standard(text: Text) -> Result<Seq<u8>, Base64Error>;

/// The bytes of a decoding.
pub open spec fn decoding(result: Result<Vec<u8>, Base64Error>) -> Result<Seq<u8>, Base64Error> {
    match result {
        Ok(bytes) => Ok(bytes@),
        Err(error) => Err(error),
    }
}

/// `Engine::decode` of the engine `URL_SAFE_NO_PAD`: a function of the text, named
/// [`url_safe_no_pad`]. What it decodes to, and which texts it rejects, is not stated.
#[verifier::external_body]
pub(crate) fn decode_url_safe_no_pad(text: &str) -> (bytes: Result<Vec<u8>, Base64Error>)
    ensures
        decoding(bytes) == url_safe_no_pad(text@),
{
    URL_SAFE_NO_PAD.decode(text).map_err(|error| match error {
        DecodeError::InvalidByte(at, byte) => Base64Error::InvalidByte(at, byte),
        DecodeError::InvalidLength(length) => Base64Error::InvalidLength(length),
        DecodeError::InvalidLastSymbol(at, byte) => Base64Error::InvalidLastSymbol(at, byte),
        DecodeError::InvalidPadding => Base64Error::InvalidPadding,
    })
}

/// `Engine::decode` of the engine `STANDARD`: a function of the text, named [`standard`]. What it
/// decodes to, and which texts it rejects, is not stated.
#[verifier::external_body]
pub(crate) fn decode_standard(text: &str) -> (bytes: Result<Vec<u8>, Base64Error>)
    ensures
        decoding(bytes) == standard(text@),
{
    STANDARD.decode(text).map_err(|error| match error {
        DecodeError::InvalidByte(at, byte) => Base64Error::InvalidByte(at, byte),
        DecodeError::InvalidLength(length) => Base64Error::InvalidLength(length),
        DecodeError::InvalidLastSymbol(at, byte) => Base64Error::InvalidLastSymbol(at, byte),
        DecodeError::InvalidPadding => Base64Error::InvalidPadding,
    })
}

/// The text with as many `=` behind it as its bytes lack to whole groups of four.
pub open spec fn padded(text: Text) -> Text {
    let over = encode_utf8(text).len() % 4;
    if over == 0 {
        text
    } else {
        text + Seq::new((4 - over) as nat, |i: int| '=')
    }
}

/// The first decoding if it succeeds, else the second.
pub open spec fn first_success(
    first: Result<Seq<u8>, Base64Error>,
    second: Result<Seq<u8>, Base64Error>,
) -> Result<Seq<u8>, Base64Error> {
    match first {
        Ok(bytes) => Ok(bytes),
        Err(_) => second,
    }
}

/// What base64url text stands for: as it is, or padded.
pub open spec fn base64url(text: Text) -> Result<Seq<u8>, Base64Error> {
    first_success(url_safe_no_pad(text), url_safe_no_pad(padded(text)))
}

/// Pads `input` to whole groups of four bytes.
pub fn pad_base64url(input: &str) -> (out: String)
    ensures
        out@ == padded(input@),
{
    let over: usize = input.as_bytes().len() % 4;
    let mut out = input.to_owned();
    if over == 0 {
        return out;
    }
    let count: usize = 4 - over;
    let mut i: usize = 0;
    assert(out@ =~= input@ + Seq::new(0, |i: int| '='));
    while i < count
        invariant
            i <= count,
            out@ == input@ + Seq::new(i as nat, |i: int| '='),
        decreases count - i,
    {
        out.push('=');
        i = i + 1;
        assert(out@ =~= input@ + Seq::new(i as nat, |i: int| '='));
    }
    out
}

/// Takes the first decoding if it succeeded, else the second.
pub fn first_decoded(
    first: Result<Vec<u8>, Base64Error>,
    second: Result<Vec<u8>, Base64Error>,
) -> (bytes: Result<Vec<u8>, Base64Error>)
    ensures
        decoding(bytes) == first_success(decoding(first), decoding(second)),
{
    match first {
        Ok(bytes) => Ok(bytes),
        Err(_) => second,
    }
}

/// Decodes base64url text that may lack its padding.
pub fn decode_base64url(input: &str) -> (bytes: Result<Vec<u8>, Base64Error>)
    ensures
        decoding(bytes) == base64url(input@),
{
    match decode_url_safe_no_pad(input) {
        Ok(bytes) => Ok(bytes),
        Err(error) => {
            let padded_input = pad_base64url(input);
            first_decoded(Err(error), decode_url_safe_no_pad(padded_input.as_str()))
        },
    }
}

} // verus!
