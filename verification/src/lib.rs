//! A parser for `multipart/form-data` content, with the framing, header and
//! size-limit logic verified by Verus.

pub use bytes;
use vstd::prelude::*;

pub mod buffer;
pub mod constants;
pub mod error;
pub mod outside;
pub mod size_limit;

pub use buffer::{BoundaryMatch, PollStep, StreamBuffer, StreamEvent};
pub use constants::ContentDispositionAttr;
pub use error::{Error, HeaderError};
pub use size_limit::{SizeLimit, SizeLimitView};

use outside::{parse_media_type, MediaType};

verus! {

/// An ASCII letter or digit.
pub open spec fn is_alphanumeric(b: u8) -> bool {
    (0x30 <= b <= 0x39) || (0x41 <= b <= 0x5a) || (0x61 <= b <= 0x7a)
}

/// A character that RFC 2046 allows in a boundary, space excepted.
pub open spec fn spec_boundary_char_no_space(b: u8) -> bool {
    is_alphanumeric(b) || b == 0x27 || b == 0x28 || b == 0x29 || b == 0x2b || b == 0x5f || b
        == 0x2c || b == 0x2d || b == 0x2e || b == 0x2f || b == 0x3a || b == 0x3d || b == 0x3f
}

/// A character that RFC 2046 allows in a boundary.
pub open spec fn spec_boundary_char(b: u8) -> bool {
    b == 0x20 || spec_boundary_char_no_space(b)
}

/// A boundary of 1 to 70 allowed characters that does not end in a space.
pub open spec fn valid_boundary(b: Seq<u8>) -> bool {
    &&& 0 < b.len() <= 70
    &&& forall|i: int| 0 <= i < b.len() - 1 ==> spec_boundary_char(#[trigger] b[i])
    &&& spec_boundary_char_no_space(b[b.len() - 1])
}

/// Whether `byte` may stand in a boundary other than as a space.
pub fn is_boundary_char_no_space(byte: u8) -> (r: bool)
    ensures
        r == spec_boundary_char_no_space(byte),
{
    // letters and digits, then ' ( ) + _ , - . / : = ?
    (0x30 <= byte && byte <= 0x39) || (0x41 <= byte && byte <= 0x5a) || (0x61 <= byte && byte
        <= 0x7a) || byte == 0x27 || byte == 0x28 || byte == 0x29 || byte == 0x2b || byte == 0x5f
        || byte == 0x2c || byte == 0x2d || byte == 0x2e || byte == 0x2f || byte == 0x3a || byte
        == 0x3d || byte == 0x3f
}

/// Whether `byte` may stand in a boundary.
pub fn is_boundary_char(byte: u8) -> (r: bool)
    ensures
        r == spec_boundary_char(byte),
{
    byte == 0x20 || is_boundary_char_no_space(byte)
}

/// Accepts a boundary of 1 to 70 allowed characters that does not end in a
/// space, and refuses any other with `InvalidBoundary`.
pub fn validate_boundary(boundary: &str) -> (r: Result<(), Error>)
    ensures
        r is Ok <==> valid_boundary(vstd::utf8::encode_utf8(boundary@)),
        r matches Err(e) ==> e matches Error::InvalidBoundary { boundary: b } && b@ == boundary@,
{
    let bytes = boundary.as_bytes();
    let n = bytes.len();
    assert(bytes@ == vstd::utf8::encode_utf8(boundary@));
    if n == 0 || n > 70 {
        return Err(Error::InvalidBoundary { boundary: boundary.to_owned() });
    }
    let mut i: usize = 0;
    while i < n - 1
        invariant
            n == bytes@.len(),
            bytes@ == vstd::utf8::encode_utf8(boundary@),
            0 < n <= 70,
            i <= n - 1,
            forall|j: int| 0 <= j < i ==> spec_boundary_char(#[trigger] bytes@[j]),
        decreases n - 1 - i,
    {
        if !is_boundary_char(bytes[i]) {
            assert(!spec_boundary_char(bytes@[i as int]));
            return Err(Error::InvalidBoundary { boundary: boundary.to_owned() });
        }
        i = i + 1;
    }
    if !is_boundary_char_no_space(bytes[n - 1]) {
        return Err(Error::InvalidBoundary { boundary: boundary.to_owned() });
    }
    Ok(())
}

/// `r` is what reading a boundary out of `parsed` gives: the parts of a
/// media type, or the message of the error that refused the text. The type
/// must be `multipart/form-data` and carry a valid `boundary` parameter.
pub open spec fn boundary_outcome(
    parsed: Result<(Seq<char>, Seq<char>, Option<Seq<char>>), Seq<char>>,
    r: Result<String, Error>,
) -> bool {
    match parsed {
        Err(msg) => r matches Err(Error::DecodeContentType(m)) && m@ == msg,
        Ok((t, st, b)) => if !(t == "multipart"@ && st == "form-data"@) {
            r matches Err(Error::NoMultipart)
        } else {
            match b {
                None => r matches Err(Error::NoBoundary),
                Some(b) => if valid_boundary(vstd::utf8::encode_utf8(b)) {
                    r matches Ok(s) && s@ == b
                } else {
                    r matches Err(Error::InvalidBoundary { boundary }) && boundary@ == b
                },
            }
        },
    }
}

fn text_is(s: &String, lit: &str) -> (r: bool)
    ensures
        r == (s@ == lit@),
{
    let l = lit.to_owned();
    s.eq(&l)
}

/// Reads the boundary out of the parts of a `Content-Type` header, or out
/// of the message of the error that refused it.
pub fn boundary_from_media_type(parsed: Result<MediaType, String>) -> (r: Result<String, Error>)
    ensures
        boundary_outcome(
            match parsed {
                Ok(m) => Ok(m.view()),
                Err(e) => Err(e@),
            },
            r,
        ),
{
    let m = match parsed {
        Ok(m) => m,
        Err(e) => return Err(Error::DecodeContentType(e)),
    };
    proof {
        reveal_strlit("multipart");
        reveal_strlit("form-data");
    }
    if !(text_is(&m.type_, "multipart") && text_is(&m.subtype, "form-data")) {
        return Err(Error::NoMultipart);
    }
    let boundary = match m.boundary {
        Some(b) => b,
        None => return Err(Error::NoBoundary),
    };
    match validate_boundary(boundary.as_str()) {
        Ok(()) => Ok(boundary),
        Err(e) => Err(e),
    }
}

/// Parses the `Content-Type` header to extract the boundary value.
pub fn parse_boundary(content_type: &str) -> (r: Result<String, Error>)
    ensures
        boundary_outcome(outside::spec_parse_media_type(content_type@), r),
        r matches Ok(b) ==> valid_boundary(vstd::utf8::encode_utf8(b@)),
{
    boundary_from_media_type(parse_media_type(content_type))
}

/// Every ASCII letter and digit, and `-`, may stand anywhere in a boundary,
/// so every text of 1 to 70 of them is a valid boundary; and a space may
/// stand anywhere but at the end.
pub proof fn law_letters_digits_and_dashes_make_boundaries(s: Seq<u8>, b: u8)
    ensures
        (0x30 <= b <= 0x39 || 0x41 <= b <= 0x5a || 0x61 <= b <= 0x7a || b == 0x2d) ==> {
            &&& spec_boundary_char_no_space(b)
            &&& spec_boundary_char(b)
        },
        spec_boundary_char(0x20) && !spec_boundary_char_no_space(0x20),
        (0 < s.len() <= 70 && forall|i: int|
            0 <= i < s.len() ==> {
                let c = #[trigger] s[i];
                0x30 <= c <= 0x39 || 0x41 <= c <= 0x5a || 0x61 <= c <= 0x7a || c == 0x2d
            }) ==> valid_boundary(s),
        (valid_boundary(s) && s.len() > 0) ==> s[s.len() - 1] != 0x20,
        valid_boundary(s) ==> 0 < s.len() <= 70,
        spec_boundary_char(b) ==> (0x30 <= b <= 0x39 || 0x41 <= b <= 0x5a || 0x61 <= b <= 0x7a
            || b == 0x20 || b == 0x27 || b == 0x28 || b == 0x29 || b == 0x2b || b == 0x5f || b
            == 0x2c || b == 0x2d || b == 0x2e || b == 0x2f || b == 0x3a || b == 0x3d || b == 0x3f),
{
}

} // verus!
