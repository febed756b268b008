//! Every call that leaves the verified library: each item here states what
//! it claims of the function it calls, and Verus believes that claim.
use vstd::prelude::*;
use vstd::utf8::{decode_utf8, valid_utf8};

use bytes::{Buf, Bytes, BytesMut};
use encoding_rs::Encoding;

verus! {

/* byte search (memchr) */

/// `needle` occurs in `hay` starting at index `i`.
pub open spec fn occurs_at(hay: Seq<u8>, needle: Seq<u8>, i: int) -> bool {
    0 <= i && i + needle.len() <= hay.len() && hay.subrange(i, i + needle.len()) == needle
}

/// Calls `memchr::memmem::find`, which returns the index of the first
/// occurrence of `needle` in `hay`, or `None` when there is none (an empty
/// needle occurs at index 0).
#[verifier::external_body]
pub fn find_subslice(hay: &[u8], needle: &[u8]) -> (r: Option<usize>)
    ensures
        match r {
            Some(i) => occurs_at(hay@, needle@, i as int) && forall|j: int|
                0 <= j < i ==> !occurs_at(hay@, needle@, j),
            None => forall|j: int| !occurs_at(hay@, needle@, j),
        },
{
    memchr::memmem::find(hay, needle)
}

/// Calls `memchr::memchr`, which returns the index of the first byte of
/// `hay` equal to `needle`, or `None` when no byte is.
#[verifier::external_body]
pub fn find_byte(needle: u8, hay: &[u8]) -> (r: Option<usize>)
    ensures
        match r {
            Some(i) => i < hay@.len() && hay@[i as int] == needle && forall|j: int|
                0 <= j < i ==> hay@[j] != needle,
            None => forall|j: int| 0 <= j < hay@.len() ==> hay@[j] != needle,
        },
{
    memchr::memchr(needle, hay)
}

/* byte buffers (bytes) */

#[verifier::external_type_specification]
#[verifier::external_body]
pub struct ExBytesMut(BytesMut);

#[verifier::external_type_specification]
#[verifier::external_body]
pub struct ExBytes(Bytes);

/// The bytes that a `BytesMut` holds, in order.
pub uninterp spec fn bytes_mut_view(b: BytesMut) -> Seq<u8>;

/// The bytes that a `Bytes` holds, in order.
pub uninterp spec fn bytes_view(b: Bytes) -> Seq<u8>;

/// Calls `BytesMut::new`, which makes an empty buffer.
#[verifier::external_body]
pub fn bytes_mut_new() -> (r: BytesMut)
    ensures
        bytes_mut_view(r) == Seq::<u8>::empty(),
{
    BytesMut::new()
}

/// Borrows the bytes of a `BytesMut` as a slice (its `Deref`).
#[verifier::external_body]
pub fn bytes_mut_as_slice(b: &BytesMut) -> (r: &[u8])
    ensures
        r@ == bytes_mut_view(*b),
{
    b
}

/// Calls `BytesMut::split_to`, which hands out the first `at` bytes and
/// keeps the rest, and freezes the part handed out into `Bytes`. It panics
/// when `at` is beyond the end.
#[verifier::external_body]
pub fn bytes_mut_split_to(b: &mut BytesMut, at: usize) -> (r: Bytes)
    requires
        at <= bytes_mut_view(*old(b)).len(),
    ensures
        bytes_view(r) == bytes_mut_view(*old(b)).take(at as int),
        bytes_mut_view(*final(b)) == bytes_mut_view(*old(b)).skip(at as int),
{
    b.split_to(at).freeze()
}

/// Calls `Buf::advance` on a `BytesMut`, which drops the first `cnt` bytes.
/// It panics when `cnt` is beyond the end.
#[verifier::external_body]
pub fn bytes_mut_advance(b: &mut BytesMut, cnt: usize)
    requires
        cnt <= bytes_mut_view(*old(b)).len(),
    ensures
        bytes_mut_view(*final(b)) == bytes_mut_view(*old(b)).skip(cnt as int),
{
    b.advance(cnt)
}

/// Calls `BytesMut::clear`, which removes every byte.
#[verifier::external_body]
pub fn bytes_mut_clear(b: &mut BytesMut)
    ensures
        bytes_mut_view(*final(b)) == Seq::<u8>::empty(),
{
    b.clear()
}

/// Calls `BytesMut::extend_from_slice`, which appends the bytes of `data`.
/// It panics when the new length overflows; an allocation is at most
/// `isize::MAX` bytes.
#[verifier::external_body]
pub fn bytes_mut_extend_from_slice(b: &mut BytesMut, data: &[u8])
    requires
        bytes_mut_view(*old(b)).len() + data@.len() <= isize::MAX,
    ensures
        bytes_mut_view(*final(b)) == bytes_mut_view(*old(b)) + data@,
{
    b.extend_from_slice(data)
}

/// Borrows the bytes of a `Bytes` as a slice (its `Deref`).
#[verifier::external_body]
pub fn bytes_as_slice(b: &Bytes) -> (r: &[u8])
    ensures
        r@ == bytes_view(*b),
{
    b
}

/* character encodings (encoding_rs) */

#[verifier::external_type_specification]
#[verifier::external_body]
pub struct ExEncoding(Encoding);

/// The encoding that a charset label designates, if any; each encoding is a
/// static singleton, so it is identified by its address.
pub uninterp spec fn spec_encoding_for_label(label: Seq<u8>) -> Option<&'static Encoding>;

/// Calls `Encoding::for_label`, which looks a charset label up (ignoring
/// ASCII case and surrounding whitespace) and returns the encoding it
/// designates. What labels it knows is not stated: that table is the WHATWG
/// Encoding Standard's.
#[verifier::external_body]
pub fn encoding_for_label(label: &[u8]) -> (r: Option<&'static Encoding>)
    ensures
        r == spec_encoding_for_label(label@),
{
    Encoding::for_label(label)
}

/// The text that decoding `bytes` with `encoding` gives, and whether
/// malformed input was replaced on the way.
pub uninterp spec fn spec_encoding_decode(encoding: &'static Encoding, bytes: Seq<u8>) -> (
    Seq<char>,
    bool,
);

/// Calls `Encoding::decode`, which decodes `bytes` as a whole (sniffing a
/// byte order mark first) and reports whether malformed sequences were
/// replaced. The text itself is not stated: it is the Encoding Standard's
/// decoder for that encoding. It sizes its output at about three times the
/// input and panics when that size overflows, so the input is bounded.
#[verifier::external_body]
pub fn encoding_decode(encoding: &'static Encoding, bytes: &[u8]) -> (r: (String, bool))
    requires
        bytes@.len() * 4 <= isize::MAX,
    ensures
        (r.0@, r.1) == spec_encoding_decode(encoding, bytes@),
{
    let (text, _, had_errors) = encoding.decode(bytes);
    (text.into_owned(), had_errors)
}

/* media types (mime) */

/// The parts of a media type that this library reads: its type, its
/// subtype (both in lower case) and its `boundary` parameter.
pub struct MediaType {
    pub type_: String,
    pub subtype: String,
    pub boundary: Option<String>,
}

impl MediaType {
    pub open spec fn view(&self) -> (Seq<char>, Seq<char>, Option<Seq<char>>) {
        (
            self.type_@,
            self.subtype@,
            match self.boundary {
                Some(b) => Some(b@),
                None => None,
            },
        )
    }
}

/// What reading a text as a media type gives: its parts, or the message of
/// the error that refused it.
pub uninterp spec fn spec_parse_media_type(text: Seq<char>) -> Result<
    (Seq<char>, Seq<char>, Option<Seq<char>>),
    Seq<char>,
>;

/// Calls `str::parse::<mime::Mime>` and reads the result's `type_()`,
/// `subtype()` and `get_param(mime::BOUNDARY)` as text; a refusal is handed
/// back as its message. The grammar it accepts is not stated.
#[verifier::external_body]
pub fn parse_media_type(text: &str) -> (r: Result<MediaType, String>)
    ensures
        match r {
            Ok(m) => spec_parse_media_type(text@) == Ok::<_, Seq<char>>(m.view()),
            Err(e) => spec_parse_media_type(text@) == Err::<
                (Seq<char>, Seq<char>, Option<Seq<char>>),
                _,
            >(e@),
        },
{
    match text.parse::<mime::Mime>() {
        Ok(m) => Ok(
            MediaType {
                type_: m.type_().as_str().to_owned(),
                subtype: m.subtype().as_str().to_owned(),
                boundary: m.get_param(mime::BOUNDARY).map(|b| b.as_str().to_owned()),
            },
        ),
        Err(e) => Err(e.to_string()),
    }
}

/* text (std) */

/// Calls `std::str::from_utf8`, which accepts exactly the valid UTF-8 byte
/// sequences and reads them as the characters they encode.
#[verifier::external_body]
pub fn str_from_utf8(bytes: &[u8]) -> (r: Option<&str>)
    ensures
        r is Some <==> valid_utf8(bytes@),
        r matches Some(s) ==> s@ == decode_utf8(bytes@),
{
    std::str::from_utf8(bytes).ok()
}

/// Calls `String::from_utf8`, which accepts exactly the valid UTF-8 byte
/// sequences and reads them as the characters they encode.
#[verifier::external_body]
pub fn string_from_utf8(bytes: Vec<u8>) -> (r: Option<String>)
    ensures
        r is Some <==> valid_utf8(bytes@),
        r matches Some(s) ==> s@ == decode_utf8(bytes@),
{
    String::from_utf8(bytes).ok()
}

/// `s` with every occurrence of `from` replaced by `to`, scanning from the
/// left and not looking again inside a replacement.
pub open spec fn replace_all(s: Seq<char>, from: Seq<char>, to: Seq<char>) -> Seq<char>
    decreases s.len(),
{
    if from.len() == 0 || s.len() < from.len() {
        s
    } else if s.take(from.len() as int) == from {
        to + replace_all(s.skip(from.len() as int), from, to)
    } else {
        seq![s[0]] + replace_all(s.skip(1), from, to)
    }
}

/// Calls `str::replace`, which replaces every match of a (non-empty)
/// pattern, leftmost first and without overlap.
#[verifier::external_body]
pub fn str_replace(s: &str, from: &str, to: &str) -> (r: String)
    requires
        from@.len() > 0,
    ensures
        r@ == replace_all(s@, from@, to@),
{
    s.replace(from, to)
}

} // verus!
