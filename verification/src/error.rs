use vstd::prelude::*;

use crate::constants::bytes_eq;

verus! {

/// The ways in which reading a field's header block can fail, one for each
/// failure that the header tokenizer reports.
#[derive(Debug, Clone, Copy, PartialEq, Eq, Structural)]
pub enum HeaderError {
    HeaderName,
    HeaderValue,
    NewLine,
    Status,
    Token,
    TooManyHeaders,
    Version,
}

/// A set of errors that can occur during parsing multipart stream and in other
/// operations.
///
/// Causes that come from elsewhere are held by their message text, which is
/// also what two errors are compared by.
#[derive(Debug)]
pub enum Error {
    /// An unknown field is detected when multipart constraints are added.
    UnknownField { field_name: Option<String> },
    /// The field data is found incomplete.
    IncompleteFieldData { field_name: Option<String> },
    /// Couldn't read the field headers completely.
    IncompleteHeaders,
    /// Failed to read headers.
    ReadHeaderFailed(HeaderError),
    /// Failed to decode the field's raw header name.
    DecodeHeaderName { name: String, cause: String },
    /// Failed to decode the field's raw header value.
    DecodeHeaderValue { value: Vec<u8>, cause: String },
    /// Multipart stream is incomplete.
    IncompleteStream,
    /// The incoming field size exceeded the maximum limit.
    FieldSizeExceeded { limit: u64, field_name: Option<String> },
    /// The incoming stream size exceeded the maximum limit.
    StreamSizeExceeded { limit: u64 },
    /// The data before the first multipart boundary exceeded the maximum limit.
    PreambleSizeExceeded { limit: u64 },
    /// The incoming field headers exceeded the maximum limit.
    HeadersSizeExceeded { limit: u64 },
    /// Stream read failed.
    StreamReadFailed(String),
    /// Failed to lock the multipart shared state for any changes.
    LockFailure,
    /// The `Content-Type` header is not `multipart/form-data`.
    NoMultipart,
    /// Failed to read the `Content-Type` as a media type.
    DecodeContentType(String),
    /// No boundary found in `Content-Type` header.
    NoBoundary,
    /// The boundary parameter is outside the allowed multipart boundary syntax.
    InvalidBoundary { boundary: String },
}

/// An optional text as a sequence of characters.
pub open spec fn opt_text(o: Option<String>) -> Option<Seq<char>> {
    match o {
        Some(s) => Some(s@),
        None => None,
    }
}

/// Two errors are equal when they are the same variant and carry the same data.
pub open spec fn same_error(a: Error, b: Error) -> bool {
    match (a, b) {
        (Error::UnknownField { field_name: l }, Error::UnknownField { field_name: r }) =>
            opt_text(l) == opt_text(r),
        (Error::IncompleteFieldData { field_name: l }, Error::IncompleteFieldData { field_name: r }) =>
            opt_text(l) == opt_text(r),
        (Error::IncompleteHeaders, Error::IncompleteHeaders) => true,
        (Error::ReadHeaderFailed(l), Error::ReadHeaderFailed(r)) => l == r,
        (
            Error::DecodeHeaderName { name: ln, cause: lc },
            Error::DecodeHeaderName { name: rn, cause: rc },
        ) => ln@ == rn@ && lc@ == rc@,
        (
            Error::DecodeHeaderValue { value: lv, cause: lc },
            Error::DecodeHeaderValue { value: rv, cause: rc },
        ) => lv@ == rv@ && lc@ == rc@,
        (Error::IncompleteStream, Error::IncompleteStream) => true,
        (
            Error::FieldSizeExceeded { limit: ll, field_name: ln },
            Error::FieldSizeExceeded { limit: rl, field_name: rn },
        ) => ll == rl && opt_text(ln) == opt_text(rn),
        (Error::StreamSizeExceeded { limit: l }, Error::StreamSizeExceeded { limit: r }) => l == r,
        (Error::PreambleSizeExceeded { limit: l }, Error::PreambleSizeExceeded { limit: r }) =>
            l == r,
        (Error::HeadersSizeExceeded { limit: l }, Error::HeadersSizeExceeded { limit: r }) => l
            == r,
        (Error::StreamReadFailed(l), Error::StreamReadFailed(r)) => l@ == r@,
        (Error::LockFailure, Error::LockFailure) => true,
        (Error::NoMultipart, Error::NoMultipart) => true,
        (Error::DecodeContentType(l), Error::DecodeContentType(r)) => l@ == r@,
        (Error::NoBoundary, Error::NoBoundary) => true,
        (Error::InvalidBoundary { boundary: l }, Error::InvalidBoundary { boundary: r }) => l@
            == r@,
        _ => false,
    }
}

fn text_eq(a: &String, b: &String) -> (r: bool)
    ensures
        r == (a@ == b@),
{
    a.eq(b)
}

fn opt_text_eq(a: &Option<String>, b: &Option<String>) -> (r: bool)
    ensures
        r == (opt_text(*a) == opt_text(*b)),
{
    match (a, b) {
        (Some(x), Some(y)) => text_eq(x, y),
        (None, None) => true,
        _ => false,
    }
}

impl PartialEq for Error {
    fn eq(&self, other: &Self) -> (r: bool) {
        match (self, other) {
            (Error::UnknownField { field_name: l }, Error::UnknownField { field_name: r }) =>
                opt_text_eq(l, r),
            (
                Error::IncompleteFieldData { field_name: l },
                Error::IncompleteFieldData { field_name: r },
            ) => opt_text_eq(l, r),
            (Error::IncompleteHeaders, Error::IncompleteHeaders) => true,
            (Error::ReadHeaderFailed(l), Error::ReadHeaderFailed(r)) => *l == *r,
            (
                Error::DecodeHeaderName { name: ln, cause: lc },
                Error::DecodeHeaderName { name: rn, cause: rc },
            ) => text_eq(ln, rn) && text_eq(lc, rc),
            (
                Error::DecodeHeaderValue { value: lv, cause: lc },
                Error::DecodeHeaderValue { value: rv, cause: rc },
            ) => bytes_eq(lv.as_slice(), rv.as_slice()) && text_eq(lc, rc),
            (Error::IncompleteStream, Error::IncompleteStream) => true,
            (
                Error::FieldSizeExceeded { limit: ll, field_name: ln },
                Error::FieldSizeExceeded { limit: rl, field_name: rn },
            ) => *ll == *rl && opt_text_eq(ln, rn),
            (Error::StreamSizeExceeded { limit: l }, Error::StreamSizeExceeded { limit: r }) =>
                *l == *r,
            (Error::PreambleSizeExceeded { limit: l }, Error::PreambleSizeExceeded { limit: r }) =>
                *l == *r,
            (Error::HeadersSizeExceeded { limit: l }, Error::HeadersSizeExceeded { limit: r }) =>
                *l == *r,
            (Error::StreamReadFailed(l), Error::StreamReadFailed(r)) => text_eq(l, r),
            (Error::LockFailure, Error::LockFailure) => true,
            (Error::NoMultipart, Error::NoMultipart) => true,
            (Error::DecodeContentType(l), Error::DecodeContentType(r)) => text_eq(l, r),
            (Error::NoBoundary, Error::NoBoundary) => true,
            (Error::InvalidBoundary { boundary: l }, Error::InvalidBoundary { boundary: r }) =>
                text_eq(l, r),
            _ => false,
        }
    }
}

impl vstd::std_specs::cmp::PartialEqSpecImpl for Error {
    open spec fn obeys_eq_spec() -> bool {
        true
    }

    open spec fn eq_spec(&self, other: &Self) -> bool {
        same_error(*self, *other)
    }
}

impl Eq for Error {}

/// Equality of errors is an equivalence: every error equals itself, the
/// order of comparison does not matter, and equal errors are equal to the
/// same errors.
pub proof fn law_error_equality_is_equivalence(a: Error, b: Error, c: Error)
    ensures
        same_error(a, a),
        same_error(a, b) == same_error(b, a),
        same_error(a, b) && same_error(b, c) ==> same_error(a, c),
{
}

/// Errors are equal only when they are the same variant carrying the same
/// data: every field is compared (texts by their characters, bytes by their
/// values), and errors of different variants are never equal.
pub proof fn law_equal_errors_carry_equal_data(a: Error, b: Error)
    ensures
        same_error(a, b) ==> match (a, b) {
            (Error::UnknownField { field_name: l }, Error::UnknownField { field_name: r }) =>
                opt_text(l) == opt_text(r),
            (
                Error::IncompleteFieldData { field_name: l },
                Error::IncompleteFieldData { field_name: r },
            ) => opt_text(l) == opt_text(r),
            (Error::ReadHeaderFailed(l), Error::ReadHeaderFailed(r)) => l == r,
            (
                Error::DecodeHeaderName { name: ln, cause: lc },
                Error::DecodeHeaderName { name: rn, cause: rc },
            ) => ln@ == rn@ && lc@ == rc@,
            (
                Error::DecodeHeaderValue { value: lv, cause: lc },
                Error::DecodeHeaderValue { value: rv, cause: rc },
            ) => lv@ == rv@ && lc@ == rc@,
            (
                Error::FieldSizeExceeded { limit: ll, field_name: ln },
                Error::FieldSizeExceeded { limit: rl, field_name: rn },
            ) => ll == rl && opt_text(ln) == opt_text(rn),
            (Error::StreamSizeExceeded { limit: l }, Error::StreamSizeExceeded { limit: r }) => l
                == r,
            (Error::PreambleSizeExceeded { limit: l }, Error::PreambleSizeExceeded { limit: r }) =>
                l == r,
            (Error::HeadersSizeExceeded { limit: l }, Error::HeadersSizeExceeded { limit: r }) => l
                == r,
            (Error::StreamReadFailed(l), Error::StreamReadFailed(r)) => l@ == r@,
            (Error::DecodeContentType(l), Error::DecodeContentType(r)) => l@ == r@,
            (Error::InvalidBoundary { boundary: l }, Error::InvalidBoundary { boundary: r }) => l@
                == r@,
            (Error::IncompleteHeaders, Error::IncompleteHeaders) => true,
            (Error::IncompleteStream, Error::IncompleteStream) => true,
            (Error::LockFailure, Error::LockFailure) => true,
            (Error::NoMultipart, Error::NoMultipart) => true,
            (Error::NoBoundary, Error::NoBoundary) => true,
            _ => false,
        },
{
}

/// An error whose data reads the same is equal: texts with the same
/// characters, bytes with the same values and equal numbers make equal
/// errors of a variant.
pub proof fn law_errors_with_equal_data_are_equal(
    l1: u64,
    l2: u64,
    n1: Option<String>,
    n2: Option<String>,
    t1: String,
    t2: String,
    v1: Vec<u8>,
    v2: Vec<u8>,
)
    requires
        l1 == l2,
        opt_text(n1) == opt_text(n2),
        t1@ == t2@,
        v1@ == v2@,
    ensures
        same_error(
            Error::FieldSizeExceeded { limit: l1, field_name: n1 },
            Error::FieldSizeExceeded { limit: l2, field_name: n2 },
        ),
        same_error(Error::UnknownField { field_name: n1 }, Error::UnknownField { field_name: n2 }),
        same_error(
            Error::IncompleteFieldData { field_name: n1 },
            Error::IncompleteFieldData { field_name: n2 },
        ),
        same_error(
            Error::DecodeHeaderValue { value: v1, cause: t1 },
            Error::DecodeHeaderValue { value: v2, cause: t2 },
        ),
        same_error(
            Error::DecodeHeaderName { name: t1, cause: t1 },
            Error::DecodeHeaderName { name: t2, cause: t2 },
        ),
        same_error(Error::StreamReadFailed(t1), Error::StreamReadFailed(t2)),
        same_error(Error::DecodeContentType(t1), Error::DecodeContentType(t2)),
        same_error(Error::InvalidBoundary { boundary: t1 }, Error::InvalidBoundary { boundary: t2 }),
        same_error(Error::StreamSizeExceeded { limit: l1 }, Error::StreamSizeExceeded { limit: l2 }),
        same_error(
            Error::PreambleSizeExceeded { limit: l1 },
            Error::PreambleSizeExceeded { limit: l2 },
        ),
        same_error(
            Error::HeadersSizeExceeded { limit: l1 },
            Error::HeadersSizeExceeded { limit: l2 },
        ),
{
}

} // verus!
