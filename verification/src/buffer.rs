//! The buffer that multipart data is read through, and the recognition of
//! the boundary lines that separate its fields.
use vstd::prelude::*;
use vstd::slice::slice_subrange;

use bytes::{Bytes, BytesMut};

use crate::constants::CRLF_LEN;
use crate::error::Error;
use crate::outside::{
    bytes_as_slice, bytes_mut_advance, bytes_mut_as_slice, bytes_mut_clear,
    bytes_mut_extend_from_slice, bytes_mut_new, bytes_mut_split_to, bytes_mut_view, bytes_view,
    find_subslice, occurs_at,
};

verus! {

/// How the bytes after a boundary read so far.
#[derive(Debug, Clone, Copy, PartialEq, Eq, Structural)]
pub enum BoundaryMatch {
    /// The boundary line is complete.
    Valid,
    /// More bytes are needed to tell.
    Partial,
    /// The bytes cannot complete a boundary line.
    Invalid,
}

/* searching */

/// The first index at or after `i` where `needle` occurs in `hay`.
pub open spec fn occurrence_from(hay: Seq<u8>, needle: Seq<u8>, i: int) -> Option<int>
    decreases hay.len() + 1 - i,
{
    if i < 0 || i + needle.len() > hay.len() {
        None
    } else if occurs_at(hay, needle, i) {
        Some(i)
    } else {
        occurrence_from(hay, needle, i + 1)
    }
}

/// The first index where `needle` occurs in `hay`.
pub open spec fn first_occurrence(hay: Seq<u8>, needle: Seq<u8>) -> Option<int> {
    occurrence_from(hay, needle, 0)
}

pub proof fn lemma_occurrence_found(hay: Seq<u8>, needle: Seq<u8>, i: int, k: int)
    requires
        0 <= i <= k,
        occurs_at(hay, needle, k),
        forall|j: int| i <= j < k ==> !occurs_at(hay, needle, j),
    ensures
        occurrence_from(hay, needle, i) == Some(k),
    decreases k - i,
{
    if i < k {
        lemma_occurrence_found(hay, needle, i + 1, k);
    }
}

pub proof fn lemma_occurrence_none(hay: Seq<u8>, needle: Seq<u8>, i: int)
    requires
        0 <= i,
        forall|j: int| i <= j ==> !occurs_at(hay, needle, j),
    ensures
        occurrence_from(hay, needle, i) is None,
    decreases hay.len() + 1 - i,
{
    if i + needle.len() <= hay.len() {
        lemma_occurrence_none(hay, needle, i + 1);
    }
}

/// Finds `pattern` in `bytes` (see `first_occurrence`).
pub fn find(bytes: &[u8], pattern: &[u8]) -> (r: Option<usize>)
    ensures
        match r {
            Some(i) => first_occurrence(bytes@, pattern@) == Some(i as int) && i + pattern@.len()
                <= bytes@.len() <= usize::MAX,
            None => first_occurrence(bytes@, pattern@) is None,
        },
{
    let r = find_subslice(bytes, pattern);
    proof {
        assert(bytes@.len() == bytes.len());
        match r {
            Some(i) => lemma_occurrence_found(bytes@, pattern@, 0, i as int),
            None => lemma_occurrence_none(bytes@, pattern@, 0),
        }
    }
    r
}

/* the end of a boundary */

/// A space or a tab: the transport padding allowed after a boundary.
pub open spec fn is_pad(b: u8) -> bool {
    b == 0x20 || b == 0x09
}

/// The first index at or after `i` that does not hold padding.
pub open spec fn skip_pad(s: Seq<u8>, i: int) -> int
    decreases s.len() - i,
{
    if 0 <= i < s.len() && is_pad(s[i]) {
        skip_pad(s, i + 1)
    } else {
        i
    }
}

/// How `bytes` end a boundary line: optional padding, then CR LF; or, when
/// `allow_eof`, the end of the stream.
pub open spec fn spec_match_padding_and_crlf(bytes: Seq<u8>, eof: bool, allow_eof: bool) -> BoundaryMatch {
    let rest = bytes.skip(skip_pad(bytes, 0));
    if rest.len() == 0 {
        if eof && allow_eof {
            BoundaryMatch::Valid
        } else if eof {
            BoundaryMatch::Invalid
        } else {
            BoundaryMatch::Partial
        }
    } else if rest.len() >= 2 && rest[0] == 0x0d && rest[1] == 0x0a {
        BoundaryMatch::Valid
    } else if rest.len() == 1 && rest[0] == 0x0d && !eof {
        BoundaryMatch::Partial
    } else {
        BoundaryMatch::Invalid
    }
}

/// How the bytes of `buf` from `start` on end a boundary: a field boundary
/// ends its line; the closing boundary is followed by `--`, and may then end
/// its line or the stream.
pub open spec fn spec_match_boundary_suffix(buf: Seq<u8>, start: int, eof: bool) -> BoundaryMatch {
    let suffix = buf.skip(start);
    if suffix.len() == 0 {
        if !eof {
            BoundaryMatch::Partial
        } else {
            BoundaryMatch::Invalid
        }
    } else if suffix.len() == 1 && suffix[0] == 0x2d && !eof {
        BoundaryMatch::Partial
    } else if suffix.len() >= 2 && suffix[0] == 0x2d && suffix[1] == 0x2d {
        spec_match_padding_and_crlf(suffix.skip(2), eof, true)
    } else if suffix[0] == 0x2d {
        BoundaryMatch::Invalid
    } else {
        spec_match_padding_and_crlf(suffix, eof, false)
    }
}

/// Tells how `bytes` end a boundary line (see `spec_match_padding_and_crlf`).
pub fn match_padding_and_crlf(bytes: &[u8], eof: bool, allow_eof: bool) -> (r: BoundaryMatch)
    ensures
        r == spec_match_padding_and_crlf(bytes@, eof, allow_eof),
        eof ==> r != BoundaryMatch::Partial,
{
    let mut idx: usize = 0;
    while idx < bytes.len() && (bytes[idx] == 0x20 || bytes[idx] == 0x09)
        invariant
            idx <= bytes@.len(),
            skip_pad(bytes@, idx as int) == skip_pad(bytes@, 0),
        decreases bytes@.len() - idx,
    {
        idx = idx + 1;
    }
    let bytes = slice_subrange(bytes, idx, bytes.len());
    if bytes.len() == 0 {
        return if eof && allow_eof {
            BoundaryMatch::Valid
        } else if eof {
            BoundaryMatch::Invalid
        } else {
            BoundaryMatch::Partial
        };
    }
    if bytes.len() >= 2 && bytes[0] == 0x0d && bytes[1] == 0x0a {
        BoundaryMatch::Valid
    } else if bytes.len() == 1 && bytes[0] == 0x0d && !eof {
        BoundaryMatch::Partial
    } else {
        BoundaryMatch::Invalid
    }
}

/// Tells how the bytes of `buf` from `suffix_start` on end a boundary (see
/// `spec_match_boundary_suffix`).
pub fn match_boundary_suffix(buf: &[u8], suffix_start: usize, eof: bool) -> (r: BoundaryMatch)
    requires
        suffix_start <= buf@.len(),
    ensures
        r == spec_match_boundary_suffix(buf@, suffix_start as int, eof),
        eof ==> r != BoundaryMatch::Partial,
{
    let suffix = slice_subrange(buf, suffix_start, buf.len());
    if suffix.len() == 0 {
        if !eof {
            BoundaryMatch::Partial
        } else {
            BoundaryMatch::Invalid
        }
    } else if suffix.len() == 1 && suffix[0] == 0x2d && !eof {
        BoundaryMatch::Partial
    } else if suffix.len() >= 2 && suffix[0] == 0x2d && suffix[1] == 0x2d {
        match_padding_and_crlf(slice_subrange(suffix, 2, suffix.len()), eof, true)
    } else if suffix[0] == 0x2d {
        BoundaryMatch::Invalid
    } else {
        match_padding_and_crlf(suffix, eof, false)
    }
}

/* the part of a boundary at the end of the buffer */

/// The last `l` bytes of `buf` are the first `l` bytes of `boundary`.
pub open spec fn suffix_is_prefix(buf: Seq<u8>, boundary: Seq<u8>, l: int) -> bool {
    0 <= l <= buf.len() && l <= boundary.len() && buf.skip(buf.len() - l) == boundary.take(l)
}

/// The most bytes at the end of `buf` that could begin `boundary`.
pub open spec fn max_partial_len(buf: Seq<u8>, boundary: Seq<u8>) -> int {
    let b = if boundary.len() == 0 {
        0
    } else {
        boundary.len() - 1
    };
    if buf.len() < b {
        buf.len() as int
    } else {
        b
    }
}

/// The longest suffix of `buf`, at most `l` bytes long, that begins
/// `boundary` (0 when there is none).
pub open spec fn partial_len_from(buf: Seq<u8>, boundary: Seq<u8>, l: int) -> int
    decreases l,
{
    if l <= 0 {
        0
    } else if suffix_is_prefix(buf, boundary, l) {
        l
    } else {
        partial_len_from(buf, boundary, l - 1)
    }
}

/// The longest proper beginning of `boundary` that ends `buf`.
pub open spec fn spec_partial_boundary_suffix_len(buf: Seq<u8>, boundary: Seq<u8>) -> int {
    partial_len_from(buf, boundary, max_partial_len(buf, boundary))
}

/// What `partial_len_from` finds is a suffix that begins the boundary, and
/// no longer one up to `l` is.
pub proof fn lemma_partial_len_from(buf: Seq<u8>, boundary: Seq<u8>, l: int)
    ensures
        ({
            let r = partial_len_from(buf, boundary, l);
            &&& 0 <= r
            &&& r <= l || r == 0
            &&& (r == 0 || suffix_is_prefix(buf, boundary, r))
            &&& forall|m: int| r < m <= l ==> !suffix_is_prefix(buf, boundary, m)
        }),
    decreases l,
{
    if l > 0 && !suffix_is_prefix(buf, boundary, l) {
        lemma_partial_len_from(buf, boundary, l - 1);
    }
}

/// The length of the longest end of `buf` that is a proper beginning of
/// `boundary`: those bytes are kept back, for the boundary may go on in
/// data not read yet.
pub fn partial_boundary_suffix_len(buf: &[u8], boundary: &[u8]) -> (r: usize)
    ensures
        r as int == spec_partial_boundary_suffix_len(buf@, boundary@),
        r as int <= max_partial_len(buf@, boundary@),
        r == 0 || suffix_is_prefix(buf@, boundary@, r as int),
        forall|m: int|
            r < m <= max_partial_len(buf@, boundary@) ==> !suffix_is_prefix(buf@, boundary@, m),
{
    let b = if boundary.len() == 0 {
        0
    } else {
        boundary.len() - 1
    };
    let max_len = if buf.len() < b {
        buf.len()
    } else {
        b
    };
    let mut len = max_len;
    while len >= 1
        invariant
            len <= max_len,
            max_len as int == max_partial_len(buf@, boundary@),
            max_len <= buf@.len(),
            max_len < boundary@.len() || max_len == 0,
            partial_len_from(buf@, boundary@, max_len as int) == partial_len_from(
                buf@,
                boundary@,
                len as int,
            ),
        decreases len,
    {
        let tail = slice_subrange(buf, buf.len() - len, buf.len());
        let head = slice_subrange(boundary, 0, len);
        if crate::constants::bytes_eq(tail, head) {
            proof {
                lemma_partial_len_from(buf@, boundary@, max_len as int);
            }
            return len;
        }
        len = len - 1;
    }
    proof {
        lemma_partial_len_from(buf@, boundary@, max_len as int);
    }
    0
}

/* the buffer */

/// What polling the source stream gave.
pub enum StreamEvent {
    /// A chunk of data.
    Data(Bytes),
    /// The stream failed.
    Failed(Error),
    /// The stream has ended.
    End,
    /// No data is ready yet.
    Pending,
}

/// What to do after handing a poll result to the buffer.
#[derive(Debug, Clone, Copy, PartialEq, Eq, Structural)]
pub enum PollStep {
    /// Poll the stream again at once (the chunk was empty).
    Again,
    /// Data was buffered: wake the task and return.
    Wake,
    /// Return without waking.
    Done,
}

/// The data of a multipart stream that has been received and not read yet.
pub struct StreamBuffer {
    /// The stream has ended.
    pub eof: bool,
    /// The bytes received and not read yet.
    pub buf: BytesMut,
    /// The most bytes the whole stream may carry.
    pub whole_stream_size_limit: u64,
    /// The bytes the stream has carried so far.
    pub stream_size_counter: u64,
}

/// Data handed out at `p` could not be the start of `boundary`, whatever
/// bytes follow it: `s`, the data from there on, already differs from it.
pub open spec fn cannot_begin(s: Seq<u8>, boundary: Seq<u8>) -> bool {
    let n = if s.len() < boundary.len() {
        s.len()
    } else {
        boundary.len()
    };
    s.take(n as int) != boundary.take(n as int)
}

/// An optional name as text.
pub open spec fn opt_name(o: Option<&str>) -> Option<Seq<char>> {
    match o {
        Some(s) => Some(s@),
        None => None,
    }
}

/// `r` is the error for a field whose data ended early.
pub open spec fn is_incomplete_field(r: Error, field_name: Option<&str>) -> bool {
    r matches Error::IncompleteFieldData { field_name: f } && crate::error::opt_text(f)
        == opt_name(field_name)
}

/// One step of reading a field's data out of `buf`, ending in `after`.
///
/// With the boundary in the buffer, the data before it is handed out, and
/// the boundary's line break dropped when its line is complete. Without it,
/// all is handed out but for a last part that could begin the boundary.
/// Without data and at the end of the stream, the field is incomplete.
pub open spec fn field_data_step(
    buf: Seq<u8>,
    eof: bool,
    boundary: Seq<u8>,
    field_name: Option<&str>,
    r: Result<Option<(bool, Bytes)>, Error>,
    after: Seq<u8>,
) -> bool {
    if buf.len() == 0 {
        if eof {
            (r matches Err(e) && is_incomplete_field(e, field_name)) && after == buf
        } else {
            r matches Ok(None) && after == buf
        }
    } else {
        match first_occurrence(buf, boundary) {
            Some(idx) => match spec_match_boundary_suffix(buf, idx + boundary.len(), eof) {
                BoundaryMatch::Valid => {
                    &&& r matches Ok(Some((true, b))) && bytes_view(b) == buf.take(idx)
                    &&& after == buf.skip(idx + 2)
                },
                BoundaryMatch::Partial => if idx == 0 {
                    r matches Ok(None) && after == buf
                } else {
                    &&& r matches Ok(Some((false, b))) && bytes_view(b) == buf.take(idx)
                    &&& after == buf.skip(idx)
                },
                BoundaryMatch::Invalid => r matches Err(Error::IncompleteStream) && after == buf,
            },
            None => if eof {
                (r matches Err(e) && is_incomplete_field(e, field_name)) && after == buf
            } else {
                let readable = buf.len() - spec_partial_boundary_suffix_len(buf, boundary);
                if readable == 0 {
                    r matches Ok(None) && after == buf
                } else {
                    &&& r matches Ok(Some((false, b))) && bytes_view(b) == buf.take(readable)
                    &&& after == buf.skip(readable)
                }
            },
        }
    }
}

impl StreamBuffer {
    /// The bytes received and not read yet.
    pub open spec fn contents(&self) -> Seq<u8> {
        bytes_mut_view(self.buf)
    }

    /// Only the bytes held changed.
    pub open spec fn same_stream_state(&self, other: &Self) -> bool {
        &&& self.eof == other.eof
        &&& self.whole_stream_size_limit == other.whole_stream_size_limit
        &&& self.stream_size_counter == other.stream_size_counter
    }

    /// An empty buffer for a stream that may carry at most
    /// `whole_stream_size_limit` bytes.
    pub fn new(whole_stream_size_limit: u64) -> (r: Self)
        ensures
            !r.eof,
            r.contents() == Seq::<u8>::empty(),
            r.whole_stream_size_limit == whole_stream_size_limit,
            r.stream_size_counter == 0,
    {
        StreamBuffer {
            eof: false,
            buf: bytes_mut_new(),
            whole_stream_size_limit,
            stream_size_counter: 0,
        }
    }

    /// Takes in what one poll of the stream gave: counts and buffers data,
    /// refusing it once the stream carries more than its limit; notes the
    /// end of the stream; passes a failure on. Once the stream has ended
    /// nothing is taken in: the stream is not to be polled again.
    pub fn poll_stream(&mut self, event: StreamEvent) -> (r: Result<PollStep, Error>)
        requires
            !old(self).eof ==> (event matches StreamEvent::Data(d) ==> {
                let count = old(self).stream_size_counter + bytes_view(d).len();
                &&& count <= u64::MAX
                &&& count <= old(self).whole_stream_size_limit ==> old(self).contents().len()
                    + bytes_view(d).len() <= isize::MAX
            }),
        ensures
            final(self).whole_stream_size_limit == old(self).whole_stream_size_limit,
            old(self).eof ==> {
                &&& r == Ok::<PollStep, Error>(PollStep::Done)
                &&& *final(self) == *old(self)
            },
            !old(self).eof ==> match event {
                StreamEvent::Data(d) => {
                    let count = old(self).stream_size_counter + bytes_view(d).len();
                    &&& final(self).stream_size_counter == count
                    &&& final(self).eof == old(self).eof
                    &&& if count > old(self).whole_stream_size_limit {
                        &&& r matches Err(Error::StreamSizeExceeded { limit })
                            && limit == old(self).whole_stream_size_limit
                        &&& final(self).contents() == old(self).contents()
                    } else if bytes_view(d).len() == 0 {
                        r == Ok::<PollStep, Error>(PollStep::Again) && final(self).contents()
                            == old(self).contents()
                    } else {
                        r == Ok::<PollStep, Error>(PollStep::Wake) && final(self).contents()
                            == old(self).contents() + bytes_view(d)
                    }
                },
                StreamEvent::Failed(e) => {
                    &&& r matches Err(f) && f == e
                    &&& final(self).same_stream_state(old(self))
                    &&& final(self).contents() == old(self).contents()
                },
                StreamEvent::End => {
                    &&& r == Ok::<PollStep, Error>(PollStep::Done)
                    &&& final(self).eof
                    &&& final(self).stream_size_counter == old(self).stream_size_counter
                    &&& final(self).contents() == old(self).contents()
                },
                StreamEvent::Pending => {
                    &&& r == Ok::<PollStep, Error>(PollStep::Done)
                    &&& final(self).same_stream_state(old(self))
                    &&& final(self).contents() == old(self).contents()
                },
            },
    {
        if self.eof {
            return Ok(PollStep::Done);
        }
        match event {
            StreamEvent::Data(data) => {
                let bytes = bytes_as_slice(&data);
                self.stream_size_counter = self.stream_size_counter + bytes.len() as u64;
                if self.stream_size_counter > self.whole_stream_size_limit {
                    return Err(Error::StreamSizeExceeded { limit: self.whole_stream_size_limit });
                }
                if bytes.len() == 0 {
                    return Ok(PollStep::Again);
                }
                bytes_mut_extend_from_slice(&mut self.buf, bytes);
                Ok(PollStep::Wake)
            },
            StreamEvent::Failed(err) => Err(err),
            StreamEvent::End => {
                self.eof = true;
                Ok(PollStep::Done)
            },
            StreamEvent::Pending => Ok(PollStep::Done),
        }
    }

    /// Hands out the first `size` bytes, if that many are held.
    pub fn read_exact(&mut self, size: usize) -> (r: Option<Bytes>)
        ensures
            final(self).same_stream_state(old(self)),
            if size <= old(self).contents().len() {
                &&& r matches Some(b) && bytes_view(b) == old(self).contents().take(size as int)
                &&& final(self).contents() == old(self).contents().skip(size as int)
            } else {
                r is None && final(self).contents() == old(self).contents()
            },
    {
        if size <= bytes_mut_as_slice(&self.buf).len() {
            Some(bytes_mut_split_to(&mut self.buf, size))
        } else {
            None
        }
    }

    /// Shows the first `size` bytes, if that many are held.
    pub fn peek_exact(&mut self, size: usize) -> (r: Option<&[u8]>)
        ensures
            *final(self) == *old(self),
            if size <= old(self).contents().len() {
                r matches Some(s) && s@ == old(self).contents().take(size as int)
            } else {
                r is None
            },
    {
        let held = bytes_mut_as_slice(&self.buf);
        if size <= held.len() {
            Some(slice_subrange(held, 0, size))
        } else {
            None
        }
    }

    /// Hands out the bytes up to and including the first `pattern`, if the
    /// pattern is held.
    pub fn read_until(&mut self, pattern: &[u8]) -> (r: Option<Bytes>)
        ensures
            final(self).same_stream_state(old(self)),
            match first_occurrence(old(self).contents(), pattern@) {
                Some(i) => {
                    let end = i + pattern@.len();
                    &&& r matches Some(b) && bytes_view(b) == old(self).contents().take(end)
                    &&& final(self).contents() == old(self).contents().skip(end)
                },
                None => r is None && final(self).contents() == old(self).contents(),
            },
    {
        let held = bytes_mut_as_slice(&self.buf);
        match find(held, pattern) {
            Some(idx) => Some(bytes_mut_split_to(&mut self.buf, idx + pattern.len())),
            None => None,
        }
    }

    /// Hands out the bytes before the first `pattern`, if the pattern is
    /// held.
    pub fn read_to(&mut self, pattern: &[u8]) -> (r: Option<Bytes>)
        ensures
            final(self).same_stream_state(old(self)),
            match first_occurrence(old(self).contents(), pattern@) {
                Some(i) => {
                    &&& r matches Some(b) && bytes_view(b) == old(self).contents().take(i)
                    &&& final(self).contents() == old(self).contents().skip(i)
                },
                None => r is None && final(self).contents() == old(self).contents(),
            },
    {
        match find(bytes_mut_as_slice(&self.buf), pattern) {
            Some(idx) => Some(bytes_mut_split_to(&mut self.buf, idx)),
            None => None,
        }
    }

    /// Drops the spaces and tabs at the start of the held bytes; tells
    /// whether anything else is held.
    pub fn advance_past_transport_padding(&mut self) -> (r: bool)
        ensures
            final(self).same_stream_state(old(self)),
            ({
                let p = skip_pad(old(self).contents(), 0);
                &&& r == (p < old(self).contents().len())
                &&& final(self).contents() == old(self).contents().skip(p)
            }),
    {
        let held = bytes_mut_as_slice(&self.buf);
        let mut pos: usize = 0;
        while pos < held.len() && (held[pos] == 0x20 || held[pos] == 0x09)
            invariant
                pos <= held@.len(),
                skip_pad(held@, pos as int) == skip_pad(held@, 0),
            decreases held@.len() - pos,
        {
            pos = pos + 1;
        }
        if pos < held.len() {
            bytes_mut_advance(&mut self.buf, pos);
            true
        } else {
            bytes_mut_clear(&mut self.buf);
            proof {
                assert(old(self).contents().skip(pos as int) =~= Seq::<u8>::empty());
            }
            false
        }
    }

    /// Reads the next piece of a field's data (see `field_data_step`):
    /// `Some((true, data))` when the data ends at a boundary,
    /// `Some((false, data))` when more may follow, `None` when nothing can
    /// be handed out before more bytes arrive.
    ///
    /// No byte handed out can begin the boundary, whatever bytes arrive
    /// later.
    pub fn read_field_data(&mut self, boundary: &[u8], field_name: Option<&str>) -> (r: Result<
        Option<(bool, Bytes)>,
        Error,
    >)
        ensures
            final(self).same_stream_state(old(self)),
            field_data_step(
                old(self).contents(),
                old(self).eof,
                boundary@,
                field_name,
                r,
                final(self).contents(),
            ),
            r matches Ok(Some((_, b))) ==> forall|p: int|
                0 <= p < bytes_view(b).len() ==> cannot_begin(
                    #[trigger] old(self).contents().skip(p),
                    boundary@,
                ),
    {
        let held = bytes_mut_as_slice(&self.buf);
        let n = held.len();
        if n == 0 && self.eof {
            return Err(Error::IncompleteFieldData { field_name: owned_name(field_name) });
        } else if n == 0 {
            return Ok(None);
        }
        let b_len = boundary.len();
        if let Some(idx) = find(held, boundary) {
            proof {
                lemma_before_first_occurrence(held@, boundary@, idx as int);
            }
            match match_boundary_suffix(held, idx + b_len, self.eof) {
                BoundaryMatch::Valid => {
                    proof {
                        lemma_valid_suffix_len(held@, idx + b_len, self.eof);
                    }
                    let bytes = bytes_mut_split_to(&mut self.buf, idx);
                    // drop the line break that the boundary starts with
                    bytes_mut_advance(&mut self.buf, CRLF_LEN);
                    proof {
                        assert(old(self).contents().skip(idx as int).skip(2) =~= old(
                            self,
                        ).contents().skip(idx + 2));
                    }
                    return Ok(Some((true, bytes)));
                },
                BoundaryMatch::Partial => {
                    if idx == 0 {
                        return Ok(None);
                    }
                    return Ok(Some((false, bytes_mut_split_to(&mut self.buf, idx))));
                },
                BoundaryMatch::Invalid => {
                    return Err(Error::IncompleteStream);
                },
            }
        }
        if self.eof {
            return Err(Error::IncompleteFieldData { field_name: owned_name(field_name) });
        }
        let preserve_len = partial_boundary_suffix_len(held, boundary);
        let readable_len = n - preserve_len;
        proof {
            lemma_before_partial_suffix(held@, boundary@, readable_len as int);
        }
        if readable_len == 0 {
            Ok(None)
        } else {
            Ok(Some((false, bytes_mut_split_to(&mut self.buf, readable_len))))
        }
    }
}

pub proof fn lemma_skip_pad_bounds(s: Seq<u8>, i: int)
    requires
        0 <= i <= s.len(),
    ensures
        i <= skip_pad(s, i) <= s.len(),
    decreases s.len() - i,
{
    if i < s.len() && is_pad(s[i]) {
        lemma_skip_pad_bounds(s, i + 1);
    }
}

/// A complete boundary line leaves at least two bytes after the boundary.
pub proof fn lemma_valid_suffix_len(buf: Seq<u8>, start: int, eof: bool)
    requires
        0 <= start <= buf.len(),
        spec_match_boundary_suffix(buf, start, eof) == BoundaryMatch::Valid,
    ensures
        buf.len() - start >= 2,
{
    let suffix = buf.skip(start);
    lemma_skip_pad_bounds(suffix, 0);
}

fn owned_name(field_name: Option<&str>) -> (r: Option<String>)
    ensures
        crate::error::opt_text(r) == opt_name(field_name),
{
    match field_name {
        Some(s) => Some(s.to_owned()),
        None => None,
    }
}

/// Before the first occurrence of `boundary`, no position begins it.
pub proof fn lemma_before_first_occurrence(buf: Seq<u8>, boundary: Seq<u8>, idx: int)
    requires
        first_occurrence(buf, boundary) == Some(idx),
    ensures
        0 <= idx,
        idx + boundary.len() <= buf.len(),
        forall|p: int| 0 <= p < idx ==> cannot_begin(#[trigger] buf.skip(p), boundary),
{
    lemma_occurrence_first(buf, boundary, 0);
    assert(boundary.take(boundary.len() as int) =~= boundary);
    assert forall|p: int| 0 <= p < idx implies cannot_begin(#[trigger] buf.skip(p), boundary) by {
        assert(!occurs_at(buf, boundary, p));
        assert(buf.skip(p).take(boundary.len() as int) =~= buf.subrange(p, p + boundary.len()));
    }
}

/// `occurrence_from` finds an occurrence, and none before it.
pub proof fn lemma_occurrence_first(hay: Seq<u8>, needle: Seq<u8>, i: int)
    requires
        0 <= i,
    ensures
        occurrence_from(hay, needle, i) matches Some(k) ==> {
            &&& i <= k
            &&& occurs_at(hay, needle, k)
            &&& forall|j: int| i <= j < k ==> !occurs_at(hay, needle, j)
        },
        occurrence_from(hay, needle, i) is None ==> forall|j: int|
            i <= j ==> !occurs_at(hay, needle, j),
    decreases hay.len() + 1 - i,
{
    if i + needle.len() <= hay.len() && !occurs_at(hay, needle, i) {
        lemma_occurrence_first(hay, needle, i + 1);
    }
}

/// When `boundary` occurs nowhere in `buf`, no position before the part
/// kept back begins it.
pub proof fn lemma_before_partial_suffix(buf: Seq<u8>, boundary: Seq<u8>, readable: int)
    requires
        first_occurrence(buf, boundary) is None,
        readable == buf.len() - spec_partial_boundary_suffix_len(buf, boundary),
    ensures
        forall|p: int| 0 <= p < readable ==> cannot_begin(#[trigger] buf.skip(p), boundary),
{
    lemma_occurrence_first(buf, boundary, 0);
    lemma_partial_len_from(buf, boundary, max_partial_len(buf, boundary));
    let keep = spec_partial_boundary_suffix_len(buf, boundary);
    assert(boundary.take(boundary.len() as int) =~= boundary);
    assert forall|p: int| 0 <= p < readable implies cannot_begin(#[trigger] buf.skip(p), boundary) by {
        if buf.len() - p >= boundary.len() {
            assert(!occurs_at(buf, boundary, p));
            assert(buf.skip(p).take(boundary.len() as int) =~= buf.subrange(
                p,
                p + boundary.len(),
            ));
        } else {
            let l = buf.len() - p;
            assert(keep < l <= max_partial_len(buf, boundary));
            assert(!suffix_is_prefix(buf, boundary, l));
            assert(buf.skip(p).take(l) =~= buf.skip(buf.len() - l));
        }
    }
}

/// Padding that stops inside `s` stops at the same place when bytes follow.
pub proof fn lemma_skip_pad_append(s: Seq<u8>, t: Seq<u8>, i: int)
    requires
        0 <= i <= s.len(),
        skip_pad(s, i) < s.len(),
    ensures
        skip_pad(s + t, i) == skip_pad(s, i),
    decreases s.len() - i,
{
    if is_pad(s[i]) {
        lemma_skip_pad_append(s, t, i + 1);
    }
}

/// A line ending told apart before the end of the stream stays so when
/// more bytes arrive.
pub proof fn lemma_padding_decision_final(bytes: Seq<u8>, more: Seq<u8>, eof: bool, allow_eof: bool)
    requires
        spec_match_padding_and_crlf(bytes, false, allow_eof) != BoundaryMatch::Partial,
    ensures
        spec_match_padding_and_crlf(bytes + more, eof, allow_eof) == spec_match_padding_and_crlf(
            bytes,
            false,
            allow_eof,
        ),
{
    lemma_skip_pad_bounds(bytes, 0);
    let p = skip_pad(bytes, 0);
    lemma_skip_pad_append(bytes, more, 0);
    assert((bytes + more).skip(p) =~= bytes.skip(p) + more);
}

/// A boundary decision taken before the end of the stream is final: once
/// the line after a boundary is known complete or broken, no bytes that
/// arrive later, and no end of the stream, change that.
pub proof fn law_boundary_decision_final(buf: Seq<u8>, start: int, more: Seq<u8>, eof: bool)
    requires
        0 <= start <= buf.len(),
        spec_match_boundary_suffix(buf, start, false) != BoundaryMatch::Partial,
    ensures
        spec_match_boundary_suffix(buf + more, start, eof) == spec_match_boundary_suffix(
            buf,
            start,
            false,
        ),
{
    let suffix = buf.skip(start);
    let longer = (buf + more).skip(start);
    assert(longer =~= suffix + more);
    if suffix.len() >= 2 && suffix[0] == 0x2d && suffix[1] == 0x2d {
        assert(longer.skip(2) =~= suffix.skip(2) + more);
        lemma_padding_decision_final(suffix.skip(2), more, eof, true);
    } else if suffix[0] != 0x2d {
        lemma_padding_decision_final(suffix, more, eof, false);
    }
}

/// Every boundary line that is not known complete or broken before the end
/// of the stream can still be completed: a line break (after a `-` when
/// only one has come) completes it.
pub proof fn law_partial_boundary_completable(buf: Seq<u8>, start: int)
    requires
        0 <= start <= buf.len(),
        spec_match_boundary_suffix(buf, start, false) == BoundaryMatch::Partial,
    ensures
        exists|more: Seq<u8>|
            spec_match_boundary_suffix(buf + more, start, false) == BoundaryMatch::Valid,
{
    let suffix = buf.skip(start);
    let crlf: Seq<u8> = seq![0x0du8, 0x0a];
    let lf: Seq<u8> = seq![0x0au8];
    if suffix.len() == 0 {
        assert((buf + crlf).skip(start) =~= crlf);
        lemma_pad_run_then(Seq::<u8>::empty(), crlf);
        assert(Seq::<u8>::empty() + crlf =~= crlf);
        assert(crlf.skip(0) =~= crlf);
        assert(spec_match_boundary_suffix(buf + crlf, start, false) == BoundaryMatch::Valid);
    } else if suffix.len() == 1 && suffix[0] == 0x2d {
        let more: Seq<u8> = seq![0x2du8, 0x0d, 0x0a];
        assert((buf + more).skip(start) =~= seq![0x2du8, 0x2d, 0x0d, 0x0a]);
        assert(seq![0x2du8, 0x2d, 0x0d, 0x0a].skip(2) =~= crlf);
        lemma_pad_run_then(Seq::<u8>::empty(), crlf);
        assert(Seq::<u8>::empty() + crlf =~= crlf);
        assert(crlf.skip(0) =~= crlf);
        assert(spec_match_boundary_suffix(buf + more, start, false) == BoundaryMatch::Valid);
    } else {
        let body = if suffix.len() >= 2 && suffix[0] == 0x2d && suffix[1] == 0x2d {
            suffix.skip(2)
        } else {
            suffix
        };
        lemma_skip_pad_bounds(body, 0);
        let p = skip_pad(body, 0);
        let more = if p < body.len() {
            lf
        } else {
            crlf
        };
        assert((buf + more).skip(start) =~= suffix + more);
        if suffix.len() >= 2 {
            assert((suffix + more).skip(2) =~= suffix.skip(2) + more);
        }
        if p < body.len() {
            lemma_skip_pad_append(body, more, 0);
            assert((body + more).skip(p) =~= body.skip(p) + more);
        } else {
            lemma_pad_run_then(body, more);
            assert((body + more).skip(p) =~= more);
        }
        assert(spec_match_boundary_suffix(buf + more, start, false) == BoundaryMatch::Valid);
    }
}

/// Padding that runs to the end of `s` runs on to the first byte of `t`
/// when `t` starts with a carriage return.
pub proof fn lemma_pad_run_then(s: Seq<u8>, t: Seq<u8>)
    requires
        skip_pad(s, 0) == s.len(),
        t.len() > 0,
        t[0] == 0x0d,
    ensures
        skip_pad(s + t, 0) == s.len(),
{
    lemma_pad_run_then_from(s, t, 0);
}

proof fn lemma_pad_run_then_from(s: Seq<u8>, t: Seq<u8>, i: int)
    requires
        0 <= i <= s.len(),
        skip_pad(s, i) == s.len(),
        t.len() > 0,
        t[0] == 0x0d,
    ensures
        skip_pad(s + t, i) == s.len(),
    decreases s.len() - i,
{
    if i < s.len() {
        lemma_pad_run_then_from(s, t, i + 1);
    } else {
        assert((s + t)[i] == 0x0d);
    }
}

/// Reading field data loses nothing: the bytes handed out, the two bytes
/// dropped after them when the field is complete, and the bytes kept make
/// up the bytes that were held; the bytes dropped are the first two of the
/// boundary (its line break). When nothing is handed out, nothing is kept
/// back or dropped.
pub proof fn law_field_data_loses_nothing(
    buf: Seq<u8>,
    eof: bool,
    boundary: Seq<u8>,
    field_name: Option<&str>,
    r: Result<Option<(bool, Bytes)>, Error>,
    after: Seq<u8>,
)
    requires
        field_data_step(buf, eof, boundary, field_name, r, after),
    ensures
        match r {
            Ok(Some((complete, b))) => {
                let n = bytes_view(b).len() as int;
                if complete {
                    &&& buf == bytes_view(b) + buf.subrange(n, n + 2) + after
                    &&& boundary.len() >= 2 ==> buf.subrange(n, n + 2) == boundary.take(2)
                } else {
                    buf == bytes_view(b) + after
                }
            },
            _ => after == buf,
        },
{
    if buf.len() > 0 {
        match first_occurrence(buf, boundary) {
            Some(idx) => {
                lemma_occurrence_first(buf, boundary, 0);
                let m = spec_match_boundary_suffix(buf, idx + boundary.len(), eof);
                if m == BoundaryMatch::Valid {
                    lemma_valid_suffix_len(buf, idx + boundary.len(), eof);
                    assert(buf =~= buf.take(idx) + buf.subrange(idx, idx + 2) + buf.skip(idx + 2));
                    if boundary.len() >= 2 {
                        assert(buf.subrange(idx, idx + 2) =~= boundary.take(2)) by {
                            assert forall|k: int| 0 <= k < 2 implies buf.subrange(idx, idx + 2)[k]
                                == boundary.take(2)[k] by {
                                assert(buf.subrange(idx, idx + boundary.len())[k] == boundary[k]);
                            }
                        }
                    }
                } else if m == BoundaryMatch::Partial && idx != 0 {
                    assert(buf =~= buf.take(idx) + buf.skip(idx));
                }
            },
            None => {
                if !eof {
                    let readable = buf.len() - spec_partial_boundary_suffix_len(buf, boundary);
                    lemma_partial_len_from(buf, boundary, max_partial_len(buf, boundary));
                    assert(buf =~= buf.take(readable) + buf.skip(readable));
                }
            },
        }
    }
}

/// `tail` completes the line of a boundary: a line break, or `--` and a
/// line break, or `--` at the end of the stream.
pub open spec fn ends_boundary_line(tail: Seq<u8>, eof: bool) -> bool {
    ||| tail.len() >= 2 && tail[0] == 0x0d && tail[1] == 0x0a
    ||| tail.len() >= 4 && tail[0] == 0x2d && tail[1] == 0x2d && tail[2] == 0x0d && tail[3]
        == 0x0a
    ||| eof && tail.len() == 2 && tail[0] == 0x2d && tail[1] == 0x2d
}

/// Data followed by the boundary and a complete boundary line is handed
/// out whole, and marked as the end of the field, whether or not the
/// stream has ended; the two bytes after it (the boundary's line break) are
/// dropped and the rest, from the boundary's remainder on, is kept.
pub proof fn law_complete_boundary_hands_out_data(
    data: Seq<u8>,
    boundary: Seq<u8>,
    tail: Seq<u8>,
    eof: bool,
    field_name: Option<&str>,
    r: Result<Option<(bool, Bytes)>, Error>,
    after: Seq<u8>,
)
    requires
        forall|j: int|
            0 <= j < data.len() ==> #[trigger] (data + boundary + tail).subrange(
                j,
                j + boundary.len(),
            ) != boundary,
        ends_boundary_line(tail, eof),
        field_data_step(data + boundary + tail, eof, boundary, field_name, r, after),
    ensures
        r matches Ok(Some((complete, b))) && complete && bytes_view(b) == data,
        after == (data + boundary + tail).skip(data.len() + 2int),
{
    let buf = data + boundary + tail;
    let idx = data.len() as int;
    assert(buf.subrange(idx, idx + boundary.len()) =~= boundary);
    assert forall|j: int| 0 <= j < idx implies !occurs_at(buf, boundary, j) by {
        assert(buf.subrange(j, j + boundary.len()) != boundary);
    }
    lemma_occurrence_found(buf, boundary, 0, idx);
    let suffix = buf.skip(idx + boundary.len());
    assert(suffix =~= tail);
    assert(buf.take(idx) =~= data);
    if tail.len() >= 2 && tail[0] == 0x0d && tail[1] == 0x0a {
        assert(skip_pad(tail, 0) == 0);
        assert(tail.skip(0) =~= tail);
    } else {
        let rest = tail.skip(2);
        assert(skip_pad(rest, 0) == 0);
        assert(rest.skip(0) =~= rest);
    }
    assert(spec_match_boundary_suffix(buf, idx + boundary.len(), eof) == BoundaryMatch::Valid);
}

/// When the boundary is nowhere in the held bytes: at the end of the stream
/// the field is incomplete (and reported under its name); before the end,
/// every held byte that cannot begin the boundary is handed out as data
/// that more may follow, the rest being kept back.
pub proof fn law_field_data_without_boundary(
    buf: Seq<u8>,
    eof: bool,
    boundary: Seq<u8>,
    field_name: Option<&str>,
    r: Result<Option<(bool, Bytes)>, Error>,
    after: Seq<u8>,
)
    requires
        buf.len() > 0,
        forall|j: int|
            0 <= j && j + boundary.len() <= buf.len() ==> #[trigger] buf.subrange(
                j,
                j + boundary.len(),
            ) != boundary,
        field_data_step(buf, eof, boundary, field_name, r, after),
    ensures
        eof ==> after == buf && (r matches Err(Error::IncompleteFieldData { field_name: f })
            && crate::error::opt_text(f) == opt_name(field_name)),
        !eof ==> {
            &&& after.len() < boundary.len()
            &&& after.len() > 0 ==> boundary.take(after.len() as int) == after
            &&& match r {
                Ok(Some((complete, b))) => !complete && buf == bytes_view(b) + after,
                Ok(None) => after == buf,
                Err(_) => false,
            }
        },
{
    assert forall|j: int| 0 <= j implies !occurs_at(buf, boundary, j) by {
        if j + boundary.len() <= buf.len() {
            assert(buf.subrange(j, j + boundary.len()) != boundary);
        }
    }
    lemma_occurrence_none(buf, boundary, 0);
    if !eof {
        lemma_partial_len_from(buf, boundary, max_partial_len(buf, boundary));
        let keep = spec_partial_boundary_suffix_len(buf, boundary);
        let readable = buf.len() - keep;
        assert(buf =~= buf.take(readable) + buf.skip(readable));
        if keep == 0 {
            assert(buf.skip(buf.len() as int) =~= Seq::<u8>::empty());
        }
        if boundary.len() == 0 {
            assert(buf.subrange(0, 0) =~= boundary);
        }
    }
}

proof fn lemma_skip_pad_run(pad: Seq<u8>, rest: Seq<u8>, i: int)
    requires
        0 <= i <= pad.len(),
        forall|m: int| 0 <= m < pad.len() ==> (#[trigger] pad[m] == 0x20 || pad[m] == 0x09),
        rest.len() > 0,
        rest[0] != 0x20 && rest[0] != 0x09,
    ensures
        skip_pad(pad + rest, i) == pad.len(),
    decreases pad.len() - i,
{
    if i < pad.len() {
        lemma_skip_pad_run(pad, rest, i + 1);
    } else {
        assert((pad + rest)[i] == rest[0]);
    }
}

/// The line after a boundary: spaces and tabs, then a line break, complete
/// it whatever follows and whether or not the stream has ended; after the
/// spaces and tabs, any byte but a carriage return breaks it; the closing
/// `--` may be followed by the same.
pub proof fn law_boundary_line_shapes(pad: Seq<u8>, c: u8, more: Seq<u8>, eof: bool)
    requires
        forall|m: int| 0 <= m < pad.len() ==> (#[trigger] pad[m] == 0x20 || pad[m] == 0x09),
    ensures
        spec_match_padding_and_crlf(pad + seq![0x0du8, 0x0a] + more, eof, false)
            == BoundaryMatch::Valid,
        (c != 0x20 && c != 0x09 && c != 0x0d) ==> spec_match_padding_and_crlf(
            pad + seq![c] + more,
            eof,
            false,
        ) == BoundaryMatch::Invalid,
        spec_match_boundary_suffix(seq![0x2du8, 0x2d] + pad + seq![0x0du8, 0x0a] + more, 0, eof)
            == BoundaryMatch::Valid,
        spec_match_boundary_suffix(seq![0x2du8, 0x2d] + pad, 0, true) == BoundaryMatch::Valid,
        (c != 0x2d && c != 0x20 && c != 0x09 && c != 0x0d) ==> spec_match_boundary_suffix(
            seq![c] + more,
            0,
            eof,
        ) == BoundaryMatch::Invalid,
{
    let crlf = seq![0x0du8, 0x0a] + more;
    lemma_skip_pad_run(pad, crlf, 0);
    assert(pad + seq![0x0du8, 0x0a] + more =~= pad + crlf);
    assert((pad + crlf).skip(pad.len() as int) =~= crlf);
    if c != 0x20 && c != 0x09 && c != 0x0d {
        let cm = seq![c] + more;
        lemma_skip_pad_run(pad, cm, 0);
        assert(pad + seq![c] + more =~= pad + cm);
        assert((pad + cm).skip(pad.len() as int) =~= cm);
        if c != 0x2d {
            lemma_skip_pad_run(Seq::<u8>::empty(), cm, 0);
            assert(Seq::<u8>::empty() + cm =~= cm);
            assert(cm.skip(0) =~= cm);
            assert(cm.skip(0) =~= cm);
        }
    }
    let closing = seq![0x2du8, 0x2d] + pad + seq![0x0du8, 0x0a] + more;
    assert(closing.skip(0) =~= closing);
    assert(closing.skip(2) =~= pad + seq![0x0du8, 0x0a] + more);
    let ended = seq![0x2du8, 0x2d] + pad;
    assert(ended.skip(0) =~= ended);
    assert(ended.skip(2) =~= pad);
    lemma_skip_pad_all(pad, 0);
    assert(pad.skip(pad.len() as int) =~= Seq::<u8>::empty());
}

proof fn lemma_skip_pad_all(pad: Seq<u8>, i: int)
    requires
        0 <= i <= pad.len(),
        forall|m: int| 0 <= m < pad.len() ==> (#[trigger] pad[m] == 0x20 || pad[m] == 0x09),
    ensures
        skip_pad(pad, i) == pad.len(),
    decreases pad.len() - i,
{
    if i < pad.len() {
        lemma_skip_pad_all(pad, i + 1);
    }
}

} // verus!
