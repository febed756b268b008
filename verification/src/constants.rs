//! Constants of the multipart format and the reading of the
//! `Content-Disposition` header's `name` and `filename` parameters.
use vstd::prelude::*;
use vstd::slice::slice_subrange;

use crate::outside::{
    encoding_decode, encoding_for_label, replace_all, spec_encoding_decode, spec_encoding_for_label,
    str_from_utf8, str_replace, string_from_utf8,
};

verus! {

pub const DEFAULT_WHOLE_STREAM_SIZE_LIMIT: u64 = u64::MAX;

pub const DEFAULT_PER_FIELD_SIZE_LIMIT: u64 = u64::MAX;

pub const DEFAULT_HEADERS_SIZE_LIMIT: u64 = u64::MAX;

pub const MAX_HEADERS: usize = 32;

/// The length of the line break (CR LF) that ends a boundary line.
pub const CRLF_LEN: usize = 2;

/* bytes and whitespace */

/// An ASCII whitespace byte: space, tab, line feed, form feed or carriage
/// return.
pub open spec fn is_ws(b: u8) -> bool {
    b == 0x20 || b == 0x09 || b == 0x0a || b == 0x0c || b == 0x0d
}

pub fn is_ascii_whitespace(b: u8) -> (r: bool)
    ensures
        r == is_ws(b),
{
    b == 0x20 || b == 0x09 || b == 0x0a || b == 0x0c || b == 0x0d
}

/// The first index at or after `i` that does not hold whitespace (or the
/// length of `s`).
pub open spec fn skip_ws(s: Seq<u8>, i: int) -> int
    decreases s.len() - i,
{
    if 0 <= i < s.len() && is_ws(s[i]) {
        skip_ws(s, i + 1)
    } else {
        i
    }
}

/// The end of `s[..j]` once the whitespace at its end is dropped.
pub open spec fn ws_trimmed_end(s: Seq<u8>, j: int) -> int
    decreases j,
{
    if 0 < j <= s.len() && is_ws(s[j - 1]) {
        ws_trimmed_end(s, j - 1)
    } else {
        j
    }
}

/// `s` without its leading whitespace.
pub open spec fn spec_trim_start(s: Seq<u8>) -> Seq<u8> {
    s.skip(skip_ws(s, 0))
}

/// `s` without its trailing whitespace.
pub open spec fn spec_trim_end(s: Seq<u8>) -> Seq<u8> {
    s.take(ws_trimmed_end(s, s.len() as int))
}

/// What follows the character `c` that opens `s` once its leading
/// whitespace is dropped, if `c` opens it.
pub open spec fn spec_trim_then(s: Seq<u8>, c: u8) -> Option<Seq<u8>> {
    let t = spec_trim_start(s);
    if t.len() > 0 && t[0] == c {
        Some(t.skip(1))
    } else {
        None
    }
}

/// The index of the first `b` at or after `i` in `s`, or the length of `s`.
pub open spec fn first_byte_from(s: Seq<u8>, b: u8, i: int) -> int
    decreases s.len() - i,
{
    if i < 0 || i >= s.len() {
        s.len() as int
    } else if s[i] == b {
        i
    } else {
        first_byte_from(s, b, i + 1)
    }
}

pub proof fn lemma_skip_ws_bounds(s: Seq<u8>, i: int)
    ensures
        i <= skip_ws(s, i),
        0 <= i <= s.len() ==> skip_ws(s, i) <= s.len(),
        0 <= i ==> (skip_ws(s, i) < s.len() ==> !is_ws(s[skip_ws(s, i)])),
    decreases s.len() - i,
{
    if 0 <= i < s.len() && is_ws(s[i]) {
        lemma_skip_ws_bounds(s, i + 1);
    }
}

pub proof fn lemma_ws_trimmed_end_bounds(s: Seq<u8>, j: int)
    ensures
        ws_trimmed_end(s, j) <= j,
        0 <= j ==> 0 <= ws_trimmed_end(s, j),
    decreases j,
{
    if 0 < j <= s.len() && is_ws(s[j - 1]) {
        lemma_ws_trimmed_end_bounds(s, j - 1);
    }
}

/// When `b` first occurs at `k` (or nowhere, `k` being the length) from
/// `i` on, `first_byte_from` says so.
pub proof fn lemma_first_byte_from(s: Seq<u8>, b: u8, i: int, k: int)
    requires
        0 <= i <= k <= s.len(),
        forall|j: int| i <= j < k ==> s[j] != b,
        k == s.len() || s[k] == b,
    ensures
        first_byte_from(s, b, i) == k,
    decreases k - i,
{
    if i < k {
        lemma_first_byte_from(s, b, i + 1, k);
    }
}

/// Whether `b` occurs in `s`.
pub fn contains_byte(s: &[u8], b: u8) -> (r: bool)
    ensures
        r == s@.contains(b),
{
    let mut i: usize = 0;
    while i < s.len()
        invariant
            i <= s@.len(),
            forall|j: int| 0 <= j < i ==> s@[j] != b,
        decreases s@.len() - i,
    {
        if s[i] == b {
            assert(s@[i as int] == b);
            return true;
        }
        i = i + 1;
    }
    false
}

/// The index of the first `b` at or after `from` in `s`.
pub fn index_of_byte(s: &[u8], b: u8, from: usize) -> (r: Option<usize>)
    requires
        from <= s@.len(),
    ensures
        match r {
            Some(i) => i < s@.len() && i as int == first_byte_from(s@, b, from as int),
            None => first_byte_from(s@, b, from as int) == s@.len(),
        },
{
    let mut i: usize = from;
    while i < s.len()
        invariant
            from <= i <= s@.len(),
            forall|j: int| from <= j < i ==> s@[j] != b,
        decreases s@.len() - i,
    {
        if s[i] == b {
            proof {
                lemma_first_byte_from(s@, b, from as int, i as int);
            }
            return Some(i);
        }
        i = i + 1;
    }
    proof {
        lemma_first_byte_from(s@, b, from as int, s@.len() as int);
    }
    None
}

/// Drops the whitespace at the start of `bytes`.
pub fn trim_ascii_ws_start(bytes: &[u8]) -> (r: &[u8])
    ensures
        r@ == spec_trim_start(bytes@),
{
    let mut i: usize = 0;
    while i < bytes.len() && is_ascii_whitespace(bytes[i])
        invariant
            i <= bytes@.len(),
            skip_ws(bytes@, i as int) == skip_ws(bytes@, 0),
        decreases bytes@.len() - i,
    {
        i = i + 1;
    }
    slice_subrange(bytes, i, bytes.len())
}

/// What follows `c` in `bytes` when `c` is its first byte other than
/// whitespace.
pub fn trim_ascii_ws_then(bytes: &[u8], c: u8) -> (r: Option<&[u8]>)
    ensures
        match r {
            Some(t) => spec_trim_then(bytes@, c) == Some(t@),
            None => spec_trim_then(bytes@, c) is None,
        },
{
    let t = trim_ascii_ws_start(bytes);
    if t.len() > 0 && t[0] == c {
        Some(slice_subrange(t, 1, t.len()))
    } else {
        None
    }
}

/// Drops the whitespace at the end of `bytes`.
pub fn trim_ascii_ws_end(bytes: &[u8]) -> (r: &[u8])
    ensures
        r@ == spec_trim_end(bytes@),
{
    let mut j: usize = bytes.len();
    while j > 0 && is_ascii_whitespace(bytes[j - 1])
        invariant
            j <= bytes@.len(),
            ws_trimmed_end(bytes@, j as int) == ws_trimmed_end(bytes@, bytes@.len() as int),
        decreases j,
    {
        j = j - 1;
    }
    slice_subrange(bytes, 0, j)
}

/* parameters of the header */

/// The index just past the next `;` at or after `i`, or the length of `h`.
pub open spec fn next_param(h: Seq<u8>, i: int) -> int
    decreases h.len() - i,
{
    if i < 0 || i >= h.len() {
        i
    } else if h[i] == 0x3b {
        i + 1
    } else {
        next_param(h, i + 1)
    }
}

/// The end of the parameter name that starts at `i`: the first whitespace,
/// `=` or `;` from `i` on.
pub open spec fn key_end(h: Seq<u8>, i: int) -> int
    decreases h.len() - i,
{
    if 0 <= i < h.len() && !is_ws(h[i]) && h[i] != 0x3d && h[i] != 0x3b {
        key_end(h, i + 1)
    } else {
        i
    }
}

pub proof fn lemma_next_param_bounds(h: Seq<u8>, i: int)
    requires
        0 <= i <= h.len(),
    ensures
        i <= next_param(h, i) <= h.len(),
        i < h.len() ==> i < next_param(h, i),
    decreases h.len() - i,
{
    if i < h.len() && h[i] != 0x3b {
        lemma_next_param_bounds(h, i + 1);
    }
}

pub proof fn lemma_key_end_bounds(h: Seq<u8>, i: int)
    requires
        0 <= i <= h.len(),
    ensures
        i <= key_end(h, i) <= h.len(),
    decreases h.len() - i,
{
    if i < h.len() && !is_ws(h[i]) && h[i] != 0x3d && h[i] != 0x3b {
        lemma_key_end_bounds(h, i + 1);
    }
}

/// Moves `index` past the next `;` (or to the end of the header).
pub fn skip_to_next_parameter(header: &[u8], index: &mut usize)
    ensures
        *final(index) as int == next_param(header@, *old(index) as int),
{
    while *index < header.len() && header[*index] != 0x3b
        invariant
            *index <= header@.len() || *index == *old(index),
            next_param(header@, *index as int) == next_param(header@, *old(index) as int),
        decreases header@.len() - *index,
    {
        *index = *index + 1;
    }
    if *index < header.len() {
        *index = *index + 1;
    }
}

/// Moves `index` past any whitespace.
pub fn skip_ascii_ws(header: &[u8], index: &mut usize)
    ensures
        *final(index) as int == skip_ws(header@, *old(index) as int),
{
    while *index < header.len() && is_ascii_whitespace(header[*index])
        invariant
            *index <= header@.len() || *index == *old(index),
            skip_ws(header@, *index as int) == skip_ws(header@, *old(index) as int),
        decreases header@.len() - *index,
    {
        *index = *index + 1;
    }
}

/// An ASCII letter in lower case.
pub open spec fn to_lower(b: u8) -> u8 {
    if 0x41 <= b <= 0x5a {
        (b + 0x20) as u8
    } else {
        b
    }
}

/// `a` and `b` are equal once ASCII letters are put in lower case.
pub open spec fn eq_ignore_case(a: Seq<u8>, b: Seq<u8>) -> bool {
    a.len() == b.len() && forall|i: int| 0 <= i < a.len() ==> to_lower(a[i]) == to_lower(b[i])
}

/// Compares two byte strings, ignoring the case of ASCII letters.
pub fn eq_ignore_ascii_case(a: &[u8], b: &[u8]) -> (r: bool)
    ensures
        r == eq_ignore_case(a@, b@),
{
    if a.len() != b.len() {
        return false;
    }
    let mut i: usize = 0;
    while i < a.len()
        invariant
            a@.len() == b@.len(),
            i <= a@.len(),
            forall|j: int| 0 <= j < i ==> to_lower(a@[j]) == to_lower(b@[j]),
        decreases a@.len() - i,
    {
        let x = if 0x41 <= a[i] && a[i] <= 0x5a {
            a[i] + 0x20
        } else {
            a[i]
        };
        let y = if 0x41 <= b[i] && b[i] <= 0x5a {
            b[i] + 0x20
        } else {
            b[i]
        };
        if x != y {
            assert(to_lower(a@[i as int]) != to_lower(b@[i as int]));
            return false;
        }
        i = i + 1;
    }
    true
}

/// Where the value of the first parameter named `key` (ignoring case)
/// starts, scanning the header from `i` the way the parameter loop does:
/// the text up to the first `;` is never a parameter, and the scan resumes
/// right after each `=` it passes.
pub open spec fn find_key(h: Seq<u8>, i: int, key: Seq<u8>) -> Option<int>
    decreases h.len() - i,
{
    if i < 0 || i >= h.len() {
        None
    } else {
        let j = skip_ws(h, next_param(h, i));
        if j >= h.len() {
            None
        } else {
            let k = key_end(h, j);
            let e = skip_ws(h, k);
            proof {
                lemma_scan_step(h, i);
            }
            if e >= h.len() {
                None
            } else if h[e] != 0x3d {
                find_key(h, e, key)
            } else if eq_ignore_case(h.subrange(j, k), key) {
                Some(e + 1)
            } else {
                find_key(h, e + 1, key)
            }
        }
    }
}

/// The scan of `find_key` always moves forward.
pub proof fn lemma_scan_step(h: Seq<u8>, i: int)
    requires
        0 <= i < h.len(),
    ensures
        ({
            let j = skip_ws(h, next_param(h, i));
            j < h.len() ==> {
                let k = key_end(h, j);
                let e = skip_ws(h, k);
                i < j <= k <= e <= h.len()
            }
        }),
{
    lemma_next_param_bounds(h, i);
    let n = next_param(h, i);
    lemma_skip_ws_bounds(h, n);
    let j = skip_ws(h, n);
    if j < h.len() {
        lemma_key_end_bounds(h, j);
        lemma_skip_ws_bounds(h, key_end(h, j));
    }
}

/* parameter values */

/// The number of backslashes right before index `q` of `s`.
pub open spec fn backslash_run(s: Seq<u8>, q: int) -> nat
    decreases q,
{
    if 0 < q <= s.len() && s[q - 1] == 0x5c {
        1 + backslash_run(s, q - 1)
    } else {
        0
    }
}

/// A `"` at `q` that is not escaped: an even number of backslashes precede it.
pub open spec fn is_closing_quote(s: Seq<u8>, q: int) -> bool {
    0 <= q < s.len() && s[q] == 0x22 && backslash_run(s, q) % 2 == 0
}

/// The first closing quote at or after `i`, and whether an escaped quote
/// comes before it (or `escaped` already holds).
pub open spec fn closing_quote_from(s: Seq<u8>, i: int, escaped: bool) -> Option<(int, bool)>
    decreases s.len() - i,
{
    if i < 0 || i >= s.len() {
        None
    } else if is_closing_quote(s, i) {
        Some((i, escaped))
    } else {
        closing_quote_from(s, i + 1, escaped || s[i] == 0x22)
    }
}

/// A quoted value: after optional whitespace a `"`, then the text up to the
/// first quote not escaped by a backslash; with it, whether the text holds
/// an escaped quote.
pub open spec fn spec_quoted_value(rest: Seq<u8>) -> Option<(Seq<u8>, bool)> {
    match spec_trim_then(rest, 0x22) {
        None => None,
        Some(body) => match closing_quote_from(body, 0, false) {
            Some((q, escaped)) => Some((body.take(q), escaped)),
            None => None,
        },
    }
}

/// An unquoted value: the text up to the first `;`, without surrounding
/// whitespace.
pub open spec fn spec_unquoted_value(rest: Seq<u8>) -> Seq<u8> {
    let v = spec_trim_start(rest);
    spec_trim_end(v.take(first_byte_from(v, 0x3b, 0)))
}

/// The value that starts `rest`: quoted if it can be read so, else unquoted.
pub open spec fn spec_param_value(rest: Seq<u8>) -> (Seq<u8>, bool) {
    match spec_quoted_value(rest) {
        Some(v) => v,
        None => (spec_unquoted_value(rest), false),
    }
}

/// Reads a quoted value (see `spec_quoted_value`).
pub fn parse_quoted_value(header: &[u8]) -> (r: Option<(&[u8], bool)>)
    ensures
        match r {
            Some((v, escaped)) => spec_quoted_value(header@) == Some((v@, escaped)),
            None => spec_quoted_value(header@) is None,
        },
{
    let text = match trim_ascii_ws_then(header, 0x22) {
        Some(t) => t,
        None => return None,
    };
    let ghost body = text@;
    let start: usize = 0;
    let mut index: usize = start;
    let mut escaped = false;
    while index < text.len()
        invariant
            body == text@,
            start == 0,
            spec_trim_then(header@, 0x22) == Some(body),
            index <= text@.len(),
            closing_quote_from(body, 0, false) == closing_quote_from(body, index as int, escaped),
        decreases text@.len() - index,
    {
        if text[index] == 0x22 {
            let mut backslashes: usize = 0;
            let mut cursor: usize = index;
            while cursor > start && text[cursor - 1] == 0x5c
                invariant
                    body == text@,
                    start == 0,
                    cursor <= index < text@.len(),
                    backslashes == index - cursor,
                    backslash_run(body, index as int) == backslashes + backslash_run(
                        body,
                        cursor as int,
                    ),
                decreases cursor,
            {
                backslashes = backslashes + 1;
                cursor = cursor - 1;
            }
            assert(backslash_run(body, cursor as int) == 0);
            if backslashes % 2 == 0 {
                assert(is_closing_quote(body, index as int));
                return Some((slice_subrange(text, 0, index), escaped));
            }
            escaped = true;
        }
        index = index + 1;
    }
    None
}

/// Reads an unquoted value (see `spec_unquoted_value`).
pub fn parse_unquoted_value(header: &[u8]) -> (r: &[u8])
    ensures
        r@ == spec_unquoted_value(header@),
{
    let value = trim_ascii_ws_start(header);
    let end = match crate::outside::find_byte(0x3b, value) {
        Some(i) => i,
        None => value.len(),
    };
    proof {
        lemma_first_byte_from(value@, 0x3b, 0, end as int);
    }
    trim_ascii_ws_end(slice_subrange(value, 0, end))
}

/* decoding values */

/// The value of an ASCII hexadecimal digit.
pub open spec fn hex_digit(b: u8) -> Option<u8> {
    if 0x30 <= b <= 0x39 {
        Some((b - 0x30) as u8)
    } else if 0x41 <= b <= 0x46 {
        Some((b - 0x41 + 10) as u8)
    } else if 0x61 <= b <= 0x66 {
        Some((b - 0x61 + 10) as u8)
    } else {
        None
    }
}

/// The byte that the two characters after a `%` stand for, read as a
/// base-16 number: two hexadecimal digits, or a `+` sign and one digit.
pub open spec fn hex_pair(hi: u8, lo: u8) -> Option<u8> {
    match (hex_digit(hi), hex_digit(lo)) {
        (Some(h), Some(l)) => Some((h * 16 + l) as u8),
        (None, Some(l)) => if hi == 0x2b {
            Some(l)
        } else {
            None
        },
        _ => None,
    }
}

/// `prefix` put before the bytes of `rest`, if there are any.
pub open spec fn prepend(prefix: Seq<u8>, rest: Option<Seq<u8>>) -> Option<Seq<u8>> {
    match rest {
        Some(t) => Some(prefix + t),
        None => None,
    }
}

/// Percent-decoding of `s` from index `i` on: each `%` and the two bytes
/// after it become the byte they spell; it fails when they spell none or
/// are cut off by the end.
pub open spec fn percent_decode_from(s: Seq<u8>, i: int) -> Option<Seq<u8>>
    decreases s.len() - i,
{
    if i < 0 || i >= s.len() {
        Some(Seq::empty())
    } else if s[i] == 0x25 {
        if i + 2 < s.len() {
            match hex_pair(s[i + 1], s[i + 2]) {
                Some(v) => prepend(seq![v], percent_decode_from(s, i + 3)),
                None => None,
            }
        } else {
            None
        }
    } else {
        prepend(seq![s[i]], percent_decode_from(s, i + 1))
    }
}

/// Percent-decoding of all of `s`.
pub open spec fn spec_percent_decode(s: Seq<u8>) -> Option<Seq<u8>> {
    percent_decode_from(s, 0)
}

/// Bytes without `%` decode to themselves.
pub proof fn lemma_percent_decode_plain(s: Seq<u8>, i: int)
    requires
        0 <= i <= s.len(),
        !s.contains(0x25),
    ensures
        percent_decode_from(s, i) == Some(s.skip(i)),
    decreases s.len() - i,
{
    if i < s.len() {
        assert(s[i] != 0x25) by {
            if s[i] == 0x25 {
                assert(s.contains(0x25));
            }
        }
        lemma_percent_decode_plain(s, i + 1);
        assert(seq![s[i]] + s.skip(i + 1) =~= s.skip(i));
    } else {
        assert(s.skip(i) =~= Seq::<u8>::empty());
    }
}

/// Decoding never makes the bytes longer.
pub proof fn lemma_percent_decode_len(s: Seq<u8>, i: int)
    requires
        0 <= i <= s.len(),
    ensures
        percent_decode_from(s, i) matches Some(d) ==> d.len() <= s.len() - i,
    decreases s.len() - i,
{
    if i < s.len() {
        if s[i] == 0x25 {
            if i + 2 < s.len() {
                lemma_percent_decode_len(s, i + 3);
            }
        } else {
            lemma_percent_decode_len(s, i + 1);
        }
    }
}

fn hex_digit_value(b: u8) -> (r: Option<u8>)
    ensures
        r == hex_digit(b),
{
    if 0x30 <= b && b <= 0x39 {
        Some(b - 0x30)
    } else if 0x41 <= b && b <= 0x46 {
        Some(b - 0x41 + 10)
    } else if 0x61 <= b && b <= 0x66 {
        Some(b - 0x61 + 10)
    } else {
        None
    }
}

/// Reads the two characters after a `%` as a base-16 number.
pub fn hex_pair_value(hi: u8, lo: u8) -> (r: Option<u8>)
    ensures
        r == hex_pair(hi, lo),
{
    match (hex_digit_value(hi), hex_digit_value(lo)) {
        (Some(h), Some(l)) => Some(h * 16 + l),
        (None, Some(l)) => if hi == 0x2b {
            Some(l)
        } else {
            None
        },
        _ => None,
    }
}

/// Percent-decodes `bytes` (see `percent_decode_from`).
pub fn decode_percent_bytes(bytes: &[u8]) -> (r: Option<Vec<u8>>)
    ensures
        match r {
            Some(d) => spec_percent_decode(bytes@) == Some(d@),
            None => spec_percent_decode(bytes@) is None,
        },
{
    if !contains_byte(bytes, 0x25) {
        proof {
            lemma_percent_decode_plain(bytes@, 0);
            assert(bytes@.skip(0) =~= bytes@);
        }
        return Some(vstd::slice::slice_to_vec(bytes));
    }
    let mut decoded: Vec<u8> = Vec::new();
    let mut index: usize = 0;
    while index < bytes.len()
        invariant
            index <= bytes@.len(),
            spec_percent_decode(bytes@) == prepend(decoded@, percent_decode_from(bytes@, index as int)),
        decreases bytes@.len() - index,
    {
        let ghost before = decoded@;
        if bytes[index] == 0x25 {
            if index + 1 >= bytes.len() || index + 2 >= bytes.len() {
                return None;
            }
            let v = match hex_pair_value(bytes[index + 1], bytes[index + 2]) {
                Some(v) => v,
                None => return None,
            };
            decoded.push(v);
            proof {
                match percent_decode_from(bytes@, index + 3) {
                    Some(t) => assert(before + (seq![v] + t) =~= decoded@ + t),
                    None => {},
                }
            }
            index = index + 3;
        } else {
            let b = bytes[index];
            decoded.push(b);
            proof {
                match percent_decode_from(bytes@, index + 1) {
                    Some(t) => assert(before + (seq![b] + t) =~= decoded@ + t),
                    None => {},
                }
            }
            index = index + 1;
        }
    }
    assert(decoded@ + Seq::<u8>::empty() =~= decoded@);
    Some(decoded)
}

/// The two characters `\"`, an escaped quote.
pub open spec fn escaped_quote() -> Seq<char> {
    seq!['\\', '"']
}

/// What a parameter value reads as: with a `%` in it, percent-decoded
/// UTF-8; else UTF-8, with escaped quotes unescaped when the value was a
/// quoted one that held some.
pub open spec fn spec_decode_value(bytes: Seq<u8>, is_escaped: bool) -> Option<Seq<char>> {
    if bytes.contains(0x25) {
        match spec_percent_decode(bytes) {
            Some(d) => if vstd::utf8::valid_utf8(d) {
                Some(vstd::utf8::decode_utf8(d))
            } else {
                None
            },
            None => None,
        }
    } else if vstd::utf8::valid_utf8(bytes) {
        if is_escaped {
            Some(replace_all(vstd::utf8::decode_utf8(bytes), escaped_quote(), seq!['"']))
        } else {
            Some(vstd::utf8::decode_utf8(bytes))
        }
    } else {
        None
    }
}

/// Reads a parameter value as text (see `spec_decode_value`).
pub fn decode_value(bytes: &[u8], is_escaped: bool) -> (r: Option<String>)
    ensures
        match r {
            Some(s) => spec_decode_value(bytes@, is_escaped) == Some(s@),
            None => spec_decode_value(bytes@, is_escaped) is None,
        },
{
    if contains_byte(bytes, 0x25) {
        let decoded = match decode_percent_bytes(bytes) {
            Some(d) => d,
            None => return None,
        };
        return string_from_utf8(decoded);
    }
    let value = match str_from_utf8(bytes) {
        Some(v) => v,
        None => return None,
    };
    if is_escaped {
        proof {
            reveal_strlit("\\\"");
            reveal_strlit("\"");
            assert("\\\""@ =~= escaped_quote());
            assert("\""@ =~= seq!['"']);
        }
        Some(str_replace(value, "\\\"", "\""))
    } else {
        Some(value.to_owned())
    }
}

/// What an extended value (`charset'language'percent-encoded-text`,
/// RFC 5987) reads as: it must be UTF-8 with at least two `'`, its charset
/// must be one the encodings know, and the text must percent-decode and then
/// decode in that charset without errors.
pub open spec fn spec_decode_extended_value(bytes: Seq<u8>) -> Option<Seq<char>> {
    let q1 = first_byte_from(bytes, 0x27, 0);
    let q2 = first_byte_from(bytes, 0x27, q1 + 1);
    if !vstd::utf8::valid_utf8(bytes) || q1 >= bytes.len() || q2 >= bytes.len() {
        None
    } else {
        match spec_encoding_for_label(bytes.take(q1)) {
            None => None,
            Some(encoding) => match spec_percent_decode(bytes.skip(q2 + 1)) {
                None => None,
                Some(d) => {
                    let (text, had_errors) = spec_encoding_decode(encoding, d);
                    if had_errors {
                        None
                    } else {
                        Some(text)
                    }
                },
            },
        }
    }
}

/// Reads an extended value (see `spec_decode_extended_value`).
pub fn decode_extended_value(bytes: &[u8]) -> (r: Option<String>)
    requires
        bytes@.len() * 4 <= isize::MAX,
    ensures
        match r {
            Some(s) => spec_decode_extended_value(bytes@) == Some(s@),
            None => spec_decode_extended_value(bytes@) is None,
        },
{
    if str_from_utf8(bytes).is_none() {
        return None;
    }
    // The text is UTF-8, in which `'` is a byte of its own: its parts are
    // split on that byte.
    let q1 = match index_of_byte(bytes, 0x27, 0) {
        Some(q) => q,
        None => return None,
    };
    let q2 = match index_of_byte(bytes, 0x27, q1 + 1) {
        Some(q) => q,
        None => return None,
    };
    let charset = slice_subrange(bytes, 0, q1);
    let encoded = slice_subrange(bytes, q2 + 1, bytes.len());
    let encoding = match encoding_for_label(charset) {
        Some(e) => e,
        None => return None,
    };
    let decoded = match decode_percent_bytes(encoded) {
        Some(d) => d,
        None => return None,
    };
    proof {
        lemma_percent_decode_len(encoded@, 0);
    }
    let (text, had_errors) = encoding_decode(encoding, decoded.as_slice());
    if had_errors {
        return None;
    }
    Some(text)
}

/// Which parameter of a `Content-Disposition` header is read.
#[derive(Debug, Clone, Copy, PartialEq, Eq, Structural)]
pub enum ContentDispositionAttr {
    Name,
    FileName,
}

/// The bytes of `name`.
pub open spec fn name_key() -> Seq<u8> {
    seq![0x6eu8, 0x61, 0x6d, 0x65]
}

/// The bytes of `filename`.
pub open spec fn filename_key() -> Seq<u8> {
    seq![0x66u8, 0x69, 0x6c, 0x65, 0x6e, 0x61, 0x6d, 0x65]
}

/// The bytes of `filename*`.
pub open spec fn filename_ext_key() -> Seq<u8> {
    filename_key().push(0x2a)
}

impl ContentDispositionAttr {
    /// The parameter name that this attribute is read from.
    pub open spec fn key(self) -> Seq<u8> {
        match self {
            ContentDispositionAttr::Name => name_key(),
            ContentDispositionAttr::FileName => filename_key(),
        }
    }

    /// The extended `filename*` parameter, if it is there and decodes.
    pub open spec fn spec_extract_extended(self, header: Seq<u8>) -> Option<Seq<char>> {
        match self {
            ContentDispositionAttr::Name => None,
            ContentDispositionAttr::FileName => match find_key(header, 0, filename_ext_key()) {
                Some(v) => spec_decode_extended_value(spec_unquoted_value(header.skip(v))),
                None => None,
            },
        }
    }

    /// The attribute as the header gives it: for `FileName` a `filename*`
    /// parameter that decodes is preferred; otherwise the value of the first
    /// parameter with the attribute's name (in any case), decoded.
    pub open spec fn spec_extract(self, header: Seq<u8>) -> Option<Seq<char>> {
        match self.spec_extract_extended(header) {
            Some(v) => Some(v),
            None => match find_key(header, 0, self.key()) {
                Some(v) => {
                    let (bytes, escaped) = spec_param_value(header.skip(v));
                    spec_decode_value(bytes, escaped)
                },
                None => None,
            },
        }
    }

    /// Extract ContentDisposition Attribute from header.
    ///
    /// Some older clients may not quote the name or filename, so we allow
    /// them. If they percent-encode the value, we decode it before returning.
    /// A header read for a filename is bounded in length: the charset
    /// decoder sizes its output from it.
    pub fn extract_from(&self, header: &[u8]) -> (r: Option<String>)
        requires
            *self == ContentDispositionAttr::FileName ==> header@.len() * 4 <= isize::MAX,
        ensures
            match r {
                Some(s) => self.spec_extract(header@) == Some(s@),
                None => self.spec_extract(header@) is None,
            },
    {
        if *self == ContentDispositionAttr::FileName {
            if let Some(value) = self.extract_extended_from(header) {
                return Some(value);
            }
        }
        let prefix: Vec<u8> = match self {
            ContentDispositionAttr::Name => vec![0x6e, 0x61, 0x6d, 0x65],
            ContentDispositionAttr::FileName => vec![0x66, 0x69, 0x6c, 0x65, 0x6e, 0x61, 0x6d, 0x65],
        };
        assert(prefix@ =~= self.key());
        let ghost h = header@;
        let mut index: usize = 0;
        while index < header.len()
            invariant
                h == header@,
                prefix@ == self.key(),
                self.spec_extract_extended(h) is None,
                index <= h.len(),
                find_key(h, 0, prefix@) == find_key(h, index as int, prefix@),
            decreases h.len() - index,
        {
            proof {
                lemma_scan_step(h, index as int);
            }
            let ghost start = index;
            skip_to_next_parameter(header, &mut index);
            proof {
                lemma_next_param_bounds(h, start as int);
            }
            skip_ascii_ws(header, &mut index);
            if index >= header.len() {
                return None;
            }
            let key_start = index;
            while index < header.len() && !is_ascii_whitespace(header[index]) && header[index]
                != 0x3d && header[index] != 0x3b
                invariant
                    h == header@,
                    key_start <= index <= h.len(),
                    key_end(h, index as int) == key_end(h, key_start as int),
                decreases h.len() - index,
            {
                index = index + 1;
            }
            let key = slice_subrange(header, key_start, index);
            skip_ascii_ws(header, &mut index);
            if index >= header.len() || header[index] != 0x3d {
                continue;
            }
            index = index + 1;
            let rest = slice_subrange(header, index, header.len());
            let (bytes, is_escaped) = match parse_quoted_value(rest) {
                Some((value, escaped)) => (value, escaped),
                None => (parse_unquoted_value(rest), false),
            };
            if eq_ignore_ascii_case(key, prefix.as_slice()) {
                return decode_value(bytes, is_escaped);
            }
        }
        None
    }

    /// Extract the extended (`filename*`) form of the attribute, decoded.
    fn extract_extended_from(&self, header: &[u8]) -> (r: Option<String>)
        requires
            *self == ContentDispositionAttr::FileName ==> header@.len() * 4 <= isize::MAX,
        ensures
            match r {
                Some(s) => self.spec_extract_extended(header@) == Some(s@),
                None => self.spec_extract_extended(header@) is None,
            },
    {
        let prefix: Vec<u8> = match self {
            ContentDispositionAttr::Name => return None,
            ContentDispositionAttr::FileName => vec![
                0x66,
                0x69,
                0x6c,
                0x65,
                0x6e,
                0x61,
                0x6d,
                0x65,
                0x2a,
            ],
        };
        assert(prefix@ =~= filename_ext_key());
        let ghost h = header@;
        let mut index: usize = 0;
        while index < header.len()
            invariant
                h == header@,
                h.len() * 4 <= isize::MAX,
                *self == ContentDispositionAttr::FileName,
                prefix@ == filename_ext_key(),
                index <= h.len(),
                find_key(h, 0, prefix@) == find_key(h, index as int, prefix@),
            decreases h.len() - index,
        {
            proof {
                lemma_scan_step(h, index as int);
            }
            let ghost start = index;
            skip_to_next_parameter(header, &mut index);
            proof {
                lemma_next_param_bounds(h, start as int);
            }
            skip_ascii_ws(header, &mut index);
            if index >= header.len() {
                return None;
            }
            let key_start = index;
            while index < header.len() && !is_ascii_whitespace(header[index]) && header[index]
                != 0x3d && header[index] != 0x3b
                invariant
                    h == header@,
                    key_start <= index <= h.len(),
                    key_end(h, index as int) == key_end(h, key_start as int),
                decreases h.len() - index,
            {
                index = index + 1;
            }
            let key = slice_subrange(header, key_start, index);
            skip_ascii_ws(header, &mut index);
            if index >= header.len() || header[index] != 0x3d {
                continue;
            }
            index = index + 1;
            if eq_ignore_ascii_case(key, prefix.as_slice()) {
                let value = parse_unquoted_value(slice_subrange(header, index, header.len()));
                proof {
                    lemma_unquoted_value_len(h.skip(index as int));
                }
                return decode_extended_value(value);
            }
        }
        None
    }
}

/// An unquoted value is no longer than the text it is read from.
pub proof fn lemma_unquoted_value_len(rest: Seq<u8>)
    ensures
        spec_unquoted_value(rest).len() <= rest.len(),
{
    lemma_skip_ws_bounds(rest, 0);
    let v = spec_trim_start(rest);
    let c = first_byte_from(v, 0x3b, 0);
    lemma_first_byte_bounds(v, 0x3b, 0);
    lemma_ws_trimmed_end_bounds(v.take(c), c);
}

pub proof fn lemma_first_byte_bounds(s: Seq<u8>, b: u8, i: int)
    requires
        0 <= i <= s.len(),
    ensures
        i <= first_byte_from(s, b, i) <= s.len(),
    decreases s.len() - i,
{
    if i < s.len() && s[i] != b {
        lemma_first_byte_bounds(s, b, i + 1);
    }
}

/// The parameter asked for is looked up ignoring ASCII case: names that
/// differ only in case find the same parameter.
pub proof fn law_parameter_name_case_ignored(h: Seq<u8>, i: int, key1: Seq<u8>, key2: Seq<u8>)
    requires
        eq_ignore_case(key1, key2),
    ensures
        find_key(h, i, key1) == find_key(h, i, key2),
    decreases h.len() - i,
{
    if 0 <= i < h.len() {
        lemma_scan_step(h, i);
        let j = skip_ws(h, next_param(h, i));
        if j < h.len() {
            let k = key_end(h, j);
            let e = skip_ws(h, k);
            if e < h.len() {
                if h[e] != 0x3d {
                    law_parameter_name_case_ignored(h, e, key1, key2);
                } else {
                    let key = h.subrange(j, k);
                    assert(eq_ignore_case(key, key1) == eq_ignore_case(key, key2));
                    law_parameter_name_case_ignored(h, e + 1, key1, key2);
                }
            }
        }
    }
}

/// Without a `;` the header has no next parameter to scan to.
pub proof fn lemma_next_param_no_semicolon(h: Seq<u8>, i: int)
    requires
        0 <= i <= h.len(),
        !h.contains(0x3b),
    ensures
        next_param(h, i) == h.len(),
    decreases h.len() - i,
{
    if i < h.len() {
        assert(h[i] != 0x3b) by {
            if h[i] == 0x3b {
                assert(h.contains(0x3b));
            }
        }
        lemma_next_param_no_semicolon(h, i + 1);
    }
}

/// The disposition type before the first `;` is never read as a
/// parameter: a header without `;` gives neither attribute.
pub proof fn law_no_parameters_without_semicolon(h: Seq<u8>, attr: ContentDispositionAttr)
    requires
        !h.contains(0x3b),
    ensures
        attr.spec_extract(h) is None,
{
    if h.len() > 0 {
        lemma_next_param_no_semicolon(h, 0);
        lemma_skip_ws_bounds(h, h.len() as int);
    }
}

/// Only a filename has an extended (`filename*`) form.
pub proof fn law_name_has_no_extended_form(h: Seq<u8>)
    ensures
        ContentDispositionAttr::Name.spec_extract_extended(h) is None,
{
}

/// Byte-wise equality of two slices.
pub fn bytes_eq(a: &[u8], b: &[u8]) -> (r: bool)
    ensures
        r == (a@ == b@),
{
    if a.len() != b.len() {
        return false;
    }
    let mut i: usize = 0;
    while i < a.len()
        invariant
            a@.len() == b@.len(),
            i <= a@.len(),
            forall|j: int| 0 <= j < i ==> a@[j] == b@[j],
        decreases a@.len() - i,
    {
        if a[i] != b[i] {
            return false;
        }
        i = i + 1;
    }
    assert(a@ =~= b@);
    true
}

/// The ASCII character of the hexadecimal digit `n` (below 16), in upper
/// case or in lower case.
pub open spec fn hex_char(n: int, upper: bool) -> u8 {
    if n < 10 {
        (0x30 + n) as u8
    } else if upper {
        (0x41 + n - 10) as u8
    } else {
        (0x61 + n - 10) as u8
    }
}

/// Percent-decoding gives back every byte: `%` followed by the two
/// hexadecimal digits of `v` (in either case) decodes to `v`, whatever
/// comes before or after it.
pub proof fn law_percent_escape_decodes_to_its_byte(
    v: u8,
    upper: bool,
    before: Seq<u8>,
    after: Seq<u8>,
)
    requires
        !before.contains(0x25),
    ensures
        ({
            let escape = seq![0x25u8, hex_char(v as int / 16, upper), hex_char(v as int % 16, upper)];
            &&& spec_percent_decode(escape) == Some(seq![v])
            &&& spec_percent_decode(before + escape + after) == prepend(
                before + seq![v],
                spec_percent_decode(after),
            )
        }),
{
    let hi = hex_char(v as int / 16, upper);
    let lo = hex_char(v as int % 16, upper);
    assert(hex_digit(hi) == Some((v / 16) as u8));
    assert(hex_digit(lo) == Some((v % 16) as u8));
    assert(((v / 16) as u8) * 16 + ((v % 16) as u8) == v);
    let escape = seq![0x25u8, hi, lo];
    assert(percent_decode_from(escape, 3) == Some(Seq::<u8>::empty()));
    assert(seq![v] + Seq::<u8>::empty() =~= seq![v]);
    let s = before + escape + after;
    lemma_percent_decode_prefix(before, escape + after, 0);
    assert(s =~= before + (escape + after));
    let t = escape + after;
    assert(t.skip(3) =~= after);
    lemma_percent_decode_shift(t, 3);
    assert(percent_decode_from(t, 0) == prepend(seq![v], spec_percent_decode(after)));
    match spec_percent_decode(after) {
        Some(d) => {
            assert(before + (seq![v] + d) =~= before + seq![v] + d);
        },
        None => {},
    }
}

/// Decoding from index `i` of `s` is decoding all of `s.skip(i)`.
pub proof fn lemma_percent_decode_shift(s: Seq<u8>, i: int)
    requires
        0 <= i <= s.len(),
    ensures
        percent_decode_from(s, i) == spec_percent_decode(s.skip(i)),
    decreases s.len() - i,
{
    lemma_percent_decode_shift_from(s, i, 0);
}

proof fn lemma_percent_decode_shift_from(s: Seq<u8>, i: int, k: int)
    requires
        0 <= i,
        0 <= k,
        i + k <= s.len(),
    ensures
        percent_decode_from(s, i + k) == percent_decode_from(s.skip(i), k),
    decreases s.len() - (i + k),
{
    let t = s.skip(i);
    if i + k < s.len() {
        assert(t[k] == s[i + k]);
        if s[i + k] == 0x25 {
            if i + k + 2 < s.len() {
                assert(t[k + 1] == s[i + k + 1]);
                assert(t[k + 2] == s[i + k + 2]);
                lemma_percent_decode_shift_from(s, i, k + 3);
            }
        } else {
            lemma_percent_decode_shift_from(s, i, k + 1);
        }
    }
}

/// Bytes without `%` before `rest` are kept as they are.
pub proof fn lemma_percent_decode_prefix(plain: Seq<u8>, rest: Seq<u8>, i: int)
    requires
        0 <= i <= plain.len(),
        !plain.contains(0x25),
    ensures
        percent_decode_from(plain + rest, i) == prepend(
            plain.skip(i),
            spec_percent_decode(rest),
        ),
    decreases plain.len() - i,
{
    let s = plain + rest;
    if i < plain.len() {
        assert(plain[i] != 0x25) by {
            if plain[i] == 0x25 {
                assert(plain.contains(0x25));
            }
        }
        assert(s[i] == plain[i]);
        lemma_percent_decode_prefix(plain, rest, i + 1);
        match spec_percent_decode(rest) {
            Some(d) => {
                assert(seq![plain[i]] + (plain.skip(i + 1) + d) =~= plain.skip(i) + d);
            },
            None => {},
        }
    } else {
        assert(s.skip(i) =~= rest);
        lemma_percent_decode_shift(s, i);
        assert(plain.skip(i) =~= Seq::<u8>::empty());
        match spec_percent_decode(rest) {
            Some(d) => {
                assert(Seq::<u8>::empty() + d =~= d);
            },
            None => {},
        }
    }
}

/// A byte that may stand in a parameter name.
pub open spec fn is_key_byte(b: u8) -> bool {
    !is_ws(b) && b != 0x3d && b != 0x3b
}

proof fn lemma_key_end_run(h: Seq<u8>, i: int, k: int)
    requires
        0 <= i <= k < h.len(),
        forall|m: int| i <= m < k ==> is_key_byte(#[trigger] h[m]),
        h[k] == 0x3d,
    ensures
        key_end(h, i) == k,
    decreases k - i,
{
    if i < k {
        lemma_key_end_run(h, i + 1, k);
    }
}

proof fn lemma_next_param_none_from(h: Seq<u8>, i: int)
    requires
        0 <= i <= h.len(),
        forall|m: int| i <= m < h.len() ==> #[trigger] h[m] != 0x3b,
    ensures
        next_param(h, i) == h.len(),
    decreases h.len() - i,
{
    if i < h.len() {
        lemma_next_param_none_from(h, i + 1);
    }
}

proof fn lemma_closing_quote_after_plain(body: Seq<u8>, n: int, k: int)
    requires
        0 <= k <= n,
        body.len() == n + 1,
        body[n] == 0x22,
        forall|m: int| 0 <= m < n ==> #[trigger] body[m] != 0x22 && body[m] != 0x5c,
    ensures
        closing_quote_from(body, k, false) == Some((n, false)),
    decreases n - k,
{
    if k < n {
        lemma_closing_quote_after_plain(body, n, k + 1);
    } else {
        if n > 0 {
            assert(body[n - 1] != 0x5c);
        }
        assert(backslash_run(body, n) == 0);
    }
}

proof fn lemma_ascii_valid_utf8(v: Seq<u8>)
    requires
        forall|m: int| 0 <= m < v.len() ==> #[trigger] v[m] < 0x80,
    ensures
        vstd::utf8::valid_utf8(v),
    decreases v.len(),
{
    if v.len() > 0 {
        assert(vstd::utf8::pop_first_scalar(v) =~= v.skip(1));
        lemma_ascii_valid_utf8(v.skip(1));
    }
}

/// A parameter name written in any case is a run of name bytes.
proof fn lemma_key_any_case_bytes(attr: ContentDispositionAttr, key: Seq<u8>)
    requires
        eq_ignore_case(key, attr.key()),
    ensures
        forall|m: int| 0 <= m < key.len() ==> is_key_byte(#[trigger] key[m]),
        !eq_ignore_case(key, filename_ext_key()),
{
    assert forall|m: int| 0 <= m < key.len() implies is_key_byte(#[trigger] key[m]) by {
        let c = attr.key()[m];
        assert(0x61 <= c <= 0x7a);
        assert(to_lower(key[m]) == to_lower(c));
    }
}

/// The header up to where the value of its only parameter `key` starts,
/// when the value is all that follows.
proof fn lemma_only_parameter_found(
    attr: ContentDispositionAttr,
    key: Seq<u8>,
    h: Seq<u8>,
)
    requires
        eq_ignore_case(key, attr.key()),
        h.len() >= key.len() + 2,
        h[0] == 0x3b,
        h.subrange(1, key.len() + 1int) == key,
        h[key.len() + 1int] == 0x3d,
        forall|m: int| key.len() + 2 <= m < h.len() ==> #[trigger] h[m] != 0x3b,
    ensures
        find_key(h, 0, attr.key()) == Some(key.len() + 2int),
        attr.spec_extract_extended(h) is None,
{
    let k: int = 1 + key.len() as int;
    lemma_key_any_case_bytes(attr, key);
    assert(next_param(h, 0) == 1);
    assert forall|m: int| 1 <= m < k implies is_key_byte(#[trigger] h[m]) by {
        assert(h[m] == h.subrange(1, k)[m - 1]);
    }
    lemma_key_end_run(h, 1, k);
    assert(skip_ws(h, 1) == 1) by {
        if key.len() > 0 {
            assert(h[1] == h.subrange(1, k)[0]);
        }
    }
    assert(skip_ws(h, k) == k);
    if attr == ContentDispositionAttr::FileName {
        lemma_next_param_none_from(h, k + 1);
        lemma_skip_ws_bounds(h, h.len() as int);
        assert(find_key(h, k + 1, filename_ext_key()) is None);
        assert(find_key(h, 0, filename_ext_key()) is None);
    }
}

/// The bytes of a header whose only parameter is `key`, with `value` quoted.
pub open spec fn quoted_parameter(key: Seq<u8>, value: Seq<u8>) -> Seq<u8> {
    seq![0x3bu8] + key + seq![0x3du8, 0x22u8] + value + seq![0x22u8]
}

/// The bytes of a header whose only parameter is `key`, with `value` as it
/// stands.
pub open spec fn unquoted_parameter(key: Seq<u8>, value: Seq<u8>) -> Seq<u8> {
    seq![0x3bu8] + key + seq![0x3du8] + value
}

/// Plain ASCII text: no quote, backslash, percent sign or semicolon.
pub open spec fn plain_text(value: Seq<u8>) -> bool {
    forall|m: int|
        0 <= m < value.len() ==> {
            let c = #[trigger] value[m];
            c < 0x80 && c != 0x22 && c != 0x5c && c != 0x25 && c != 0x3b
        }
}

proof fn lemma_plain_text_decodes(value: Seq<u8>)
    requires
        plain_text(value),
    ensures
        spec_decode_value(value, false) matches Some(s) && vstd::utf8::encode_utf8(s) == value,
{
    assert(!value.contains(0x25)) by {
        if value.contains(0x25) {
            let m = choose|m: int| 0 <= m < value.len() && value[m] == 0x25;
            assert(value[m] != 0x25);
        }
    }
    lemma_ascii_valid_utf8(value);
    vstd::utf8::decode_utf8_encode_utf8(value);
}

/// A plainly quoted value is read as it stands: with the attribute's name
/// (in any case) as the only parameter and its value plain ASCII text, the
/// attribute is exactly that text.
pub proof fn law_quoted_value_read_as_is(
    attr: ContentDispositionAttr,
    key: Seq<u8>,
    value: Seq<u8>,
)
    requires
        eq_ignore_case(key, attr.key()),
        plain_text(value),
    ensures
        attr.spec_extract(quoted_parameter(key, value)) matches Some(s)
            && vstd::utf8::encode_utf8(s) == value,
{
    let h = quoted_parameter(key, value);
    let k: int = 1 + key.len() as int;
    assert(h.subrange(1, k) =~= key);
    assert forall|m: int| k + 1 <= m < h.len() implies #[trigger] h[m] != 0x3b by {
        if m == k + 1 || m == h.len() - 1 {
        } else {
            assert(h[m] == value[m - k - 2]);
        }
    }
    lemma_only_parameter_found(attr, key, h);
    let rest = h.skip(k + 1);
    assert(rest =~= seq![0x22u8] + value + seq![0x22u8]);
    assert(skip_ws(rest, 0) == 0);
    assert(rest.skip(0) =~= rest);
    let body = rest.skip(1);
    assert(body =~= value + seq![0x22u8]);
    assert forall|m: int| 0 <= m < value.len() implies #[trigger] body[m] != 0x22 && body[m]
        != 0x5c by {
        assert(body[m] == value[m]);
    }
    lemma_closing_quote_after_plain(body, value.len() as int, 0);
    assert(body.take(value.len() as int) =~= value);
    lemma_plain_text_decodes(value);
}

/// An unquoted value is read as it stands: with the attribute's name (in
/// any case) as the only parameter and its value plain ASCII text that
/// neither starts nor ends with whitespace, the attribute is exactly that
/// text.
pub proof fn law_unquoted_value_read_as_is(
    attr: ContentDispositionAttr,
    key: Seq<u8>,
    value: Seq<u8>,
)
    requires
        eq_ignore_case(key, attr.key()),
        plain_text(value),
        value.len() > 0 ==> !is_ws(value[0]) && !is_ws(value[value.len() - 1]),
    ensures
        attr.spec_extract(unquoted_parameter(key, value)) matches Some(s)
            && vstd::utf8::encode_utf8(s) == value,
{
    let h = unquoted_parameter(key, value);
    let k: int = 1 + key.len() as int;
    assert(h.subrange(1, k) =~= key);
    assert forall|m: int| k + 1 <= m < h.len() implies #[trigger] h[m] != 0x3b by {
        assert(h[m] == value[m - k - 1]);
    }
    lemma_only_parameter_found(attr, key, h);
    let rest = h.skip(k + 1);
    assert(rest =~= value);
    assert(skip_ws(rest, 0) == 0);
    assert(rest.skip(0) =~= rest);
    assert(spec_quoted_value(rest) is None);
    assert forall|m: int| 0 <= m < value.len() implies #[trigger] value[m] != 0x3b by {}
    lemma_first_byte_from(value, 0x3b, 0, value.len() as int);
    assert(value.take(value.len() as int) =~= value);
    if value.len() > 0 {
        assert(ws_trimmed_end(value, value.len() as int) == value.len());
    }
    lemma_plain_text_decodes(value);
}

/// A `filename*` parameter that decodes is what the filename is, whatever
/// plain `filename` parameters the header also has.
pub proof fn law_extended_filename_preferred(h: Seq<u8>, text: Seq<char>)
    requires
        ContentDispositionAttr::FileName.spec_extract_extended(h) == Some(text),
    ensures
        ContentDispositionAttr::FileName.spec_extract(h) == Some(text),
{
}

} // verus!
