//! Slice-based STOMP frame parser (produces owned vectors from input slices).
use vstd::prelude::*;
use vstd::slice::slice_to_vec;
use vstd::utf8::*;
use crate::text::{
    lemma_digit_step, string_push,
    debug_lossy, debug_lossy_text, push_decimal, push_str, decimal_chars, str_chars, str_from_utf8, string_from_chars, trim_chars, trim_ws, utf8_error_text,
};

verus! {

/// Line feed.
pub const LF: u8 = 10;

/// Carriage return.
pub const CR: u8 = 13;

/// NUL, the frame terminator.
pub const NUL: u8 = 0;

/// The header key/value separator.
pub const COLON: u8 = 58;

/// Default upper bound on a single STOMP frame, in bytes (16 MiB).
///
/// A frame larger than this is rejected rather than buffered or allocated, so
/// a malicious or buggy broker cannot exhaust client memory by announcing an
/// enormous frame.
pub const DEFAULT_MAX_FRAME_SIZE: usize = 16 * 1024 * 1024;

// ---------------------------------------------------------------------------
// Specification
// ---------------------------------------------------------------------------

/// The first index `j >= i` at which `s` holds byte `b`.
pub open spec fn find_from(s: Seq<u8>, i: int, b: u8) -> Option<int>
    decreases s.len() - i,
{
    if i < 0 || i >= s.len() {
        None
    } else if s[i] == b {
        Some(i)
    } else {
        find_from(s, i + 1, b)
    }
}

/// The first index `j >= i` that does not hold a line feed.
pub open spec fn skip_lf(s: Seq<u8>, i: int) -> int
    decreases s.len() - i,
{
    if 0 <= i < s.len() && s[i] == LF {
        skip_lf(s, i + 1)
    } else {
        i
    }
}

/// A line without its trailing carriage return, if it has one.
pub open spec fn strip_cr(line: Seq<u8>) -> Seq<u8> {
    if line.len() > 0 && line.last() == CR {
        line.drop_last()
    } else {
        line
    }
}

/// A header as raw key and value bytes.
pub type SpecHeader = (Seq<u8>, Seq<u8>);

/// Outcome of scanning the header block of a frame.
pub enum HeaderScan {
    /// The input ends before the blank line that closes the header block.
    Incomplete,
    /// A header line without a colon.
    Malformed(Seq<u8>),
    /// The headers, and the index just past the blank line.
    Done(Seq<SpecHeader>, int),
}

/// Scans header lines from `pos` on, after the headers `acc` already read.
pub open spec fn scan_headers(s: Seq<u8>, pos: int, acc: Seq<SpecHeader>) -> HeaderScan
    decreases s.len() - pos,
{
    if pos < 0 || pos >= s.len() {
        HeaderScan::Incomplete
    } else if s[pos] == LF {
        HeaderScan::Done(acc, pos + 1)
    } else {
        match find_from(s, pos, LF) {
            None => HeaderScan::Incomplete,
            Some(e) => {
                if e < pos || e >= s.len() {
                    HeaderScan::Incomplete
                } else {
                    let line = strip_cr(s.subrange(pos, e));
                    match find_from(line, 0, COLON) {
                        None => HeaderScan::Malformed(line),
                        Some(c) => scan_headers(
                            s,
                            e + 1,
                            acc.push((line.subrange(0, c), line.subrange(c + 1, line.len() as int))),
                        ),
                    }
                }
            },
        }
    }
}

/// ASCII lower-casing of one byte.
pub open spec fn ascii_lower(b: u8) -> u8 {
    if 65 <= b <= 90 {
        (b + 32) as u8
    } else {
        b
    }
}

/// Byte-sequence equality up to ASCII case (`eq_ignore_ascii_case`).
pub open spec fn bytes_eq_ignore_ascii_case(a: Seq<u8>, b: Seq<u8>) -> bool {
    &&& a.len() == b.len()
    &&& forall|i: int| 0 <= i < a.len() ==> ascii_lower(#[trigger] a[i]) == ascii_lower(b[i])
}

/// The header name `content-length`.
pub open spec fn content_length_name() -> Seq<u8> {
    seq![99u8, 111, 110, 116, 101, 110, 116, 45, 108, 101, 110, 103, 116, 104]
}

/// Why a decimal integer did not parse (as `usize::from_str` reports it).
#[derive(PartialEq, Eq, Structural, Clone, Copy, Debug)]
pub enum IntErrorKind {
    /// A character that is not a decimal digit.
    InvalidDigit,
    /// The value exceeds the integer type.
    PosOverflow,
}

/// The value of decimal digits `d[i..]` appended to `acc`, as `usize::from_str`
/// computes it.
pub open spec fn digits_value(d: Seq<char>, i: int, acc: nat) -> Result<usize, IntErrorKind>
    decreases d.len() - i,
{
    if i < 0 || i >= d.len() {
        Ok(acc as usize)
    } else if !('0' <= d[i] <= '9') {
        Err(IntErrorKind::InvalidDigit)
    } else {
        let a = acc * 10 + (d[i] as nat - 48);
        if a > usize::MAX {
            Err(IntErrorKind::PosOverflow)
        } else {
            digits_value(d, i + 1, a as nat)
        }
    }
}

/// `usize::from_str` on a non-empty string: an optional `+`, then digits.
pub open spec fn parse_usize_chars(t: Seq<char>) -> Result<usize, IntErrorKind> {
    if t.len() == 1 && (t[0] == '+' || t[0] == '-') {
        Err(IntErrorKind::InvalidDigit)
    } else if t.len() > 0 && t[0] == '+' {
        digits_value(t.drop_first(), 0, 0)
    } else {
        digits_value(t, 0, 0)
    }
}

/// Why a `content-length` header value was rejected.
pub enum SpecLengthError {
    /// The value is not valid UTF-8.
    NotUtf8(Seq<u8>),
    /// The value is empty once trimmed.
    Empty,
    /// The trimmed value is not an unsigned integer.
    Invalid(Seq<char>, IntErrorKind),
}

/// The length a `content-length` header value announces.
pub open spec fn content_length_value(v: Seq<u8>) -> Result<usize, SpecLengthError> {
    if !valid_utf8(v) {
        Err(SpecLengthError::NotUtf8(v))
    } else {
        let t = trim_ws(decode_utf8(v));
        if t.len() == 0 {
            Err(SpecLengthError::Empty)
        } else {
            match parse_usize_chars(t) {
                Ok(n) => Ok(n),
                Err(k) => Err(SpecLengthError::Invalid(t, k)),
            }
        }
    }
}

/// The length announced by the first `content-length` header among
/// `h[i..]`, or `None` when there is none.
pub open spec fn find_content_length(h: Seq<SpecHeader>, i: int) -> Result<
    Option<usize>,
    SpecLengthError,
>
    decreases h.len() - i,
{
    if i < 0 || i >= h.len() {
        Ok(None)
    } else if bytes_eq_ignore_ascii_case(h[i].0, content_length_name()) {
        match content_length_value(h[i].1) {
            Ok(n) => Ok(Some(n)),
            Err(e) => Err(e),
        }
    } else {
        find_content_length(h, i + 1)
    }
}

/// Why a frame was rejected.
pub enum SpecFrameError {
    /// A header line without a colon.
    MalformedHeader(Seq<u8>),
    /// A `content-length` header that is not an unsigned integer.
    BadContentLength(SpecLengthError),
    /// A `content-length` above the frame-size bound.
    ContentLengthExceedsMax(usize, usize),
    /// A NUL-terminated body above the frame-size bound.
    BodyExceedsMax(usize, usize),
    /// A `content-length` whose end offset does not fit in `usize`.
    ContentLengthTooLarge,
    /// The byte after a `content-length` body is not NUL.
    MissingNul,
}

/// A parsed frame: command, headers, body and number of bytes consumed.
pub type SpecParsed = (Seq<u8>, Seq<SpecHeader>, Option<Seq<u8>>, int);

/// `pos` advanced past an optional line feed.
pub open spec fn skip_one_lf(s: Seq<u8>, pos: int) -> int {
    if 0 <= pos < s.len() && s[pos] == LF {
        pos + 1
    } else {
        pos
    }
}

/// `Some(body)` unless the body is empty.
pub open spec fn nonempty_body(b: Seq<u8>) -> Option<Seq<u8>> {
    if b.len() == 0 {
        None
    } else {
        Some(b)
    }
}

/// Parsing the body that starts at `pos`, after the given command and headers.
pub open spec fn parse_body(
    s: Seq<u8>,
    max: usize,
    command: Seq<u8>,
    headers: Seq<SpecHeader>,
    pos: int,
) -> Result<Option<SpecParsed>, SpecFrameError> {
    match find_content_length(headers, 0) {
        Err(e) => Err(SpecFrameError::BadContentLength(e)),
        Ok(Some(n)) => {
            if n > max {
                Err(SpecFrameError::ContentLengthExceedsMax(n, max))
            } else if pos + n + 1 > usize::MAX {
                Err(SpecFrameError::ContentLengthTooLarge)
            } else if pos + n + 1 > s.len() {
                Ok(None)
            } else if s[pos + n] != NUL {
                Err(SpecFrameError::MissingNul)
            } else {
                Ok(
                    Some(
                        (command, headers, Some(s.subrange(pos, pos + n)), skip_one_lf(s, pos + n + 1)),
                    ),
                )
            }
        },
        Ok(None) => match find_from(s, pos, NUL) {
            None => Ok(None),
            Some(z) => {
                if z - pos > max {
                    Err(SpecFrameError::BodyExceedsMax((z - pos) as usize, max))
                } else {
                    Ok(
                        Some(
                            (
                                command,
                                headers,
                                nonempty_body(s.subrange(pos, z)),
                                skip_one_lf(s, z + 1),
                            ),
                        ),
                    )
                }
            },
        },
    }
}

/// The STOMP frame at the start of `s`, read with frame-size bound `max`:
/// `Ok(Some(..))` for a whole frame, `Ok(None)` when more bytes are needed,
/// `Err` for a protocol error.
///
/// Leading line feeds (heartbeats) are skipped. The command is the first line,
/// without a trailing carriage return; header lines follow up to a blank line;
/// the body is `content-length` bytes followed by NUL when that header is
/// present, and otherwise runs to the first NUL. A line feed after the NUL is
/// consumed too. Input with no line feed but a NUL is a bare body with empty
/// command and no headers.
pub open spec fn spec_parse_frame(s: Seq<u8>, max: usize) -> Result<
    Option<SpecParsed>,
    SpecFrameError,
> {
    let p0 = skip_lf(s, 0);
    match find_from(s, p0, LF) {
        None => match find_from(s, p0, NUL) {
            None => Ok(None),
            Some(z) => {
                if z - p0 > max {
                    Err(SpecFrameError::BodyExceedsMax((z - p0) as usize, max))
                } else {
                    Ok(
                        Some(
                            (
                                Seq::empty(),
                                Seq::empty(),
                                nonempty_body(s.subrange(p0, z)),
                                skip_one_lf(s, z + 1),
                            ),
                        ),
                    )
                }
            },
        },
        Some(e) => {
            let command = strip_cr(s.subrange(p0, e));
            match scan_headers(s, e + 1, Seq::empty()) {
                HeaderScan::Incomplete => Ok(None),
                HeaderScan::Malformed(line) => Err(SpecFrameError::MalformedHeader(line)),
                HeaderScan::Done(headers, pos) => parse_body(s, max, command, headers, pos),
            }
        },
    }
}

// ---------------------------------------------------------------------------
// Lemmas
// ---------------------------------------------------------------------------

/// What `find_from` finds.
pub proof fn lemma_find_from(s: Seq<u8>, i: int, b: u8)
    requires
        0 <= i,
    ensures
        match find_from(s, i, b) {
            Some(j) => {
                &&& i <= j < s.len()
                &&& s[j] == b
                &&& forall|k: int| i <= k < j ==> s[k] != b
            },
            None => forall|k: int| i <= k < s.len() ==> s[k] != b,
        },
    decreases s.len() - i,
{
    if i < s.len() && s[i] != b {
        lemma_find_from(s, i + 1, b);
    }
}

/// `find_from` is determined by the first byte equal to `b`.
pub proof fn lemma_find_from_char(s: Seq<u8>, i: int, b: u8, j: int)
    requires
        0 <= i <= j < s.len(),
        s[j] == b,
        forall|k: int| i <= k < j ==> s[k] != b,
    ensures
        find_from(s, i, b) == Some(j),
    decreases j - i,
{
    if i < j {
        lemma_find_from_char(s, i + 1, b, j);
    }
}

/// `find_from` is `None` when no byte from `i` on equals `b`.
pub proof fn lemma_find_from_none(s: Seq<u8>, i: int, b: u8)
    requires
        0 <= i,
        forall|k: int| i <= k < s.len() ==> s[k] != b,
    ensures
        find_from(s, i, b) is None,
    decreases s.len() - i,
{
    if i < s.len() {
        lemma_find_from_none(s, i + 1, b);
    }
}

/// Only the bytes from `i` on matter to `find_from`.
pub proof fn lemma_find_from_prefix(s: Seq<u8>, t: Seq<u8>, i: int, b: u8)
    requires
        0 <= i,
        find_from(s, i, b) is Some,
        s.len() <= t.len(),
        forall|k: int| i <= k < s.len() ==> s[k] == t[k],
    ensures
        find_from(t, i, b) == find_from(s, i, b),
    decreases s.len() - i,
{
    if i < s.len() && s[i] != b {
        lemma_find_from_prefix(s, t, i + 1, b);
    }
}

// ---------------------------------------------------------------------------
// Executable parser
// ---------------------------------------------------------------------------

/// The first index `j >= from` at which `s` holds `b`.
pub fn find_byte(s: &[u8], from: usize, b: u8) -> (r: Option<usize>)
    requires
        from <= s@.len(),
    ensures
        match r {
            Some(j) => find_from(s@, from as int, b) == Some(j as int),
            None => find_from(s@, from as int, b) is None,
        },
{
    let mut i = from;
    while i < s.len()
        invariant
            from <= i <= s@.len(),
            find_from(s@, from as int, b) == find_from(s@, i as int, b),
        decreases s@.len() - i,
    {
        if s[i] == b {
            return Some(i);
        }
        i += 1;
    }
    None
}

/// The raw headers of a frame.
pub open spec fn headers_view(h: Seq<(Vec<u8>, Vec<u8>)>) -> Seq<SpecHeader> {
    h.map_values(|p: (Vec<u8>, Vec<u8>)| (p.0@, p.1@))
}

/// Why a `content-length` header value was rejected.
#[derive(PartialEq, Eq, Clone, Debug)]
pub enum LengthError {
    /// The value is not valid UTF-8; the text of the UTF-8 error.
    NotUtf8(String),
    /// The value is empty once trimmed.
    Empty,
    /// The trimmed value, and why it is not an unsigned integer.
    Invalid(String, IntErrorKind),
}

impl View for LengthError {
    type V = SpecLengthError;

    open spec fn view(&self) -> SpecLengthError {
        match self {
            LengthError::NotUtf8(_) => SpecLengthError::NotUtf8(Seq::empty()),
            LengthError::Empty => SpecLengthError::Empty,
            LengthError::Invalid(t, k) => SpecLengthError::Invalid(t@, *k),
        }
    }
}

/// A `LengthError` agrees with the specification's error.
pub open spec fn length_error_matches(e: LengthError, s: SpecLengthError) -> bool {
    match (e, s) {
        (LengthError::NotUtf8(text), SpecLengthError::NotUtf8(v)) => text@ == utf8_error_text(v),
        (LengthError::Empty, SpecLengthError::Empty) => true,
        (LengthError::Invalid(t, k), SpecLengthError::Invalid(t2, k2)) => t@ == t2 && k == k2,
        _ => false,
    }
}

/// Why a frame was rejected.
#[derive(PartialEq, Eq, Clone, Debug)]
pub enum FrameError {
    /// A header line without a colon (the line, without trailing CR).
    MalformedHeader(Vec<u8>),
    /// A `content-length` header that is not an unsigned integer.
    BadContentLength(LengthError),
    /// The announced `content-length` and the bound it exceeds.
    ContentLengthExceedsMax(usize, usize),
    /// The NUL-terminated body length and the bound it exceeds.
    BodyExceedsMax(usize, usize),
    /// A `content-length` whose end offset does not fit in `usize`.
    ContentLengthTooLarge,
    /// The byte after a `content-length` body is not NUL.
    MissingNul,
}

/// A `FrameError` agrees with the specification's error.
pub open spec fn frame_error_matches(e: FrameError, s: SpecFrameError) -> bool {
    match (e, s) {
        (FrameError::MalformedHeader(l), SpecFrameError::MalformedHeader(l2)) => l@ == l2,
        (FrameError::BadContentLength(le), SpecFrameError::BadContentLength(le2)) =>
            length_error_matches(le, le2),
        (
            FrameError::ContentLengthExceedsMax(a, b),
            SpecFrameError::ContentLengthExceedsMax(a2, b2),
        ) => a == a2 && b == b2,
        (FrameError::BodyExceedsMax(a, b), SpecFrameError::BodyExceedsMax(a2, b2)) => a == a2 && b
            == b2,
        (FrameError::ContentLengthTooLarge, SpecFrameError::ContentLengthTooLarge) => true,
        (FrameError::MissingNul, SpecFrameError::MissingNul) => true,
        _ => false,
    }
}

/// A parsed frame: command, headers, optional body, bytes consumed.
pub type ParsedFrame = (Vec<u8>, Vec<(Vec<u8>, Vec<u8>)>, Option<Vec<u8>>, usize);

/// A parsed frame agrees with the specification's.
pub open spec fn parsed_matches(p: ParsedFrame, s: SpecParsed) -> bool {
    &&& p.0@ == s.0
    &&& headers_view(p.1@) == s.1
    &&& match (p.2, s.2) {
        (Some(b), Some(b2)) => b@ == b2,
        (None, None) => true,
        _ => false,
    }
    &&& p.3 as int == s.3
}

/// A scan result agrees with the specification's.
pub open spec fn scan_matches(
    r: Result<Option<ParsedFrame>, FrameError>,
    s: Result<Option<SpecParsed>, SpecFrameError>,
) -> bool {
    match (r, s) {
        (Ok(Some(p)), Ok(Some(q))) => parsed_matches(p, q),
        (Ok(None), Ok(None)) => true,
        (Err(e), Err(f)) => frame_error_matches(e, f),
        _ => false,
    }
}

/// Whether `k` is `content-length`, in any ASCII case.
pub fn is_content_length_key(k: &[u8]) -> (r: bool)
    ensures
        r == bytes_eq_ignore_ascii_case(k@, content_length_name()),
{
    let name: [u8; 14] = [99, 111, 110, 116, 101, 110, 116, 45, 108, 101, 110, 103, 116, 104];
    assert(name@ =~= content_length_name());
    if k.len() != 14 {
        return false;
    }
    let mut i: usize = 0;
    while i < 14
        invariant
            i <= 14,
            k@.len() == 14,
            name@ == content_length_name(),
            forall|j: int| 0 <= j < i ==> ascii_lower(#[trigger] k@[j]) == ascii_lower(name@[j]),
        decreases 14 - i,
    {
        let a = k[i];
        let la = if 65 <= a && a <= 90 {
            a + 32
        } else {
            a
        };
        let b = name[i];
        let lb = if 65 <= b && b <= 90 {
            b + 32
        } else {
            b
        };
        if la != lb {
            return false;
        }
        i += 1;
    }
    true
}

/// Parses decimal digits `d[i..]` after the value `acc` already read.
fn parse_digits(d: &[char], start: usize) -> (r: Result<usize, IntErrorKind>)
    requires
        start <= d@.len(),
    ensures
        r == digits_value(d@, start as int, 0),
{
    let mut acc: usize = 0;
    let mut i = start;
    while i < d.len()
        invariant
            start <= i <= d@.len(),
            digits_value(d@, start as int, 0) == digits_value(d@, i as int, acc as nat),
        decreases d@.len() - i,
    {
        let c = d[i];
        if !('0' <= c && c <= '9') {
            return Err(IntErrorKind::InvalidDigit);
        }
        let v = (c as u32 - 48) as usize;
        if acc > (usize::MAX - v) / 10 {
            proof {
                lemma_digit_step(acc as int, v as int, usize::MAX as int);
            }
            return Err(IntErrorKind::PosOverflow);
        }
        proof {
            lemma_digit_step(acc as int, v as int, usize::MAX as int);
        }
        acc = acc * 10 + v;
        i += 1;
    }
    Ok(acc)
}

/// `usize::from_str` on a non-empty character sequence.
fn parse_usize(t: &[char]) -> (r: Result<usize, IntErrorKind>)
    requires
        t@.len() > 0,
    ensures
        r == parse_usize_chars(t@),
{
    if t.len() == 1 && (t[0] == '+' || t[0] == '-') {
        return Err(IntErrorKind::InvalidDigit);
    }
    if t[0] == '+' {
        let r = parse_digits(t, 1);
        proof {
            lemma_digits_shift(t@, 1);
        }
        r
    } else {
        parse_digits(t, 0)
    }
}

proof fn lemma_digits_shift(t: Seq<char>, k: int)
    requires
        0 <= k <= t.len(),
    ensures
        digits_value(t, k, 0) == digits_value(t.subrange(k, t.len() as int), 0, 0),
{
    lemma_digits_shift_acc(t, k, k, 0);
}

proof fn lemma_digits_shift_acc(t: Seq<char>, k: int, i: int, acc: nat)
    requires
        0 <= k <= i <= t.len(),
    ensures
        digits_value(t, i, acc) == digits_value(t.subrange(k, t.len() as int), i - k, acc),
    decreases t.len() - i,
{
    let u = t.subrange(k, t.len() as int);
    if i < t.len() {
        assert(u[i - k] == t[i]);
        if '0' <= t[i] <= '9' {
            let a = acc * 10 + (t[i] as nat - 48);
            if a <= usize::MAX {
                lemma_digits_shift_acc(t, k, i + 1, a as nat);
            }
        }
    }
}

/// The length a `content-length` header value announces.
pub fn parse_content_length_value(v: &[u8]) -> (r: Result<usize, LengthError>)
    ensures
        match (r, content_length_value(v@)) {
            (Ok(n), Ok(m)) => n == m,
            (Err(e), Err(f)) => length_error_matches(e, f),
            _ => false,
        },
{
    match str_from_utf8(v) {
        Err(text) => Err(LengthError::NotUtf8(text)),
        Ok(s) => {
            let chars = str_chars(s);
            let t = trim_chars(chars.as_slice());
            if t.len() == 0 {
                return Err(LengthError::Empty);
            }
            match parse_usize(t.as_slice()) {
                Ok(n) => Ok(n),
                Err(k) => Err(LengthError::Invalid(string_from_chars(t.as_slice()), k)),
            }
        },
    }
}

/// Extracts the optional `content-length` from a header list.
///
/// `Ok(Some(n))` when the first `content-length` header (in any ASCII case)
/// holds a valid unsigned integer, `Ok(None)` when there is no such header,
/// and `Err` when its value is not an unsigned integer.
pub fn get_content_length(headers: &[(Vec<u8>, Vec<u8>)]) -> (r: Result<Option<usize>, LengthError>)
    ensures
        match (r, find_content_length(headers_view(headers@), 0)) {
            (Ok(a), Ok(b)) => a == b,
            (Err(e), Err(f)) => length_error_matches(e, f),
            _ => false,
        },
{
    let ghost hv = headers_view(headers@);
    let mut i: usize = 0;
    while i < headers.len()
        invariant
            i <= headers@.len(),
            hv == headers_view(headers@),
            find_content_length(hv, 0) == find_content_length(hv, i as int),
        decreases headers@.len() - i,
    {
        assert(hv[i as int] == (headers@[i as int].0@, headers@[i as int].1@));
        if is_content_length_key(headers[i].0.as_slice()) {
            return match parse_content_length_value(headers[i].1.as_slice()) {
                Ok(n) => Ok(Some(n)),
                Err(e) => Err(e),
            };
        }
        i += 1;
    }
    Ok(None)
}

/// Skips the leading line feeds from `from` on.
fn skip_lfs(s: &[u8], from: usize) -> (r: usize)
    requires
        from <= s@.len(),
    ensures
        r as int == skip_lf(s@, from as int),
        r <= s@.len(),
{
    let mut i = from;
    while i < s.len() && s[i] == LF
        invariant
            from <= i <= s@.len(),
            skip_lf(s@, from as int) == skip_lf(s@, i as int),
        decreases s@.len() - i,
    {
        i += 1;
    }
    i
}

/// `pos` advanced past an optional line feed.
fn skip_optional_lf(s: &[u8], pos: usize) -> (r: usize)
    requires
        pos <= s@.len(),
    ensures
        r as int == skip_one_lf(s@, pos as int),
{
    if pos < s.len() && s[pos] == LF {
        pos + 1
    } else {
        pos
    }
}

/// `Some(body)` unless the body is empty.
fn body_option(b: Vec<u8>) -> (r: Option<Vec<u8>>)
    ensures
        match (r, nonempty_body(b@)) {
            (Some(x), Some(y)) => x@ == y,
            (None, None) => true,
            _ => false,
        },
{
    if b.len() == 0 {
        None
    } else {
        Some(b)
    }
}

/// Reads the header block that starts at `start`.
fn read_headers(input: &[u8], start: usize) -> (r: Result<
    Option<(Vec<(Vec<u8>, Vec<u8>)>, usize)>,
    FrameError,
>)
    requires
        start <= input@.len(),
    ensures
        match (r, scan_headers(input@, start as int, Seq::empty())) {
            (Ok(None), HeaderScan::Incomplete) => true,
            (Err(FrameError::MalformedHeader(l)), HeaderScan::Malformed(l2)) => l@ == l2,
            (Ok(Some((h, p))), HeaderScan::Done(h2, p2)) => headers_view(h@) == h2 && p as int
                == p2 && p <= input@.len(),
            _ => false,
        },
{
    let mut headers: Vec<(Vec<u8>, Vec<u8>)> = Vec::new();
    let mut pos = start;
    let len = input.len();
    assert(headers_view(headers@) =~= Seq::<SpecHeader>::empty());
    loop
        invariant
            start <= pos <= len,
            len == input@.len(),
            scan_headers(input@, pos as int, headers_view(headers@)) == scan_headers(
                input@,
                start as int,
                Seq::empty(),
            ),
        decreases len - pos,
    {
        if pos >= len {
            return Ok(None);
        }
        if input[pos] == LF {
            return Ok(Some((headers, pos + 1)));
        }
        let e = match find_byte(input, pos, LF) {
            None => {
                return Ok(None);
            },
            Some(e) => e,
        };
        proof {
            lemma_find_from(input@, pos as int, LF);
        }
        let mut line_end = e;
        if e > pos && input[e - 1] == CR {
            line_end = e - 1;
        }
        let line = &input[pos..line_end];
        assert(line@ == strip_cr(input@.subrange(pos as int, e as int)));
        match find_byte(line, 0, COLON) {
            None => {
                return Err(FrameError::MalformedHeader(slice_to_vec(line)));
            },
            Some(c) => {
                proof {
                    lemma_find_from(line@, 0, COLON);
                }
                let key = slice_to_vec(&line[0..c]);
                let val = slice_to_vec(&line[c + 1..line.len()]);
                let ghost old_h = headers@;
                headers.push((key, val));
                assert(headers_view(headers@) =~= headers_view(old_h).push(
                    (line@.subrange(0, c as int), line@.subrange(c + 1, line@.len() as int)),
                ));
                pos = e + 1;
            },
        }
    }
}

/// Reads the body that starts at `pos`.
fn read_body(
    input: &[u8],
    max_frame_size: usize,
    command: Vec<u8>,
    headers: Vec<(Vec<u8>, Vec<u8>)>,
    pos: usize,
) -> (r: Result<Option<ParsedFrame>, FrameError>)
    requires
        pos <= input@.len(),
    ensures
        scan_matches(r, parse_body(input@, max_frame_size, command@, headers_view(headers@), pos as int)),
{
    let len = input.len();
    match get_content_length(headers.as_slice()) {
        Err(e) => Err(FrameError::BadContentLength(e)),
        Ok(Some(content_len)) => {
            if content_len > max_frame_size {
                return Err(FrameError::ContentLengthExceedsMax(content_len, max_frame_size));
            }
            if content_len > usize::MAX - pos || pos + content_len > usize::MAX - 1 {
                return Err(FrameError::ContentLengthTooLarge);
            }
            let needed = pos + content_len + 1;
            if needed > len {
                Ok(None)
            } else {
                let body = slice_to_vec(&input[pos..pos + content_len]);
                let end = pos + content_len;
                if input[end] != NUL {
                    Err(FrameError::MissingNul)
                } else {
                    let consumed = skip_optional_lf(input, end + 1);
                    Ok(Some((command, headers, Some(body), consumed)))
                }
            }
        },
        Ok(None) => match find_byte(input, pos, NUL) {
            Some(z) => {
                proof {
                    lemma_find_from(input@, pos as int, NUL);
                }
                if z - pos > max_frame_size {
                    return Err(FrameError::BodyExceedsMax(z - pos, max_frame_size));
                }
                let body = body_option(slice_to_vec(&input[pos..z]));
                let consumed = skip_optional_lf(input, z + 1);
                Ok(Some((command, headers, body, consumed)))
            },
            None => Ok(None),
        },
    }
}

/// Parses one STOMP frame from the start of `input`, bounding the frame size
/// at `max_frame_size`.
pub fn scan_frame(input: &[u8], max_frame_size: usize) -> (r: Result<
    Option<ParsedFrame>,
    FrameError,
>)
    ensures
        scan_matches(r, spec_parse_frame(input@, max_frame_size)),
{
    let len = input.len();
    let p0 = skip_lfs(input, 0);
    match find_byte(input, p0, LF) {
        None => match find_byte(input, p0, NUL) {
            None => Ok(None),
            Some(z) => {
                proof {
                    lemma_find_from(input@, p0 as int, NUL);
                }
                if z - p0 > max_frame_size {
                    return Err(FrameError::BodyExceedsMax(z - p0, max_frame_size));
                }
                let body = body_option(slice_to_vec(&input[p0..z]));
                let consumed = skip_optional_lf(input, z + 1);
                let ghost empty_h: Seq<(Vec<u8>, Vec<u8>)> = Seq::empty();
                let headers: Vec<(Vec<u8>, Vec<u8>)> = Vec::new();
                assert(headers_view(headers@) =~= Seq::<SpecHeader>::empty());
                Ok(Some((Vec::new(), headers, body, consumed)))
            },
        },
        Some(e) => {
            proof {
                lemma_find_from(input@, p0 as int, LF);
            }
            let mut cmd_end = e;
            if e > p0 && input[e - 1] == CR {
                cmd_end = e - 1;
            }
            let command = slice_to_vec(&input[p0..cmd_end]);
            assert(command@ == strip_cr(input@.subrange(p0 as int, e as int)));
            match read_headers(input, e + 1) {
                Err(err) => Err(err),
                Ok(None) => Ok(None),
                Ok(Some((headers, pos))) => read_body(input, max_frame_size, command, headers, pos),
            }
        },
    }
}

/// The `Display` text of a `ParseIntError` of the given kind.
pub open spec fn int_error_text(k: IntErrorKind) -> Seq<char> {
    match k {
        IntErrorKind::InvalidDigit => "invalid digit found in string"@,
        IntErrorKind::PosOverflow => "number too large to fit in target type"@,
    }
}

/// The message reported for a rejected frame.
pub open spec fn frame_error_text(e: SpecFrameError) -> Seq<char> {
    match e {
        SpecFrameError::MalformedHeader(l) => "malformed header line: "@ + debug_lossy_text(l),
        SpecFrameError::BadContentLength(SpecLengthError::NotUtf8(v)) =>
            "content-length not utf8: "@ + utf8_error_text(v),
        SpecFrameError::BadContentLength(SpecLengthError::Empty) => "empty content-length"@,
        SpecFrameError::BadContentLength(SpecLengthError::Invalid(t, k)) =>
            "invalid content-length '"@ + t + "': "@ + int_error_text(k),
        SpecFrameError::ContentLengthExceedsMax(n, m) => "content-length "@ + decimal_chars(
            n as nat,
        ) + " exceeds maximum frame size "@ + decimal_chars(m as nat),
        SpecFrameError::BodyExceedsMax(n, m) => "frame body "@ + decimal_chars(n as nat)
            + " exceeds maximum frame size "@ + decimal_chars(m as nat),
        SpecFrameError::ContentLengthTooLarge => "content-length too large"@,
        SpecFrameError::MissingNul => "missing NUL terminator after content-length body"@,
    }
}

impl FrameError {
    /// The message text of this error.
    pub open spec fn text(&self) -> Seq<char> {
        match self {
            FrameError::BadContentLength(LengthError::NotUtf8(text)) => "content-length not utf8: "@
                + text@,
            FrameError::MalformedHeader(l) => frame_error_text(SpecFrameError::MalformedHeader(l@)),
            FrameError::BadContentLength(LengthError::Empty) => frame_error_text(
                SpecFrameError::BadContentLength(SpecLengthError::Empty),
            ),
            FrameError::BadContentLength(LengthError::Invalid(t, k)) => frame_error_text(
                SpecFrameError::BadContentLength(SpecLengthError::Invalid(t@, *k)),
            ),
            FrameError::ContentLengthExceedsMax(n, m) => frame_error_text(
                SpecFrameError::ContentLengthExceedsMax(*n, *m),
            ),
            FrameError::BodyExceedsMax(n, m) => frame_error_text(
                SpecFrameError::BodyExceedsMax(*n, *m),
            ),
            FrameError::ContentLengthTooLarge => frame_error_text(
                SpecFrameError::ContentLengthTooLarge,
            ),
            FrameError::MissingNul => frame_error_text(SpecFrameError::MissingNul),
        }
    }

    /// The human-readable message for this error.
    pub fn message(&self) -> (m: String)
        ensures
            m@ == self.text(),
    {
        let mut m = String::new();
        match self {
            FrameError::MalformedHeader(line) => {
                push_str(&mut m, "malformed header line: ");
                let d = debug_lossy(line.as_slice());
                push_str(&mut m, d.as_str());
            },
            FrameError::BadContentLength(LengthError::NotUtf8(text)) => {
                push_str(&mut m, "content-length not utf8: ");
                push_str(&mut m, text.as_str());
            },
            FrameError::BadContentLength(LengthError::Empty) => {
                push_str(&mut m, "empty content-length");
            },
            FrameError::BadContentLength(LengthError::Invalid(t, k)) => {
                push_str(&mut m, "invalid content-length '");
                push_str(&mut m, t.as_str());
                push_str(&mut m, "': ");
                match k {
                    IntErrorKind::InvalidDigit => push_str(&mut m, "invalid digit found in string"),
                    IntErrorKind::PosOverflow => push_str(
                        &mut m,
                        "number too large to fit in target type",
                    ),
                }
            },
            FrameError::ContentLengthExceedsMax(n, mx) => {
                push_str(&mut m, "content-length ");
                push_decimal(&mut m, *n as u64);
                push_str(&mut m, " exceeds maximum frame size ");
                push_decimal(&mut m, *mx as u64);
            },
            FrameError::BodyExceedsMax(n, mx) => {
                push_str(&mut m, "frame body ");
                push_decimal(&mut m, *n as u64);
                push_str(&mut m, " exceeds maximum frame size ");
                push_decimal(&mut m, *mx as u64);
            },
            FrameError::ContentLengthTooLarge => {
                push_str(&mut m, "content-length too large");
            },
            FrameError::MissingNul => {
                push_str(&mut m, "missing NUL terminator after content-length body");
            },
        }
        m
    }
}

/// The outcome of parsing one frame: `Ok(Some((command, headers, body,
/// consumed)))` for a whole frame, `Ok(None)` when more bytes are required,
/// `Err(message)` on a protocol error.
pub type ParseResult = Result<Option<ParsedFrame>, String>;

/// A `ParseResult` agrees with the specification of the parse.
pub open spec fn parse_result_matches(
    r: ParseResult,
    s: Result<Option<SpecParsed>, SpecFrameError>,
) -> bool {
    match (r, s) {
        (Ok(Some(p)), Ok(Some(q))) => parsed_matches(p, q),
        (Ok(None), Ok(None)) => true,
        (Err(m), Err(f)) => m@ == frame_error_text(f),
        _ => false,
    }
}

/// Parse a single STOMP frame, rejecting any `content-length` (or
/// NUL-terminated body) that exceeds `max_frame_size`.
///
/// Identical to [`parse_frame_slice`] except that the caller chooses the size
/// bound.
pub fn parse_frame_slice_bounded(input: &[u8], max_frame_size: usize) -> (r: ParseResult)
    ensures
        parse_result_matches(r, spec_parse_frame(input@, max_frame_size)),
{
    match scan_frame(input, max_frame_size) {
        Ok(p) => Ok(p),
        Err(e) => Err(e.message()),
    }
}

/// Parse a single STOMP frame from a raw byte slice, bounding frame size at
/// [`DEFAULT_MAX_FRAME_SIZE`].
///
/// Returns `Ok(Some((command, headers, body, consumed_bytes)))` when a full
/// frame was parsed, `Ok(None)` when more bytes are required, and `Err` on
/// protocol errors.
pub fn parse_frame_slice(input: &[u8]) -> (r: ParseResult)
    ensures
        parse_result_matches(r, spec_parse_frame(input@, DEFAULT_MAX_FRAME_SIZE)),
{
    parse_frame_slice_bounded(input, DEFAULT_MAX_FRAME_SIZE)
}

/// Why a header value could not be unescaped.
#[derive(PartialEq, Eq, Structural, Clone, Copy, Debug)]
pub enum UnescapeError {
    /// A backslash is the last byte.
    Incomplete,
    /// A backslash is followed by this byte, which starts no escape.
    Invalid(u8),
}

/// Prepends `p` to a successful result.
pub open spec fn prepend_ok(p: Seq<u8>, r: Result<Seq<u8>, UnescapeError>) -> Result<
    Seq<u8>,
    UnescapeError,
> {
    match r {
        Ok(x) => Ok(p + x),
        Err(e) => Err(e),
    }
}

/// The byte a STOMP 1.2 escape `\x` stands for, if `x` starts one.
pub open spec fn escape_target(x: u8) -> Option<u8> {
    if x == 92 {
        Some(92u8)
    } else if x == 110 {
        Some(10u8)
    } else if x == 114 {
        Some(13u8)
    } else if x == 99 {
        Some(58u8)
    } else {
        None
    }
}

/// STOMP 1.2 unescaping of `s[i..]`: `\\` is a backslash, `\n` a line feed,
/// `\r` a carriage return and `\c` a colon; any other escape is an error.
pub open spec fn unescape_from(s: Seq<u8>, i: int) -> Result<Seq<u8>, UnescapeError>
    decreases s.len() - i,
{
    if i < 0 || i >= s.len() {
        Ok(Seq::empty())
    } else if s[i] == 92 {
        if i + 1 >= s.len() {
            Err(UnescapeError::Incomplete)
        } else {
            match escape_target(s[i + 1]) {
                None => Err(UnescapeError::Invalid(s[i + 1])),
                Some(t) => prepend_ok(seq![t], unescape_from(s, i + 2)),
            }
        }
    } else {
        prepend_ok(seq![s[i]], unescape_from(s, i + 1))
    }
}

/// The message reported for an unescaping error.
pub open spec fn unescape_error_text(e: UnescapeError) -> Seq<char> {
    match e {
        UnescapeError::Incomplete => "incomplete escape sequence at end of header value"@,
        UnescapeError::Invalid(b) => "invalid escape sequence '\\"@ + seq![b as char]
            + "' in header value"@,
    }
}

/// STOMP 1.2 unescaping, with a typed error.
pub fn unescape_bytes(input: &[u8]) -> (r: Result<Vec<u8>, UnescapeError>)
    ensures
        match (r, unescape_from(input@, 0)) {
            (Ok(v), Ok(w)) => v@ == w,
            (Err(e), Err(f)) => e == f,
            _ => false,
        },
{
    let mut result: Vec<u8> = Vec::new();
    let mut i: usize = 0;
    while i < input.len()
        invariant
            i <= input@.len(),
            unescape_from(input@, 0) == prepend_ok(result@, unescape_from(input@, i as int)),
        decreases input@.len() - i,
    {
        let ghost before = result@;
        if input[i] == 92 {
            if i + 1 >= input.len() {
                return Err(UnescapeError::Incomplete);
            }
            let x = input[i + 1];
            let t = if x == 92 {
                92u8
            } else if x == 110 {
                10u8
            } else if x == 114 {
                13u8
            } else if x == 99 {
                58u8
            } else {
                return Err(UnescapeError::Invalid(x));
            };
            result.push(t);
            proof {
                match unescape_from(input@, i + 2) {
                    Ok(r) => assert(before + (seq![t] + r) =~= result@ + r),
                    Err(_) => {},
                }
            }
            i += 2;
        } else {
            result.push(input[i]);
            proof {
                match unescape_from(input@, i + 1) {
                    Ok(r) => assert(before + (seq![input@[i as int]] + r) =~= result@ + r),
                    Err(_) => {},
                }
            }
            i += 1;
        }
    }
    assert(result@ + Seq::<u8>::empty() =~= result@);
    Ok(result)
}

/// Unescape a STOMP 1.2 header value.
///
/// The escape sequences are `\r` (carriage return), `\n` (line feed), `\c`
/// (colon) and `\\` (backslash). Any other escape, or a backslash at the end
/// of the value, is an error.
pub fn unescape_header_value(input: &[u8]) -> (r: Result<Vec<u8>, String>)
    ensures
        match (r, unescape_from(input@, 0)) {
            (Ok(v), Ok(w)) => v@ == w,
            (Err(m), Err(f)) => m@ == unescape_error_text(f),
            _ => false,
        },
{
    match unescape_bytes(input) {
        Ok(v) => Ok(v),
        Err(e) => Err(unescape_error_message(e)),
    }
}

/// The message reported for an unescaping error.
pub fn unescape_error_message(e: UnescapeError) -> (m: String)
    ensures
        m@ == unescape_error_text(e),
{
    let mut m = String::new();
    match e {
        UnescapeError::Incomplete => {
            push_str(&mut m, "incomplete escape sequence at end of header value");
        },
        UnescapeError::Invalid(b) => {
            push_str(&mut m, "invalid escape sequence '\\");
            string_push(&mut m, b as char);
            push_str(&mut m, "' in header value");
        },
    }
    m
}

pub proof fn lemma_skip_lf_bound(s: Seq<u8>, i: int)
    requires
        0 <= i <= s.len(),
    ensures
        i <= skip_lf(s, i) <= s.len(),
    decreases s.len() - i,
{
    if i < s.len() && s[i] == LF {
        lemma_skip_lf_bound(s, i + 1);
    }
}

pub proof fn lemma_scan_headers_bound(s: Seq<u8>, pos: int, acc: Seq<SpecHeader>)
    requires
        0 <= pos,
    ensures
        scan_headers(s, pos, acc) matches HeaderScan::Done(_, p) ==> pos < p <= s.len(),
    decreases s.len() - pos,
{
    if pos < s.len() && s[pos] != LF {
        match find_from(s, pos, LF) {
            Some(e) => {
                if pos <= e < s.len() {
                    let line = strip_cr(s.subrange(pos, e));
                    match find_from(line, 0, COLON) {
                        Some(c) => lemma_scan_headers_bound(
                            s,
                            e + 1,
                            acc.push((line.subrange(0, c), line.subrange(c + 1, line.len() as int))),
                        ),
                        None => {},
                    }
                }
            },
            None => {},
        }
    }
}

/// A parsed frame consumes at least one byte and no more than the input.
pub proof fn lemma_parse_consumed_bound(s: Seq<u8>, max: usize)
    ensures
        spec_parse_frame(s, max) matches Ok(Some(p)) ==> 0 < p.3 <= s.len(),
{
    lemma_skip_lf_bound(s, 0);
    let p0 = skip_lf(s, 0);
    lemma_find_from(s, p0, LF);
    lemma_find_from(s, p0, NUL);
    match find_from(s, p0, LF) {
        None => {},
        Some(e) => {
            lemma_scan_headers_bound(s, e + 1, Seq::empty());
            match scan_headers(s, e + 1, Seq::empty()) {
                HeaderScan::Done(h, pos) => {
                    lemma_find_from(s, pos, NUL);
                },
                _ => {},
            }
        },
    }
}

} // verus!
