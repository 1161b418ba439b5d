//! STOMP wire codec: turning bytes into frames and heartbeats, and back.
use vstd::prelude::*;
use vstd::slice::slice_to_vec;
use vstd::std_specs::cmp::PartialEqSpecImpl;
use vstd::utf8::*;
use crate::frame::{Frame, SpecFrame, SpecTextHeader, text_headers};
use crate::parser::{
    COLON, CR, DEFAULT_MAX_FRAME_SIZE, FrameError, LF, NUL, ParsedFrame, SpecFrameError,
    SpecHeader, SpecParsed, UnescapeError, frame_error_matches, headers_view, parsed_matches,
    scan_frame, spec_parse_frame, unescape_bytes, unescape_from,
};
use crate::text::{utf8_lossy, utf8_text};

verus! {

// ---------------------------------------------------------------------------
// Encoding
// ---------------------------------------------------------------------------

/// The escape sequence for one byte of a header key or value: backslash,
/// line feed, carriage return and colon are escaped, other bytes stand as
/// they are.
pub open spec fn escape_byte(b: u8) -> Seq<u8> {
    if b == 92 {
        seq![92u8, 92u8]
    } else if b == LF {
        seq![92u8, 110u8]
    } else if b == CR {
        seq![92u8, 114u8]
    } else if b == COLON {
        seq![92u8, 99u8]
    } else {
        seq![b]
    }
}

/// STOMP 1.2 escaping of a byte sequence.
pub open spec fn escape_bytes(b: Seq<u8>) -> Seq<u8>
    decreases b.len(),
{
    if b.len() == 0 {
        Seq::empty()
    } else {
        escape_byte(b[0]) + escape_bytes(b.drop_first())
    }
}

/// Whether header keys and values of frames with this command are escaped.
/// STOMP 1.2 leaves CONNECT and CONNECTED unescaped.
pub open spec fn escapes_headers(command: Seq<char>) -> bool {
    command != "CONNECT"@ && command != "CONNECTED"@
}

/// `b`, escaped when `esc` holds.
pub open spec fn maybe_escape(b: Seq<u8>, esc: bool) -> Seq<u8> {
    if esc {
        escape_bytes(b)
    } else {
        b
    }
}

/// One encoded header line.
pub open spec fn header_line(h: SpecTextHeader, esc: bool) -> Seq<u8> {
    maybe_escape(encode_utf8(h.0), esc) + seq![COLON] + maybe_escape(encode_utf8(h.1), esc) + seq![
        LF,
    ]
}

/// The encoded header lines, in order.
pub open spec fn header_lines(h: Seq<SpecTextHeader>, esc: bool) -> Seq<u8>
    decreases h.len(),
{
    if h.len() == 0 {
        Seq::empty()
    } else {
        header_lines(h.drop_last(), esc) + header_line(h.last(), esc)
    }
}

/// The wire form of a frame: the command line, the header lines, a blank
/// line, the body and a NUL terminator.
pub open spec fn encode_frame(f: SpecFrame) -> Seq<u8> {
    encode_utf8(f.command) + seq![LF] + header_lines(f.headers, escapes_headers(f.command))
        + seq![LF] + f.body + seq![NUL]
}

/// What the codec reads or writes: a heartbeat (a bare end-of-line) or a frame.
#[derive(Debug, Clone)]
pub enum StompItem {
    /// A heartbeat.
    Heartbeat,
    /// A frame.
    Frame(Frame),
}

/// The abstract value of a codec item.
pub enum SpecItem {
    /// A heartbeat.
    Heartbeat,
    /// A frame.
    Frame(SpecFrame),
}

impl View for StompItem {
    type V = SpecItem;

    open spec fn view(&self) -> SpecItem {
        match self {
            StompItem::Heartbeat => SpecItem::Heartbeat,
            StompItem::Frame(f) => SpecItem::Frame(f@),
        }
    }
}

impl PartialEqSpecImpl for StompItem {
    open spec fn obeys_eq_spec() -> bool {
        true
    }

    open spec fn eq_spec(&self, other: &StompItem) -> bool {
        match (self, other) {
            (StompItem::Heartbeat, StompItem::Heartbeat) => true,
            (StompItem::Frame(a), StompItem::Frame(b)) => a@ == b@,
            _ => false,
        }
    }
}

impl PartialEq for StompItem {
    fn eq(&self, other: &StompItem) -> (r: bool) {
        match (self, other) {
            (StompItem::Heartbeat, StompItem::Heartbeat) => true,
            (StompItem::Frame(a), StompItem::Frame(b)) => a == b,
            _ => false,
        }
    }
}

impl Eq for StompItem {
}

/// The wire form of an item.
pub open spec fn encode_item(i: SpecItem) -> Seq<u8> {
    match i {
        SpecItem::Heartbeat => seq![LF],
        SpecItem::Frame(f) => encode_frame(f),
    }
}

proof fn lemma_escape_bytes_push(b: Seq<u8>, x: u8)
    ensures
        escape_bytes(b.push(x)) == escape_bytes(b) + escape_byte(x),
    decreases b.len(),
{
    if b.len() == 0 {
        assert(b.push(x) =~= seq![x]);
        assert(seq![x].drop_first() =~= Seq::<u8>::empty());
        assert(escape_bytes(Seq::<u8>::empty()) =~= Seq::<u8>::empty());
        assert(escape_bytes(seq![x]) == escape_byte(x) + escape_bytes(seq![x].drop_first()));
        assert(escape_byte(x) + Seq::<u8>::empty() =~= escape_byte(x));
        assert(Seq::<u8>::empty() + escape_byte(x) =~= escape_byte(x));
    } else {
        let bx = b.push(x);
        assert(bx.drop_first() =~= b.drop_first().push(x));
        assert(bx[0] == b[0]);
        lemma_escape_bytes_push(b.drop_first(), x);
        assert(escape_bytes(bx) == escape_byte(bx[0]) + escape_bytes(bx.drop_first()));
        assert(escape_byte(b[0]) + (escape_bytes(b.drop_first()) + escape_byte(x)) =~= (
        escape_byte(b[0]) + escape_bytes(b.drop_first())) + escape_byte(x));
    }
}

/// Appends the escaped form of `b` (or `b` itself) to `out`.
fn push_maybe_escaped(out: &mut Vec<u8>, b: &[u8], esc: bool)
    ensures
        final(out)@ == old(out)@ + maybe_escape(b@, esc),
{
    let mut i: usize = 0;
    while i < b.len()
        invariant
            i <= b@.len(),
            out@ == old(out)@ + maybe_escape(b@.subrange(0, i as int), esc),
        decreases b@.len() - i,
    {
        let x = b[i];
        let ghost before = out@;
        if esc && x == 92 {
            out.push(92);
            out.push(92);
        } else if esc && x == LF {
            out.push(92);
            out.push(110);
        } else if esc && x == CR {
            out.push(92);
            out.push(114);
        } else if esc && x == COLON {
            out.push(92);
            out.push(99);
        } else {
            out.push(x);
        }
        proof {
            let p = b@.subrange(0, i as int);
            assert(b@.subrange(0, i + 1) =~= p.push(x));
            if esc {
                lemma_escape_bytes_push(p, x);
                assert(out@ =~= before + escape_byte(x));
            } else {
                assert(out@ =~= before + seq![x]);
            }
            assert(out@ =~= old(out)@ + maybe_escape(b@.subrange(0, i + 1), esc));
        }
        i += 1;
    }
    assert(b@.subrange(0, b@.len() as int) =~= b@);
}

/// Appends the bytes of `b`.
fn push_bytes(out: &mut Vec<u8>, b: &[u8])
    ensures
        final(out)@ == old(out)@ + b@,
{
    let mut i: usize = 0;
    while i < b.len()
        invariant
            i <= b@.len(),
            out@ == old(out)@ + b@.subrange(0, i as int),
        decreases b@.len() - i,
    {
        out.push(b[i]);
        assert(b@.subrange(0, i + 1) =~= b@.subrange(0, i as int).push(b@[i as int]));
        i += 1;
    }
    assert(b@.subrange(0, b@.len() as int) =~= b@);
}

/// Whether the command's header lines are escaped.
fn command_escapes(command: &str) -> (r: bool)
    ensures
        r == escapes_headers(command@),
{
    let connect = crate::frame::chars_equal(command, "CONNECT");
    let connected = crate::frame::chars_equal(command, "CONNECTED");
    !connect && !connected
}

/// Appends the wire form of `frame` to `dst`.
pub fn encode_frame_into(frame: &Frame, dst: &mut Vec<u8>)
    ensures
        final(dst)@ == old(dst)@ + encode_frame(frame@),
{
    let esc = command_escapes(frame.command.as_str());
    push_bytes(dst, frame.command.as_str().as_bytes());
    dst.push(LF);
    let ghost start = dst@;
    let ghost h = frame@.headers;
    let mut i: usize = 0;
    while i < frame.headers.len()
        invariant
            i <= frame.headers@.len(),
            h == text_headers(frame.headers@),
            dst@ == start + header_lines(h.subrange(0, i as int), esc),
        decreases frame.headers@.len() - i,
    {
        let ghost before = dst@;
        push_maybe_escaped(dst, frame.headers[i].0.as_str().as_bytes(), esc);
        dst.push(COLON);
        push_maybe_escaped(dst, frame.headers[i].1.as_str().as_bytes(), esc);
        dst.push(LF);
        proof {
            let hs = h.subrange(0, i + 1);
            assert(hs.drop_last() =~= h.subrange(0, i as int));
            assert(hs.last() == h[i as int]);
            assert(dst@ =~= before + header_line(h[i as int], esc));
        }
        i += 1;
    }
    assert(h.subrange(0, h.len() as int) =~= h);
    dst.push(LF);
    push_bytes(dst, frame.body.as_slice());
    dst.push(NUL);
    assert(dst@ =~= old(dst)@ + encode_frame(frame@));
}

/// Appends the wire form of `item` to `dst`.
pub fn encode_item_into(item: &StompItem, dst: &mut Vec<u8>)
    ensures
        final(dst)@ == old(dst)@ + encode_item(item@),
{
    match item {
        StompItem::Heartbeat => {
            dst.push(LF);
            assert(dst@ =~= old(dst)@ + seq![LF]);
        },
        StompItem::Frame(f) => encode_frame_into(f, dst),
    }
}

// ---------------------------------------------------------------------------
// Decoding
// ---------------------------------------------------------------------------

/// A header read off the wire, as text: unescaped when `esc` holds, then
/// decoded as UTF-8 with replacement characters for invalid sequences.
pub open spec fn decode_text_header(h: SpecHeader, esc: bool) -> Result<
    SpecTextHeader,
    UnescapeError,
> {
    if esc {
        match unescape_from(h.0, 0) {
            Err(e) => Err(e),
            Ok(k) => match unescape_from(h.1, 0) {
                Err(e) => Err(e),
                Ok(v) => Ok((utf8_text(k), utf8_text(v))),
            },
        }
    } else {
        Ok((utf8_text(h.0), utf8_text(h.1)))
    }
}

/// The headers `h[i..]` as text; the first unescaping error wins.
pub open spec fn decode_text_headers_from(h: Seq<SpecHeader>, esc: bool, i: int) -> Result<
    Seq<SpecTextHeader>,
    UnescapeError,
>
    decreases h.len() - i,
{
    if i < 0 || i >= h.len() {
        Ok(Seq::empty())
    } else {
        match decode_text_header(h[i], esc) {
            Err(e) => Err(e),
            Ok(x) => match decode_text_headers_from(h, esc, i + 1) {
                Err(e) => Err(e),
                Ok(t) => Ok(seq![x] + t),
            },
        }
    }
}

/// The outcome of one decoding step.
pub enum SpecDecode {
    /// More bytes are needed.
    NeedMore,
    /// An item, and how many bytes it takes.
    Item(SpecItem, int),
    /// The frame is malformed.
    FrameErr(SpecFrameError),
    /// A header holds an invalid escape sequence.
    EscapeErr(UnescapeError),
    /// An incomplete frame already exceeds the size bound.
    Oversized(int, usize),
}

/// One decoding step on buffered bytes `s` with frame-size bound `max`.
///
/// A leading LF, or CRLF, is a heartbeat; a lone CR waits for the next byte.
/// Otherwise the bytes are parsed as a frame. An incomplete frame whose bytes
/// already exceed the bound is an error, so a peer cannot make the buffer
/// grow without end.
pub open spec fn spec_decode(s: Seq<u8>, max: usize) -> SpecDecode {
    if s.len() == 0 {
        SpecDecode::NeedMore
    } else if s[0] == LF {
        SpecDecode::Item(SpecItem::Heartbeat, 1)
    } else if s[0] == CR && s.len() == 1 {
        SpecDecode::NeedMore
    } else if s[0] == CR && s[1] == LF {
        SpecDecode::Item(SpecItem::Heartbeat, 2)
    } else {
        match spec_parse_frame(s, max) {
            Err(e) => SpecDecode::FrameErr(e),
            Ok(None) => if s.len() > max {
                SpecDecode::Oversized(s.len() as int, max)
            } else {
                SpecDecode::NeedMore
            },
            Ok(Some((c, h, b, n))) => {
                let cmd = utf8_text(c);
                match decode_text_headers_from(h, escapes_headers(cmd), 0) {
                    Err(e) => SpecDecode::EscapeErr(e),
                    Ok(th) => SpecDecode::Item(
                        SpecItem::Frame(
                            SpecFrame {
                                command: cmd,
                                headers: th,
                                body: match b {
                                    Some(x) => x,
                                    None => Seq::empty(),
                                },
                            },
                        ),
                        n,
                    ),
                }
            },
        }
    }
}

/// Why the codec rejected its input.
#[derive(Debug, Clone)]
pub enum CodecError {
    /// The frame is malformed or too large.
    Frame(FrameError),
    /// A header holds an invalid escape sequence.
    Escape(UnescapeError),
    /// An incomplete frame of `buffered` bytes already exceeds `max`.
    Oversized {
        /// Bytes buffered so far.
        buffered: usize,
        /// The frame-size bound.
        max: usize,
    },
}

/// How a codec error reads.
pub open spec fn codec_error_text(e: &CodecError) -> Seq<char> {
    match e {
        CodecError::Frame(f) => f.text(),
        CodecError::Escape(u) => crate::parser::unescape_error_text(*u),
        CodecError::Oversized { buffered, max } => "incomplete frame of "@ + crate::text::decimal_chars(
            *buffered as nat,
        ) + " bytes exceeds maximum frame size "@ + crate::text::decimal_chars(*max as nat),
    }
}

impl CodecError {
    /// The human-readable rendering of the error.
    pub fn describe(&self) -> (m: String)
        ensures
            m@ == codec_error_text(self),
    {
        match self {
            CodecError::Frame(f) => f.message(),
            CodecError::Escape(u) => crate::parser::unescape_error_message(*u),
            CodecError::Oversized { buffered, max } => {
                let mut m = String::new();
                crate::text::push_str(&mut m, "incomplete frame of ");
                crate::text::push_decimal(&mut m, *buffered as u64);
                crate::text::push_str(&mut m, " bytes exceeds maximum frame size ");
                crate::text::push_decimal(&mut m, *max as u64);
                m
            },
        }
    }
}

/// A decoding step agrees with the specification.
pub open spec fn decode_matches(r: Result<Option<(StompItem, usize)>, CodecError>, s: SpecDecode) -> bool {
    match (r, s) {
        (Ok(None), SpecDecode::NeedMore) => true,
        (Ok(Some((item, n))), SpecDecode::Item(i, m)) => item@ == i && n as int == m,
        (Err(CodecError::Frame(e)), SpecDecode::FrameErr(f)) => frame_error_matches(e, f),
        (Err(CodecError::Escape(e)), SpecDecode::EscapeErr(f)) => e == f,
        (Err(CodecError::Oversized { buffered, max }), SpecDecode::Oversized(b, m)) => buffered
            as int == b && max == m,
        _ => false,
    }
}

/// A STOMP codec with a frame-size bound.
#[derive(Debug, Clone, Copy)]
pub struct StompCodec {
    max_frame_size: usize,
}

fn decode_one_header(k: &[u8], v: &[u8], esc: bool) -> (r: Result<(String, String), UnescapeError>)
    ensures
        match (r, decode_text_header((k@, v@), esc)) {
            (Ok(x), Ok(y)) => (x.0@, x.1@) == y,
            (Err(e), Err(f)) => e == f,
            _ => false,
        },
{
    if esc {
        let ku = match unescape_bytes(k) {
            Ok(x) => x,
            Err(e) => {
                return Err(e);
            },
        };
        let vu = match unescape_bytes(v) {
            Ok(x) => x,
            Err(e) => {
                return Err(e);
            },
        };
        Ok((utf8_lossy(ku.as_slice()), utf8_lossy(vu.as_slice())))
    } else {
        Ok((utf8_lossy(k), utf8_lossy(v)))
    }
}

fn decode_headers(h: &Vec<(Vec<u8>, Vec<u8>)>, esc: bool) -> (r: Result<
    Vec<(String, String)>,
    UnescapeError,
>)
    ensures
        match (r, decode_text_headers_from(headers_view(h@), esc, 0)) {
            (Ok(x), Ok(y)) => text_headers(x@) == y,
            (Err(e), Err(f)) => e == f,
            _ => false,
        },
{
    let ghost hv = headers_view(h@);
    let mut out: Vec<(String, String)> = Vec::new();
    let mut i: usize = 0;
    while i < h.len()
        invariant
            i <= h@.len(),
            hv == headers_view(h@),
            decode_text_headers_from(hv, esc, 0) == (match decode_text_headers_from(
                hv,
                esc,
                i as int,
            ) {
                Err(e) => Err(e),
                Ok(t) => Ok(text_headers(out@) + t),
            }),
        decreases h@.len() - i,
    {
        assert(hv[i as int] == (h@[i as int].0@, h@[i as int].1@));
        match decode_one_header(h[i].0.as_slice(), h[i].1.as_slice(), esc) {
            Err(e) => {
                return Err(e);
            },
            Ok(x) => {
                let ghost before = text_headers(out@);
                out.push(x);
                proof {
                    assert(text_headers(out@) =~= before.push((x.0@, x.1@)));
                    match decode_text_headers_from(hv, esc, i + 1) {
                        Ok(t) => {
                            assert(before + (seq![(x.0@, x.1@)] + t) =~= text_headers(out@) + t);
                        },
                        Err(_) => {},
                    }
                }
            },
        }
        i += 1;
    }
    assert(text_headers(out@) + Seq::<SpecTextHeader>::empty() =~= text_headers(out@));
    Ok(out)
}

impl StompCodec {
    /// A codec with the default frame-size bound.
    pub fn new() -> (c: StompCodec)
        ensures
            c.max_frame_size() == DEFAULT_MAX_FRAME_SIZE,
    {
        StompCodec { max_frame_size: DEFAULT_MAX_FRAME_SIZE }
    }

    /// A codec that rejects frames larger than `max_frame_size` bytes.
    pub fn with_max_frame_size(max_frame_size: usize) -> (c: StompCodec)
        ensures
            c.max_frame_size() == max_frame_size,
    {
        StompCodec { max_frame_size }
    }

    /// The frame-size bound.
    pub closed spec fn max_frame_size(&self) -> usize {
        self.max_frame_size
    }

    /// The frame-size bound.
    pub fn frame_size_limit(&self) -> (n: usize)
        ensures
            n == self.max_frame_size(),
    {
        self.max_frame_size
    }

    /// One decoding step: the item at the start of `buf` and how many bytes
    /// it takes, `None` when more bytes are needed, or an error.
    pub fn decode_step(&self, buf: &[u8]) -> (r: Result<Option<(StompItem, usize)>, CodecError>)
        ensures
            decode_matches(r, spec_decode(buf@, self.max_frame_size())),
    {
        let len = buf.len();
        if len == 0 {
            return Ok(None);
        }
        if buf[0] == LF {
            return Ok(Some((StompItem::Heartbeat, 1)));
        }
        if buf[0] == CR && len == 1 {
            return Ok(None);
        }
        if buf[0] == CR && buf[1] == LF {
            return Ok(Some((StompItem::Heartbeat, 2)));
        }
        match scan_frame(buf, self.max_frame_size) {
            Err(e) => Err(CodecError::Frame(e)),
            Ok(None) => {
                if len > self.max_frame_size {
                    Err(CodecError::Oversized { buffered: len, max: self.max_frame_size })
                } else {
                    Ok(None)
                }
            },
            Ok(Some((c, h, b, n))) => {
                let command = utf8_lossy(c.as_slice());
                let esc = command_escapes(command.as_str());
                match decode_headers(&h, esc) {
                    Err(e) => Err(CodecError::Escape(e)),
                    Ok(headers) => {
                        let body = match b {
                            Some(x) => x,
                            None => Vec::new(),
                        };
                        let f = Frame { command, headers, body };
                        Ok(Some((StompItem::Frame(f), n)))
                    },
                }
            },
        }
    }

    /// Decodes the item at the start of `buf` and removes its bytes; leaves
    /// `buf` unchanged when more bytes are needed or on error.
    pub fn decode(&mut self, buf: &mut Vec<u8>) -> (r: Result<Option<StompItem>, CodecError>)
        ensures
            *final(self) == *old(self),
            match spec_decode(old(buf)@, old(self).max_frame_size()) {
                SpecDecode::Item(i, n) => r matches Ok(Some(item)) && item@ == i && final(buf)@
                    == old(buf)@.subrange(n, old(buf)@.len() as int),
                SpecDecode::NeedMore => r matches Ok(None) && final(buf)@ == old(buf)@,
                _ => r is Err && final(buf)@ == old(buf)@,
            },
    {
        match self.decode_step(buf.as_slice()) {
            Ok(Some((item, n))) => {
                proof {
                    crate::parser::lemma_parse_consumed_bound(buf@, self.max_frame_size);
                }
                let rest = slice_to_vec(&buf.as_slice()[n..buf.len()]);
                *buf = rest;
                Ok(Some(item))
            },
            Ok(None) => Ok(None),
            Err(e) => Err(e),
        }
    }

    /// Appends the wire form of `item` to `dst`.
    pub fn encode(&mut self, item: StompItem, dst: &mut Vec<u8>)
        ensures
            *final(self) == *old(self),
            final(dst)@ == old(dst)@ + encode_item(item@),
    {
        encode_item_into(&item, dst);
    }
}


} // verus!
