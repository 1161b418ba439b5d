//! What the decoder reads back of what the encoder writes.
use vstd::prelude::*;
use vstd::utf8::*;
use crate::codec::{
    SpecDecode, SpecItem, decode_text_header, decode_text_headers_from, encode_frame, encode_item,
    escape_byte, escape_bytes, escapes_headers, header_line, header_lines, maybe_escape,
    spec_decode,
};
use crate::frame::{SpecFrame, SpecTextHeader};
use crate::parser::{
    COLON, CR, HeaderScan, LF, NUL, SpecHeader, bytes_eq_ignore_ascii_case, content_length_name,
    escape_target, find_content_length, find_from, lemma_find_from_char, lemma_find_from_none,
    nonempty_body, prepend_ok, scan_headers, skip_lf, skip_one_lf, spec_parse_frame, strip_cr,
    unescape_from,
};
use crate::text::utf8_text;

verus! {

broadcast use {encode_utf8_valid_utf8, encode_utf8_decode_utf8};

/// No byte of `s` equals `b`.
pub open spec fn no_byte(s: Seq<u8>, b: u8) -> bool {
    forall|i: int| 0 <= i < s.len() ==> s[i] != b
}

/// No character of `s` equals `c`.
pub open spec fn no_char(s: Seq<char>, c: char) -> bool {
    forall|i: int| 0 <= i < s.len() ==> s[i] != c
}

/// A header that a CONNECT or CONNECTED frame, whose headers are not
/// escaped, can carry: the key holds no line feed or colon, the value no line
/// feed and no trailing carriage return.
pub open spec fn raw_header_ok(h: SpecTextHeader) -> bool {
    &&& no_char(h.0, '\n')
    &&& no_char(h.0, ':')
    &&& no_char(h.1, '\n')
    &&& (h.1.len() == 0 || h.1.last() != '\r')
}

/// A frame that the codec writes and reads back unchanged under frame-size
/// bound `max`: a non-empty command without line feeds that does not end in
/// a carriage return; no header named `content-length` (the decoder would
/// take the body length from it); headers of CONNECT and CONNECTED frames,
/// which are not escaped, free of line breaks and key colons; a body with
/// no NUL, within the bound.
pub open spec fn frame_round_trips(f: SpecFrame, max: usize) -> bool {
    &&& f.command.len() > 0
    &&& no_char(f.command, '\n')
    &&& f.command.last() != '\r'
    &&& forall|i: int|
        0 <= i < f.headers.len() ==> !bytes_eq_ignore_ascii_case(
            encode_utf8(#[trigger] f.headers[i].0),
            content_length_name(),
        )
    &&& !escapes_headers(f.command) ==> forall|i: int|
        0 <= i < f.headers.len() ==> raw_header_ok(#[trigger] f.headers[i])
    &&& no_byte(f.body, NUL)
    &&& f.body.len() <= max
}

// ---------------------------------------------------------------------------
// UTF-8 facts
// ---------------------------------------------------------------------------

proof fn lemma_ascii_byte(v: u32)
    requires
        v < 128,
    ensures
        (v as u8) as u32 == v,
{
    assert((v as u8) as u32 == v) by (bit_vector)
        requires
            v < 128,
    ;
}

proof fn lemma_scalar_bytes(v: u32)
    requires
        is_scalar(v),
    ensures
        v < 128 ==> encode_scalar(v) == seq![v as u8],
        v >= 128 ==> forall|i: int|
            0 <= i < encode_scalar(v).len() ==> #[trigger] encode_scalar(v)[i] >= 128,
        encode_scalar(v).len() >= 1,
{
    if v < 128 {
        assert(leading_byte_width_1(v) == v as u8) by (bit_vector)
            requires
                v < 128,
        ;
    } else if v <= 0x7FF {
        assert(leading_byte_width_2(v) >= 128 && last_continuation_byte(v) >= 128)
            by (bit_vector);
    } else if has_width_3_encoding(v) {
        assert(leading_byte_width_3(v) >= 128 && second_last_continuation_byte(v) >= 128
            && last_continuation_byte(v) >= 128) by (bit_vector);
    } else {
        assert(leading_byte_width_4(v) >= 128 && third_last_continuation_byte(v) >= 128
            && second_last_continuation_byte(v) >= 128 && last_continuation_byte(v) >= 128)
            by (bit_vector);
    }
}

proof fn lemma_encode_concat(a: Seq<char>, b: Seq<char>)
    ensures
        encode_utf8(a + b) == encode_utf8(a) + encode_utf8(b),
    decreases a.len(),
{
    if a.len() == 0 {
        assert(a + b =~= b);
        assert(Seq::<u8>::empty() + encode_utf8(b) =~= encode_utf8(b));
    } else {
        assert((a + b).drop_first() =~= a.drop_first() + b);
        assert((a + b)[0] == a[0]);
        lemma_encode_concat(a.drop_first(), b);
        assert(encode_scalar(a[0] as u32) + (encode_utf8(a.drop_first()) + encode_utf8(b)) =~= (
        encode_scalar(a[0] as u32) + encode_utf8(a.drop_first())) + encode_utf8(b));
    }
}

proof fn lemma_encode_len(s: Seq<char>)
    ensures
        encode_utf8(s).len() >= s.len(),
    decreases s.len(),
{
    if s.len() > 0 {
        char_is_scalar(s[0]);
        lemma_scalar_bytes(s[0] as u32);
        lemma_encode_len(s.drop_first());
    }
}

proof fn lemma_encode_no_ascii(s: Seq<char>, b: u8)
    requires
        b < 128,
        forall|i: int| 0 <= i < s.len() ==> (#[trigger] s[i] as u32) != (b as u32),
    ensures
        no_byte(encode_utf8(s), b),
    decreases s.len(),
{
    if s.len() > 0 {
        let v = s[0] as u32;
        char_is_scalar(s[0]);
        lemma_scalar_bytes(v);
        lemma_encode_no_ascii(s.drop_first(), b);
        let e = encode_scalar(v);
        let r = encode_utf8(s.drop_first());
        assert(encode_utf8(s) == e + r);
        assert forall|i: int| 0 <= i < (e + r).len() implies (e + r)[i] != b by {
            if i < e.len() {
                assert((e + r)[i] == e[i]);
                if v < 128 {
                    assert(e[i] == v as u8);
                    lemma_ascii_byte(v);
                } else {
                    assert(e[i] >= 128);
                }
            } else {
                assert((e + r)[i] == r[i - e.len()]);
            }
        }
    }
}

/// A character `c` with the one-byte code `b` never shows up as that byte in
/// the encoding of a text without `c`.
proof fn lemma_encode_no_char(s: Seq<char>, c: char, b: u8)
    requires
        b < 128,
        c as u32 == b as u32,
        no_char(s, c),
    ensures
        no_byte(encode_utf8(s), b),
{
    assert forall|i: int| 0 <= i < s.len() implies (#[trigger] s[i] as u32) != (b as u32) by {
        if s[i] as u32 == c as u32 {
            char_u32_cast(s[i], s[i] as u32);
            char_u32_cast(c, c as u32);
        }
    }
    lemma_encode_no_ascii(s, b);
}

proof fn lemma_encode_last(s: Seq<char>, c: char, b: u8)
    requires
        s.len() > 0,
        b < 128,
        c as u32 == b as u32,
        s.last() != c,
    ensures
        encode_utf8(s).len() > 0,
        encode_utf8(s).last() != b,
{
    let init = s.drop_last();
    let l = s.last();
    let v = l as u32;
    assert(s =~= init + seq![l]);
    lemma_encode_concat(init, seq![l]);
    assert(seq![l].drop_first() =~= Seq::<char>::empty());
    assert(encode_utf8(seq![l]) == encode_scalar(v) + encode_utf8(Seq::<char>::empty()));
    assert(encode_scalar(v) + Seq::<u8>::empty() =~= encode_scalar(v));
    char_is_scalar(l);
    lemma_scalar_bytes(v);
    let e = encode_scalar(v);
    assert(encode_utf8(s).last() == e.last());
    if v < 128 {
        assert(e.last() == v as u8);
        lemma_ascii_byte(v);
        if v == c as u32 {
            char_u32_cast(l, v);
            char_u32_cast(c, c as u32);
        }
    } else {
        assert(e[e.len() - 1] >= 128);
    }
}

// ---------------------------------------------------------------------------
// Escaping
// ---------------------------------------------------------------------------

proof fn lemma_escape_plain(b: Seq<u8>)
    ensures
        no_byte(escape_bytes(b), LF),
        no_byte(escape_bytes(b), CR),
        no_byte(escape_bytes(b), COLON),
    decreases b.len(),
{
    if b.len() > 0 {
        lemma_escape_plain(b.drop_first());
        let e = escape_byte(b[0]);
        let r = escape_bytes(b.drop_first());
        assert forall|i: int| 0 <= i < (e + r).len() implies (e + r)[i] != LF && (e + r)[i] != CR
            && (e + r)[i] != COLON by {
            if i >= e.len() {
                assert((e + r)[i] == r[i - e.len()]);
            }
        }
    }
}

/// Only the bytes from `i` on matter to unescaping.
proof fn lemma_unescape_shift(s: Seq<u8>, i: int)
    requires
        0 <= i <= s.len(),
    ensures
        unescape_from(s, i) == unescape_from(s.subrange(i, s.len() as int), 0),
    decreases s.len() - i,
{
    let t = s.subrange(i, s.len() as int);
    if i < s.len() {
        if s[i] == 92 {
            if i + 1 < s.len() {
                assert(t[1] == s[i + 1]);
                lemma_unescape_shift(s, i + 2);
                lemma_unescape_shift(t, 2);
                assert(t.subrange(2, t.len() as int) =~= s.subrange(i + 2, s.len() as int));
            }
        } else {
            lemma_unescape_shift(s, i + 1);
            lemma_unescape_shift(t, 1);
            assert(t.subrange(1, t.len() as int) =~= s.subrange(i + 1, s.len() as int));
        }
    }
}

proof fn lemma_unescape_escape(b: Seq<u8>)
    ensures
        unescape_from(escape_bytes(b), 0) == Ok::<Seq<u8>, crate::parser::UnescapeError>(b),
    decreases b.len(),
{
    if b.len() == 0 {
        assert(escape_bytes(b) =~= Seq::<u8>::empty());
        assert(b =~= Seq::<u8>::empty());
    } else {
        let x = b[0];
        let e = escape_byte(x);
        let r = escape_bytes(b.drop_first());
        let s = e + r;
        assert(escape_bytes(b) == s);
        lemma_unescape_escape(b.drop_first());
        lemma_unescape_shift(s, e.len() as int);
        assert(s.subrange(e.len() as int, s.len() as int) =~= r);
        let rest = unescape_from(s, e.len() as int);
        assert(rest == Ok::<Seq<u8>, crate::parser::UnescapeError>(b.drop_first()));
        if x == 92 || x == LF || x == CR || x == COLON {
            assert(e.len() == 2);
            assert(s[0] == 92);
            assert(s[1] == e[1]);
            assert(escape_target(s[1]) == Some(x));
        } else {
            assert(e.len() == 1);
            assert(s[0] == x);
        }
        assert(unescape_from(s, 0) == prepend_ok(seq![x], rest));
        assert(seq![x] + b.drop_first() =~= b);
        assert(prepend_ok(seq![x], rest) == Ok::<Seq<u8>, crate::parser::UnescapeError>(b));
    }
}

proof fn lemma_escape_identity(b: Seq<u8>)
    requires
        no_byte(escape_bytes(b), 92),
    ensures
        escape_bytes(b) == b,
    decreases b.len(),
{
    if b.len() == 0 {
        assert(escape_bytes(b) =~= b);
    } else {
        let e = escape_byte(b[0]);
        let r = escape_bytes(b.drop_first());
        assert((e + r)[0] == e[0]);
        assert forall|i: int| 0 <= i < r.len() implies r[i] != 92 by {
            assert((e + r)[i + e.len()] == r[i]);
        }
        lemma_escape_identity(b.drop_first());
        assert(seq![b[0]] + b.drop_first() =~= b);
    }
}

// ---------------------------------------------------------------------------
// Scanning header lines
// ---------------------------------------------------------------------------

/// The raw key and value bytes of an encoded header.
pub open spec fn raw_header(h: SpecTextHeader, esc: bool) -> SpecHeader {
    (maybe_escape(encode_utf8(h.0), esc), maybe_escape(encode_utf8(h.1), esc))
}

/// The raw headers the parser reads from encoded header lines.
pub open spec fn raw_headers(hs: Seq<SpecTextHeader>, esc: bool) -> Seq<SpecHeader> {
    hs.map_values(|h: SpecTextHeader| raw_header(h, esc))
}

/// An encoded header line the parser reads back as one header.
pub open spec fn line_ok(h: SpecTextHeader, esc: bool) -> bool {
    let r = raw_header(h, esc);
    &&& no_byte(r.0, LF)
    &&& no_byte(r.0, COLON)
    &&& no_byte(r.1, LF)
    &&& (r.1.len() == 0 || r.1.last() != CR)
}

proof fn lemma_line_ok(h: SpecTextHeader, esc: bool)
    requires
        !esc ==> raw_header_ok(h),
    ensures
        line_ok(h, esc),
{
    if esc {
        lemma_escape_plain(encode_utf8(h.0));
        lemma_escape_plain(encode_utf8(h.1));
    } else {
        lemma_encode_no_char(h.0, '\n', LF);
        lemma_encode_no_char(h.0, ':', COLON);
        lemma_encode_no_char(h.1, '\n', LF);
        if h.1.len() > 0 {
            lemma_encode_last(h.1, '\r', CR);
        }
    }
}

proof fn lemma_scan_line(s: Seq<u8>, q: int, h: SpecTextHeader, esc: bool, acc: Seq<SpecHeader>)
    requires
        0 <= q,
        q + header_line(h, esc).len() <= s.len(),
        s.subrange(q, q + header_line(h, esc).len()) == header_line(h, esc),
        line_ok(h, esc),
    ensures
        scan_headers(s, q, acc) == scan_headers(
            s,
            q + header_line(h, esc).len(),
            acc.push(raw_header(h, esc)),
        ),
{
    let k = raw_header(h, esc).0;
    let v = raw_header(h, esc).1;
    let l = header_line(h, esc);
    assert(l =~= k + seq![COLON] + v + seq![LF]);
    let e = q + k.len() + 1 + v.len();
    assert forall|j: int| q <= j < e implies s[j] != LF by {
        assert(s[j] == l[j - q]);
        if j - q < k.len() {
            assert(l[j - q] == k[j - q]);
        } else if j - q > k.len() {
            assert(l[j - q] == v[j - q - k.len() - 1]);
        }
    }
    assert(s[e] == l[e - q]);
    lemma_find_from_char(s, q, LF, e);
    let line = s.subrange(q, e);
    assert(line =~= k + seq![COLON] + v);
    assert(strip_cr(line) == line);
    assert forall|j: int| 0 <= j < k.len() implies line[j] != COLON by {
        assert(line[j] == k[j]);
    }
    lemma_find_from_char(line, 0, COLON, k.len() as int);
    assert(line.subrange(0, k.len() as int) =~= k);
    assert(line.subrange(k.len() + 1int, line.len() as int) =~= v);
    assert(s[q] == l[0]);
}

proof fn lemma_scan_lines(
    s: Seq<u8>,
    p: int,
    hs: Seq<SpecTextHeader>,
    esc: bool,
    acc: Seq<SpecHeader>,
)
    requires
        0 <= p,
        p + header_lines(hs, esc).len() <= s.len(),
        s.subrange(p, p + header_lines(hs, esc).len()) == header_lines(hs, esc),
        forall|i: int| 0 <= i < hs.len() ==> line_ok(#[trigger] hs[i], esc),
    ensures
        scan_headers(s, p, acc) == scan_headers(
            s,
            p + header_lines(hs, esc).len(),
            acc + raw_headers(hs, esc),
        ),
    decreases hs.len(),
{
    if hs.len() == 0 {
        assert(acc + raw_headers(hs, esc) =~= acc);
    } else {
        let init = hs.drop_last();
        let last = hs.last();
        let hi = header_lines(init, esc);
        let l = header_line(last, esc);
        assert(header_lines(hs, esc) == hi + l);
        assert(s.subrange(p, p + hi.len()) =~= (hi + l).subrange(0, hi.len() as int));
        assert((hi + l).subrange(0, hi.len() as int) =~= hi);
        lemma_scan_lines(s, p, init, esc, acc);
        let q = p + hi.len();
        assert(s.subrange(q, q + l.len()) =~= (hi + l).subrange(hi.len() as int, (hi + l).len() as int));
        assert((hi + l).subrange(hi.len() as int, (hi + l).len() as int) =~= l);
        assert(line_ok(hs[hs.len() - 1], esc));
        lemma_scan_line(s, q, last, esc, acc + raw_headers(init, esc));
        assert((acc + raw_headers(init, esc)).push(raw_header(last, esc)) =~= acc + raw_headers(
            hs,
            esc,
        ));
    }
}

// ---------------------------------------------------------------------------
// Reading back the decoded headers
// ---------------------------------------------------------------------------

proof fn lemma_no_content_length(hs: Seq<SpecTextHeader>, esc: bool, i: int)
    requires
        0 <= i <= hs.len(),
        forall|j: int|
            0 <= j < hs.len() ==> !bytes_eq_ignore_ascii_case(
                encode_utf8(#[trigger] hs[j].0),
                content_length_name(),
            ),
    ensures
        find_content_length(raw_headers(hs, esc), i) == Ok::<
            Option<usize>,
            crate::parser::SpecLengthError,
        >(None),
    decreases hs.len() - i,
{
    if i < hs.len() {
        let k = encode_utf8(hs[i].0);
        let rk = raw_headers(hs, esc)[i].0;
        if esc && bytes_eq_ignore_ascii_case(rk, content_length_name()) {
            assert forall|j: int| 0 <= j < rk.len() implies rk[j] != 92 by {
                assert(crate::parser::ascii_lower(rk[j]) == crate::parser::ascii_lower(
                    content_length_name()[j],
                ));
            }
            lemma_escape_identity(k);
        }
        lemma_no_content_length(hs, esc, i + 1);
    }
}

proof fn lemma_decode_headers(hs: Seq<SpecTextHeader>, esc: bool, i: int)
    requires
        0 <= i <= hs.len(),
    ensures
        decode_text_headers_from(raw_headers(hs, esc), esc, i) == Ok::<
            Seq<SpecTextHeader>,
            crate::parser::UnescapeError,
        >(hs.subrange(i, hs.len() as int)),
    decreases hs.len() - i,
{
    if i < hs.len() {
        lemma_decode_headers(hs, esc, i + 1);
        let h = hs[i];
        if esc {
            lemma_unescape_escape(encode_utf8(h.0));
            lemma_unescape_escape(encode_utf8(h.1));
        }
        assert(decode_text_header(raw_headers(hs, esc)[i], esc) == Ok::<
            SpecTextHeader,
            crate::parser::UnescapeError,
        >(h));
        assert(seq![h] + hs.subrange(i + 1, hs.len() as int) =~= hs.subrange(i, hs.len() as int));
    } else {
        assert(hs.subrange(i, hs.len() as int) =~= Seq::<SpecTextHeader>::empty());
    }
}

// ---------------------------------------------------------------------------
// The law
// ---------------------------------------------------------------------------

/// Decoding what the encoder writes for a frame gives back that frame and
/// consumes exactly its bytes, for every frame the wire format can carry
/// (see `frame_round_trips`).
#[verifier::rlimit(40)]
pub proof fn decode_reads_back_encoded_frame(f: SpecFrame, max: usize)
    requires
        frame_round_trips(f, max),
    ensures
        spec_decode(encode_frame(f), max) matches SpecDecode::Item(SpecItem::Frame(g), n) && g
            == f && n == encode_frame(f).len(),
{
    let esc = escapes_headers(f.command);
    let c = encode_utf8(f.command);
    let hl = header_lines(f.headers, esc);
    let s = encode_frame(f);
    assert(s == c + seq![LF] + hl + seq![LF] + f.body + seq![NUL]);
    lemma_encode_len(f.command);
    lemma_encode_no_char(f.command, '\n', LF);
    lemma_encode_last(f.command, '\r', CR);
    // The first byte is not a heartbeat.
    assert(s[0] == c[0]);
    if c.len() > 1 {
        assert(s[1] == c[1]);
    } else {
        assert(c.last() == c[0]);
    }
    // The command line.
    assert(skip_lf(s, 0) == 0);
    assert forall|j: int| 0 <= j < c.len() implies s[j] != LF by {
        assert(s[j] == c[j]);
    }
    assert(s[c.len() as int] == LF);
    lemma_find_from_char(s, 0, LF, c.len() as int);
    assert(s.subrange(0, c.len() as int) =~= c);
    assert(strip_cr(c) == c);
    // The header lines.
    let p: int = c.len() + 1int;
    assert forall|i: int| 0 <= i < f.headers.len() implies line_ok(#[trigger] f.headers[i], esc) by {
        lemma_line_ok(f.headers[i], esc);
    }
    assert(s.subrange(p, p + hl.len()) =~= hl);
    lemma_scan_lines(s, p, f.headers, esc, Seq::empty());
    let pos: int = p + hl.len();
    assert(s[pos] == LF);
    let raw = raw_headers(f.headers, esc);
    assert(Seq::<SpecHeader>::empty() + raw =~= raw);
    assert(scan_headers(s, p, Seq::empty()) == HeaderScan::Done(raw, pos + 1));
    // The body.
    lemma_no_content_length(f.headers, esc, 0);
    let b0: int = pos + 1;
    let z: int = b0 + f.body.len();
    assert forall|j: int| b0 <= j < z implies s[j] != NUL by {
        assert(s[j] == f.body[j - b0]);
    }
    assert(s[z] == NUL);
    lemma_find_from_char(s, b0, NUL, z);
    assert(s.subrange(b0, z) =~= f.body);
    assert(skip_one_lf(s, z + 1) == s.len());
    // Decoding the text.
    assert(utf8_text(c) == f.command);
    lemma_decode_headers(f.headers, esc, 0);
    assert(f.headers.subrange(0, f.headers.len() as int) =~= f.headers);
    let body_out = match nonempty_body(f.body) {
        Some(x) => x,
        None => Seq::<u8>::empty(),
    };
    assert(body_out =~= f.body);
}


/// Header keys and values of every frame other than CONNECT and CONNECTED
/// are unescaped on decoding (STOMP 1.2): a frame whose header lines carry
/// the escaped bytes of its keys and values (backslash, line feed, carriage
/// return and colon written as `\\`, `\n`, `\r` and `\c`) decodes to the
/// keys and values themselves.
pub proof fn decode_unescapes_headers_of_other_commands(f: SpecFrame, max: usize)
    requires
        f.command != "CONNECT"@,
        f.command != "CONNECTED"@,
        f.command.len() > 0,
        no_char(f.command, '\n'),
        f.command.last() != '\r',
        forall|i: int|
            0 <= i < f.headers.len() ==> !bytes_eq_ignore_ascii_case(
                encode_utf8(#[trigger] f.headers[i].0),
                content_length_name(),
            ),
        no_byte(f.body, NUL),
        f.body.len() <= max,
    ensures
        spec_decode(
            encode_utf8(f.command) + seq![LF] + header_lines(f.headers, true) + seq![LF] + f.body
                + seq![NUL],
            max,
        ) matches SpecDecode::Item(SpecItem::Frame(g), _) && g == f,
{
    assert(escapes_headers(f.command));
    assert(frame_round_trips(f, max));
    decode_reads_back_encoded_frame(f, max);
}

/// Decoding the encoder's heartbeat gives a heartbeat and consumes its one
/// byte.
pub proof fn decode_reads_back_heartbeat(max: usize)
    ensures
        spec_decode(encode_item(SpecItem::Heartbeat), max) == SpecDecode::Item(
            SpecItem::Heartbeat,
            1,
        ),
{
    assert(encode_item(SpecItem::Heartbeat)[0] == LF);
}

/// Unescaping what STOMP escaping wrote gives back the bytes it was given.
pub proof fn unescape_inverts_escape(b: Seq<u8>)
    ensures
        unescape_from(escape_bytes(b), 0) == Ok::<Seq<u8>, crate::parser::UnescapeError>(b),
{
    lemma_unescape_escape(b);
}

} // verus!
