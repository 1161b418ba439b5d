//! How the frame parser behaves as bytes arrive: bytes after a complete
//! frame do not change it, and heartbeats before a frame are skipped and
//! counted as consumed.
use vstd::prelude::*;
use crate::parser::{
    COLON, HeaderScan, LF, NUL, SpecFrameError, SpecHeader, SpecParsed, find_from,
    lemma_find_from, lemma_find_from_char, lemma_find_from_none, lemma_find_from_prefix,
    lemma_scan_headers_bound, lemma_skip_lf_bound,
    parse_body, scan_headers, skip_lf, skip_one_lf, spec_parse_frame, strip_cr,
    bytes_eq_ignore_ascii_case, content_length_name, content_length_value, find_content_length,
};

verus! {

// ---------------------------------------------------------------------------
// Bytes after a frame
// ---------------------------------------------------------------------------

proof fn lemma_skip_lf_ext(s: Seq<u8>, u: Seq<u8>, i: int)
    requires
        0 <= i,
        skip_lf(s, i) < s.len(),
    ensures
        skip_lf(s + u, i) == skip_lf(s, i),
    decreases s.len() - i,
{
    let t = s + u;
    if i < s.len() {
        assert(t[i] == s[i]);
        if s[i] == LF {
            lemma_skip_lf_ext(s, u, i + 1);
        }
    }
}

proof fn lemma_scan_ext(s: Seq<u8>, u: Seq<u8>, pos: int, acc: Seq<SpecHeader>)
    requires
        0 <= pos,
        scan_headers(s, pos, acc) is Done,
    ensures
        scan_headers(s + u, pos, acc) == scan_headers(s, pos, acc),
    decreases s.len() - pos,
{
    let t = s + u;
    assert(pos < s.len());
    assert(t[pos] == s[pos]);
    if s[pos] != LF {
        lemma_find_from(s, pos, LF);
        let e = find_from(s, pos, LF)->0;
        assert forall|k: int| pos <= k < s.len() implies s[k] == t[k] by {}
        lemma_find_from_prefix(s, t, pos, LF);
        assert(t.subrange(pos, e) =~= s.subrange(pos, e));
        let line = strip_cr(s.subrange(pos, e));
        let c = find_from(line, 0, COLON)->0;
        lemma_scan_ext(
            s,
            u,
            e + 1,
            acc.push((line.subrange(0, c), line.subrange(c + 1, line.len() as int))),
        );
    }
}

proof fn lemma_skip_one_lf_ext(s: Seq<u8>, u: Seq<u8>, q: int)
    requires
        0 <= q <= s.len(),
        q < s.len() || u.len() == 0 || u[0] != LF,
    ensures
        skip_one_lf(s + u, q) == skip_one_lf(s, q),
        q <= skip_one_lf(s, q) <= s.len(),
{
    let t = s + u;
    if q < s.len() {
        assert(t[q] == s[q]);
    } else if u.len() > 0 {
        assert(t[q] == u[0]);
    }
}

proof fn lemma_body_ext(
    s: Seq<u8>,
    u: Seq<u8>,
    max: usize,
    c: Seq<u8>,
    h: Seq<SpecHeader>,
    pos: int,
    r: SpecParsed,
)
    requires
        0 <= pos <= s.len(),
        parse_body(s, max, c, h, pos) == Ok::<Option<SpecParsed>, SpecFrameError>(Some(r)),
        r.3 < s.len() || u.len() == 0 || u[0] != LF,
    ensures
        parse_body(s + u, max, c, h, pos) == parse_body(s, max, c, h, pos),
        0 < r.3 <= s.len(),
{
    let t = s + u;
    assert forall|k: int| pos <= k < s.len() implies s[k] == t[k] by {}
    match crate::parser::find_content_length(h, 0) {
        Ok(Some(n)) => {
            let q = pos + n + 1;
            assert(t[pos + n] == s[pos + n]);
            assert(t.subrange(pos, pos + n) =~= s.subrange(pos, pos + n));
            lemma_skip_one_lf_ext(s, u, q);
        },
        Ok(None) => {
            lemma_find_from(s, pos, NUL);
            lemma_find_from_prefix(s, t, pos, NUL);
            let z = find_from(s, pos, NUL)->0;
            assert(t.subrange(pos, z) =~= s.subrange(pos, z));
            lemma_skip_one_lf_ext(s, u, z + 1);
        },
        Err(_) => {},
    }
}

/// Bytes that arrive after a complete frame do not change how it parses: a
/// frame with a command line, read from `s`, reads the same from `s`
/// followed by `u`, and consumes part of `s` only. (A line feed after the
/// frame's NUL belongs to the frame, so when the frame ends exactly at the
/// end of `s`, `u` must not start with a line feed.)
pub proof fn bytes_after_a_frame_do_not_change_it(s: Seq<u8>, u: Seq<u8>, max: usize, r: SpecParsed)
    requires
        spec_parse_frame(s, max) == Ok::<Option<SpecParsed>, SpecFrameError>(Some(r)),
        find_from(s, skip_lf(s, 0), LF) is Some,
        r.3 < s.len() || u.len() == 0 || u[0] != LF,
    ensures
        spec_parse_frame(s + u, max) == spec_parse_frame(s, max),
        0 < r.3 <= s.len(),
{
    let t = s + u;
    lemma_skip_lf_bound(s, 0);
    let p0 = skip_lf(s, 0);
    lemma_find_from(s, p0, LF);
    let e = find_from(s, p0, LF)->0;
    lemma_skip_lf_ext(s, u, 0);
    assert forall|k: int| p0 <= k < s.len() implies s[k] == t[k] by {}
    lemma_find_from_prefix(s, t, p0, LF);
    assert(t.subrange(p0, e) =~= s.subrange(p0, e));
    lemma_scan_ext(s, u, e + 1, Seq::empty());
    lemma_scan_headers_bound(s, e + 1, Seq::empty());
    match scan_headers(s, e + 1, Seq::empty()) {
        HeaderScan::Done(h, pos) => {
            lemma_body_ext(s, u, max, strip_cr(s.subrange(p0, e)), h, pos, r);
        },
        _ => {},
    }
}

// ---------------------------------------------------------------------------
// Heartbeats before a frame
// ---------------------------------------------------------------------------

/// `k` line feeds.
pub open spec fn line_feeds(k: nat) -> Seq<u8> {
    Seq::new(k, |i: int| LF)
}

/// A parse result whose consumed count is `k` larger.
pub open spec fn consumed_plus(
    r: Result<Option<SpecParsed>, SpecFrameError>,
    k: int,
) -> Result<Option<SpecParsed>, SpecFrameError> {
    match r {
        Ok(Some(p)) => Ok(Some((p.0, p.1, p.2, p.3 + k))),
        _ => r,
    }
}

/// An index found `k` further on.
pub open spec fn found_plus(f: Option<int>, k: int) -> Option<int> {
    match f {
        Some(j) => Some(j + k),
        None => None,
    }
}

/// A header scan that ends `k` further on.
pub open spec fn scan_plus(h: HeaderScan, k: int) -> HeaderScan {
    match h {
        HeaderScan::Done(hs, p) => HeaderScan::Done(hs, p + k),
        _ => h,
    }
}

proof fn lemma_find_shift(p: Seq<u8>, s: Seq<u8>, i: int, b: u8)
    requires
        0 <= i,
    ensures
        find_from(p + s, i + p.len(), b) == found_plus(find_from(s, i, b), p.len() as int),
    decreases s.len() - i,
{
    let t = p + s;
    if i < s.len() {
        assert(t[i + p.len()] == s[i]);
        if s[i] != b {
            lemma_find_shift(p, s, i + 1, b);
        }
    }
}

proof fn lemma_scan_shift(p: Seq<u8>, s: Seq<u8>, pos: int, acc: Seq<SpecHeader>)
    requires
        0 <= pos,
    ensures
        scan_headers(p + s, pos + p.len(), acc) == scan_plus(scan_headers(s, pos, acc), p.len() as int),
    decreases s.len() - pos,
{
    let t = p + s;
    let k = p.len() as int;
    if pos < s.len() {
        assert(t[pos + k] == s[pos]);
        if s[pos] != LF {
            lemma_find_shift(p, s, pos, LF);
            lemma_find_from(s, pos, LF);
            match find_from(s, pos, LF) {
                Some(e) => {
                    assert(t.subrange(pos + k, e + k) =~= s.subrange(pos, e));
                    let line = strip_cr(s.subrange(pos, e));
                    match find_from(line, 0, COLON) {
                        Some(c) => {
                            lemma_scan_shift(
                                p,
                                s,
                                e + 1,
                                acc.push((line.subrange(0, c), line.subrange(c + 1, line.len() as int))),
                            );
                            assert(e + 1 + k == e + k + 1);
                        },
                        None => {},
                    }
                },
                None => {},
            }
        }
    }
}

proof fn lemma_skip_one_lf_shift(p: Seq<u8>, s: Seq<u8>, q: int)
    requires
        0 <= q,
    ensures
        skip_one_lf(p + s, q + p.len()) == skip_one_lf(s, q) + p.len(),
{
    let t = p + s;
    if q < s.len() {
        assert(t[q + p.len()] == s[q]);
    }
}

proof fn lemma_body_shift(
    p: Seq<u8>,
    s: Seq<u8>,
    max: usize,
    c: Seq<u8>,
    h: Seq<SpecHeader>,
    pos: int,
)
    requires
        0 <= pos <= s.len(),
        p.len() + s.len() <= usize::MAX,
        crate::parser::find_content_length(h, 0) matches Ok(Some(n)) ==> (n > max || pos + n + 1
            + p.len() <= usize::MAX || pos + n + 1 > usize::MAX),
    ensures
        parse_body(p + s, max, c, h, pos + p.len()) == consumed_plus(
            parse_body(s, max, c, h, pos),
            p.len() as int,
        ),
{
    let t = p + s;
    let k = p.len() as int;
    match crate::parser::find_content_length(h, 0) {
        Ok(Some(n)) => {
            if n <= max {
                if pos + n + 1 <= s.len() {
                    assert(t[pos + n + k] == s[pos + n]);
                    assert(t.subrange(pos + k, pos + k + n) =~= s.subrange(pos, pos + n));
                    lemma_skip_one_lf_shift(p, s, pos + n + 1);
                    assert(pos + k + n + 1 == pos + n + 1 + k);
                }
            }
        },
        Ok(None) => {
            lemma_find_shift(p, s, pos, NUL);
            lemma_find_from(s, pos, NUL);
            match find_from(s, pos, NUL) {
                Some(z) => {
                    assert(t.subrange(pos + k, z + k) =~= s.subrange(pos, z));
                    lemma_skip_one_lf_shift(p, s, z + 1);
                    assert(z + k + 1 == z + 1 + k);
                },
                None => {},
            }
        },
        Err(_) => {},
    }
}

proof fn lemma_skip_feeds(s: Seq<u8>, k: nat, i: int)
    requires
        0 <= i <= k,
        s.len() == 0 || s[0] != LF,
    ensures
        skip_lf(line_feeds(k) + s, i) == k,
    decreases k - i,
{
    let t = line_feeds(k) + s;
    if i < k {
        assert(t[i] == LF);
        lemma_skip_feeds(s, k, i + 1);
    } else if s.len() > 0 {
        assert(t[i] == s[0]);
    }
}

/// Where the body of the frame at the start of `s` ends by its
/// `content-length` header (one past the NUL), when the frame has a command
/// line, complete headers and a usable `content-length` within the bound.
pub open spec fn announced_end(s: Seq<u8>, max: usize) -> Option<int> {
    match find_from(s, skip_lf(s, 0), LF) {
        Some(e) => match scan_headers(s, e + 1, Seq::empty()) {
            HeaderScan::Done(h, pos) => match crate::parser::find_content_length(h, 0) {
                Ok(Some(n)) => if n <= max {
                    Some(pos + n + 1)
                } else {
                    None
                },
                _ => None,
            },
            _ => None,
        },
        None => None,
    }
}

/// Line feeds before a frame are heartbeats: the frame after them parses
/// as it would alone, and they count as consumed. The whole input must fit
/// in memory; and a `content-length` whose body end fits in `usize` alone
/// must still fit after the feeds (else the feeds turn "more bytes needed"
/// into the parser's overflow error).
pub proof fn leading_heartbeats_are_skipped(s: Seq<u8>, k: nat, max: usize)
    requires
        s.len() == 0 || s[0] != LF,
        k + s.len() <= usize::MAX,
        announced_end(s, max) matches Some(end) ==> (end + k <= usize::MAX || end > usize::MAX),
    ensures
        spec_parse_frame(line_feeds(k) + s, max) == consumed_plus(
            spec_parse_frame(s, max),
            k as int,
        ),
{
    let p = line_feeds(k);
    let t = p + s;
    lemma_skip_feeds(s, k, 0);
    assert(skip_lf(s, 0) == 0);
    lemma_find_shift(p, s, 0, LF);
    lemma_find_shift(p, s, 0, NUL);
    lemma_find_from(s, 0, LF);
    lemma_find_from(s, 0, NUL);
    match find_from(s, 0, LF) {
        None => match find_from(s, 0, NUL) {
            Some(z) => {
                assert(t.subrange(k as int, z + k) =~= s.subrange(0, z));
                lemma_skip_one_lf_shift(p, s, z + 1);
                assert(z + k + 1 == z + 1 + k);
            },
            None => {},
        },
        Some(e) => {
            assert(t.subrange(k as int, e + k) =~= s.subrange(0, e));
            lemma_scan_shift(p, s, e + 1, Seq::empty());
            assert(e + k + 1 == e + 1 + k);
            lemma_scan_headers_bound(s, e + 1, Seq::empty());
            match scan_headers(s, e + 1, Seq::empty()) {
                HeaderScan::Done(h, pos) => {
                    lemma_body_shift(p, s, max, strip_cr(s.subrange(0, e)), h, pos);
                },
                _ => {},
            }
        },
    }
}

// ---------------------------------------------------------------------------
// A frame cut short
// ---------------------------------------------------------------------------

proof fn lemma_skip_lf_prefix(s: Seq<u8>, j: int, i: int)
    requires
        0 <= i <= j <= s.len(),
    ensures
        skip_lf(s.subrange(0, j), i) == if skip_lf(s, i) <= j {
            skip_lf(s, i)
        } else {
            j
        },
    decreases j - i,
{
    let q = s.subrange(0, j);
    lemma_skip_lf_bound(s, i);
    if i < j {
        assert(q[i] == s[i]);
        if s[i] == LF {
            lemma_skip_lf_prefix(s, j, i + 1);
        }
    }
}

proof fn lemma_scan_prefix(s: Seq<u8>, j: int, pos: int, acc: Seq<SpecHeader>)
    requires
        0 <= pos,
        0 <= j <= s.len(),
        scan_headers(s, pos, acc) is Done,
    ensures
        ({
            let p = scan_headers(s, pos, acc)->Done_1;
            &&& j < p ==> scan_headers(s.subrange(0, j), pos, acc) is Incomplete
            &&& j >= p ==> scan_headers(s.subrange(0, j), pos, acc) == scan_headers(s, pos, acc)
        }),
    decreases s.len() - pos,
{
    let q = s.subrange(0, j);
    lemma_scan_headers_bound(s, pos, acc);
    if pos < j {
        assert(q[pos] == s[pos]);
        if s[pos] != LF {
            lemma_find_from(s, pos, LF);
            let e = find_from(s, pos, LF)->0;
            let line0 = strip_cr(s.subrange(pos, e));
            lemma_find_from(line0, 0, COLON);
            let c0 = find_from(line0, 0, COLON)->0;
            lemma_scan_headers_bound(
                s,
                e + 1,
                acc.push((line0.subrange(0, c0), line0.subrange(c0 + 1, line0.len() as int))),
            );
            if j <= e {
                assert forall|k: int| pos <= k < q.len() implies q[k] != LF by {
                    assert(q[k] == s[k]);
                }
                lemma_find_from_none(q, pos, LF);
            } else {
                assert forall|k: int| pos <= k < e implies q[k] != LF by {
                    assert(q[k] == s[k]);
                }
                assert(q[e] == s[e]);
                lemma_find_from_char(q, pos, LF, e);
                assert(q.subrange(pos, e) =~= s.subrange(pos, e));
                let line = strip_cr(s.subrange(pos, e));
                let c = find_from(line, 0, COLON)->0;
                lemma_scan_prefix(
                    s,
                    j,
                    e + 1,
                    acc.push((line.subrange(0, c), line.subrange(c + 1, line.len() as int))),
                );
            }
        }
    }
}

/// A frame cut short needs more bytes: every prefix of the input that
/// stops before the frame's closing NUL parses as "more bytes needed", so
/// a frame split over any number of reads is never taken early. (Where the
/// frame has a command line, its command must hold no NUL; such a frame
/// could otherwise be read as a bare body up to that NUL.)
pub proof fn a_frame_cut_short_needs_more_bytes(s: Seq<u8>, max: usize, r: SpecParsed, j: int)
    requires
        spec_parse_frame(s, max) == Ok::<Option<SpecParsed>, SpecFrameError>(Some(r)),
        0 <= j < r.3,
        !(j == r.3 - 1 && s[j] == LF),
        find_from(s, skip_lf(s, 0), LF) matches Some(e) ==> forall|i: int|
            skip_lf(s, 0) <= i < e ==> s[i] != NUL,
    ensures
        spec_parse_frame(s.subrange(0, j), max) == Ok::<Option<SpecParsed>, SpecFrameError>(None),
{
    crate::parser::lemma_parse_consumed_bound(s, max);
    let q = s.subrange(0, j);
    lemma_skip_lf_bound(s, 0);
    let p0 = skip_lf(s, 0);
    lemma_skip_lf_prefix(s, j, 0);
    let q0 = skip_lf(q, 0);
    if q0 >= j {
        lemma_find_from_none(q, q0, LF);
        lemma_find_from_none(q, q0, NUL);
    } else {
        assert(q0 == p0);
        lemma_find_from(s, p0, LF);
        match find_from(s, p0, LF) {
            None => {
                lemma_find_from(s, p0, NUL);
                let z = find_from(s, p0, NUL)->0;
                assert(j <= z);
                assert forall|k: int| p0 <= k < q.len() implies q[k] != LF && q[k] != NUL by {
                    assert(q[k] == s[k]);
                }
                lemma_find_from_none(q, p0, LF);
                lemma_find_from_none(q, p0, NUL);
            },
            Some(e) => {
                if j <= e {
                    assert forall|k: int| p0 <= k < q.len() implies q[k] != LF && q[k] != NUL by {
                        assert(q[k] == s[k]);
                    }
                    lemma_find_from_none(q, p0, LF);
                    lemma_find_from_none(q, p0, NUL);
                } else {
                    assert forall|k: int| p0 <= k < e implies q[k] != LF by {
                        assert(q[k] == s[k]);
                    }
                    assert(q[e] == s[e]);
                    lemma_find_from_char(q, p0, LF, e);
                    assert(q.subrange(p0, e) =~= s.subrange(p0, e));
                    lemma_scan_prefix(s, j, e + 1, Seq::empty());
                    match scan_headers(s, e + 1, Seq::empty()) {
                        HeaderScan::Done(h, pos) => {
                            if j >= pos {
                                match crate::parser::find_content_length(h, 0) {
                                    Ok(Some(n)) => {},
                                    Ok(None) => {
                                        lemma_find_from(s, pos, NUL);
                                        let z = find_from(s, pos, NUL)->0;
                                        assert(j <= z);
                                        assert forall|k: int| pos <= k < q.len() implies q[k]
                                            != NUL by {
                                            assert(q[k] == s[k]);
                                        }
                                        lemma_find_from_none(q, pos, NUL);
                                    },
                                    Err(_) => {},
                                }
                            }
                        },
                        _ => {},
                    }
                }
            },
        }
    }
}

// ---------------------------------------------------------------------------
// The content-length header
// ---------------------------------------------------------------------------

proof fn lemma_content_length_from(h: Seq<SpecHeader>, i: int, k: int)
    requires
        0 <= i <= k < h.len(),
        bytes_eq_ignore_ascii_case(h[k].0, content_length_name()),
        forall|m: int| i <= m < k ==> !bytes_eq_ignore_ascii_case(#[trigger] h[m].0, content_length_name()),
    ensures
        find_content_length(h, i) == match content_length_value(h[k].1) {
            Ok(n) => Ok::<Option<usize>, crate::parser::SpecLengthError>(Some(n)),
            Err(e) => Err(e),
        },
    decreases k - i,
{
    if i < k {
        assert(!bytes_eq_ignore_ascii_case(h[i].0, content_length_name()));
        lemma_content_length_from(h, i + 1, k);
    }
}

proof fn lemma_no_content_length_from(h: Seq<SpecHeader>, i: int)
    requires
        0 <= i,
        forall|m: int| 0 <= m < h.len() ==> !bytes_eq_ignore_ascii_case(#[trigger] h[m].0, content_length_name()),
    ensures
        find_content_length(h, i) == Ok::<Option<usize>, crate::parser::SpecLengthError>(None),
    decreases h.len() - i,
{
    if i < h.len() {
        assert(!bytes_eq_ignore_ascii_case(h[i].0, content_length_name()));
        lemma_no_content_length_from(h, i + 1);
    }
}

/// The announced length comes from the first header named `content-length`
/// (in any letter case), wherever it stands among the headers: its value
/// decides the length, or the error. Without such a header there is none.
pub proof fn content_length_is_read_wherever_the_header_stands(h: Seq<SpecHeader>, k: int)
    requires
        0 <= k < h.len(),
        bytes_eq_ignore_ascii_case(h[k].0, content_length_name()),
        forall|m: int| 0 <= m < k ==> !bytes_eq_ignore_ascii_case(#[trigger] h[m].0, content_length_name()),
    ensures
        find_content_length(h, 0) == match content_length_value(h[k].1) {
            Ok(n) => Ok::<Option<usize>, crate::parser::SpecLengthError>(Some(n)),
            Err(e) => Err(e),
        },
{
    lemma_content_length_from(h, 0, k);
}

/// Without a header named `content-length` no length is announced.
pub proof fn no_content_length_header_announces_nothing(h: Seq<SpecHeader>)
    requires
        forall|m: int| 0 <= m < h.len() ==> !bytes_eq_ignore_ascii_case(#[trigger] h[m].0, content_length_name()),
    ensures
        find_content_length(h, 0) == Ok::<Option<usize>, crate::parser::SpecLengthError>(None),
{
    lemma_no_content_length_from(h, 0);
}

/// A parsed frame whose headers name `content-length` (first at position
/// `k`, in any letter case) with a valid value `n` has a body of exactly
/// `n` bytes, NUL bytes included, wherever that header stands.
pub proof fn a_content_length_body_has_that_length(
    s: Seq<u8>,
    max: usize,
    r: SpecParsed,
    k: int,
    n: usize,
)
    requires
        spec_parse_frame(s, max) == Ok::<Option<SpecParsed>, SpecFrameError>(Some(r)),
        0 <= k < r.1.len(),
        bytes_eq_ignore_ascii_case(r.1[k].0, content_length_name()),
        forall|m: int| 0 <= m < k ==> !bytes_eq_ignore_ascii_case(#[trigger] r.1[m].0, content_length_name()),
        content_length_value(r.1[k].1) == Ok::<usize, crate::parser::SpecLengthError>(n),
    ensures
        r.2 matches Some(b) && b.len() == n,
{
    lemma_content_length_from(r.1, 0, k);
    let p0 = skip_lf(s, 0);
    match find_from(s, p0, LF) {
        Some(e) => {
            lemma_scan_headers_bound(s, e + 1, Seq::empty());
        },
        None => {},
    }
}

} // verus!
