//! Reading broker ERROR frames: which destination or subscription an error
//! is about.
use vstd::prelude::*;
use crate::frame::{Frame, SpecFrame, lookup_header};
use crate::text::{
    chars_eq_ignore_ascii_case, is_unicode_whitespace, is_whitespace, str_chars, utf8_lossy,
    utf8_text,
};
use crate::frame::lower_char;

verus! {

/// Whether `p` occurs in `t` at index `k`.
pub open spec fn occurs_at(t: Seq<char>, p: Seq<char>, k: int) -> bool {
    0 <= k && k + p.len() <= t.len() && t.subrange(k, k + p.len()) == p
}

/// The first index at or after `i` where `p` occurs in `t`.
pub open spec fn find_text(t: Seq<char>, p: Seq<char>, i: int) -> Option<int>
    decreases t.len() + 1 - i,
{
    if i < 0 || i + p.len() > t.len() {
        None
    } else if occurs_at(t, p, i) {
        Some(i)
    } else {
        find_text(t, p, i + 1)
    }
}

/// Whether `p` occurs in `t` at index `k`, up to ASCII case.
pub open spec fn occurs_at_ci(t: Seq<char>, p: Seq<char>, k: int) -> bool {
    0 <= k && k + p.len() <= t.len() && chars_eq_ignore_ascii_case(t.subrange(k, k + p.len()), p)
}

/// The first index at or after `i` where `p` occurs in `t`, up to ASCII case.
pub open spec fn find_text_ci(t: Seq<char>, p: Seq<char>, i: int) -> Option<int>
    decreases t.len() + 1 - i,
{
    if i < 0 || i + p.len() > t.len() {
        None
    } else if occurs_at_ci(t, p, i) {
        Some(i)
    } else {
        find_text_ci(t, p, i + 1)
    }
}

/// A character that ends a destination or subscription id inside error
/// text: whitespace, a comma or a quote.
pub open spec fn is_stop(c: char) -> bool {
    is_unicode_whitespace(c) || c == ',' || c == '"' || c == '\''
}

/// The index of the first stop character of `t` at or after `i`, or the
/// length of `t`.
pub open spec fn stop_index(t: Seq<char>, i: int) -> int
    decreases t.len() - i,
{
    if i < 0 || i >= t.len() {
        t.len() as int
    } else if is_stop(t[i]) {
        i
    } else {
        stop_index(t, i + 1)
    }
}

/// The text an error message and body are searched in: the `message`
/// header (or nothing), a space, and the body decoded as UTF-8 (lossily).
pub open spec fn error_text(f: SpecFrame) -> Seq<char> {
    let m = match lookup_header(f.headers, "message"@) {
        Some(v) => v,
        None => Seq::empty(),
    };
    m + " "@ + utf8_text(f.body)
}

/// The word that starts with the first occurrence of `prefix` in `t`, if it
/// is longer than the prefix.
pub open spec fn path_after(t: Seq<char>, prefix: Seq<char>) -> Option<Seq<char>> {
    match find_text(t, prefix, 0) {
        Some(start) => {
            let rest = t.subrange(start, t.len() as int);
            let end = stop_index(rest, 0);
            if end > prefix.len() {
                Some(rest.subrange(0, end))
            } else {
                None
            }
        },
        None => None,
    }
}

/// The destination an ERROR frame is about: its `destination` header, else
/// the first `/topic/...` word of its text, else the first `/queue/...` word.
pub open spec fn error_destination(f: SpecFrame) -> Option<Seq<char>> {
    match lookup_header(f.headers, "destination"@) {
        Some(d) => Some(d),
        None => match path_after(error_text(f), "/topic/"@) {
            Some(p) => Some(p),
            None => path_after(error_text(f), "/queue/"@),
        },
    }
}

/// The subscription id an ERROR frame names, in the form
/// `subscription <id>` (matched up to ASCII case), as some brokers write it.
pub open spec fn error_subscription_id(f: SpecFrame) -> Option<Seq<char>> {
    let t = error_text(f);
    match find_text_ci(t, "subscription "@, 0) {
        Some(i) => {
            let rest = t.subrange(i + 13, t.len() as int);
            let end = stop_index(rest, 0);
            if end > 0 {
                Some(rest.subrange(0, end))
            } else {
                None
            }
        },
        None => None,
    }
}

/// Whether `p` occurs in `t` at `k`.
fn occurs_at_exec(t: &[char], p: &[char], k: usize) -> (r: bool)
    ensures
        r == occurs_at(t@, p@, k as int),
{
    if k > t.len() || p.len() > t.len() - k {
        return false;
    }
    let mut j: usize = 0;
    while j < p.len()
        invariant
            k + p@.len() <= t@.len(),
            t@.len() <= usize::MAX,
            j <= p@.len(),
            forall|m: int| 0 <= m < j ==> t@[k + m] == p@[m],
        decreases p@.len() - j,
    {
        assert(k + j < t@.len());
        if t[k + j] != p[j] {
            assert(t@.subrange(k as int, k + p@.len())[j as int] != p@[j as int]);
            return false;
        }
        j += 1;
    }
    assert(t@.subrange(k as int, k + p@.len()) =~= p@);
    true
}

/// Whether `p` occurs in `t` at `k` up to ASCII case.
fn occurs_at_ci_exec(t: &[char], p: &[char], k: usize) -> (r: bool)
    ensures
        r == occurs_at_ci(t@, p@, k as int),
{
    if k > t.len() || p.len() > t.len() - k {
        return false;
    }
    let ghost w = t@.subrange(k as int, k + p@.len());
    let mut j: usize = 0;
    while j < p.len()
        invariant
            k + p@.len() <= t@.len(),
            t@.len() <= usize::MAX,
            w == t@.subrange(k as int, k + p@.len()),
            j <= p@.len(),
            forall|m: int|
                0 <= m < j ==> crate::text::ascii_lower_char(#[trigger] w[m])
                    == crate::text::ascii_lower_char(p@[m]),
        decreases p@.len() - j,
    {
        assert(k + j < t@.len());
        assert(w[j as int] == t@[k + j]);
        if lower_char(t[k + j]) != lower_char(p[j]) {
            return false;
        }
        j += 1;
    }
    true
}

/// The first index at or after `from` where `p` occurs in `t`.
fn find_text_exec(t: &[char], p: &[char], from: usize) -> (r: Option<usize>)
    ensures
        match (r, find_text(t@, p@, from as int)) {
            (Some(i), Some(j)) => i == j,
            (None, None) => true,
            _ => false,
        },
    decreases t@.len() + 1 - from,
{
    if from > t.len() || p.len() > t.len() - from {
        None
    } else if occurs_at_exec(t, p, from) {
        Some(from)
    } else {
        assert(p@.len() > 0) by {
            if p@.len() == 0 {
                assert(t@.subrange(from as int, from as int) =~= p@);
            }
        }
        find_text_exec(t, p, from + 1)
    }
}

/// The first index at or after `from` where `p` occurs in `t` up to ASCII
/// case.
fn find_text_ci_exec(t: &[char], p: &[char], from: usize) -> (r: Option<usize>)
    ensures
        match (r, find_text_ci(t@, p@, from as int)) {
            (Some(i), Some(j)) => i == j,
            (None, None) => true,
            _ => false,
        },
    decreases t@.len() + 1 - from,
{
    if from > t.len() || p.len() > t.len() - from {
        None
    } else if occurs_at_ci_exec(t, p, from) {
        Some(from)
    } else {
        assert(p@.len() > 0) by {
            if p@.len() == 0 {
                assert(t@.subrange(from as int, from as int) =~= p@);
            }
        }
        find_text_ci_exec(t, p, from + 1)
    }
}

/// Whether `c` ends a word of error text.
fn is_stop_exec(c: char) -> (r: bool)
    ensures
        r == is_stop(c),
{
    is_whitespace(c) || c == ',' || c == '"' || c == '\''
}

/// The index of the first stop character of `t` at or after `from`, or the
/// length of `t`.
fn stop_index_exec(t: &[char], from: usize) -> (r: usize)
    requires
        from <= t@.len(),
    ensures
        r == stop_index(t@, from as int),
        from <= r <= t@.len(),
    decreases t@.len() - from,
{
    if from >= t.len() {
        t.len()
    } else if is_stop_exec(t[from]) {
        from
    } else {
        stop_index_exec(t, from + 1)
    }
}

/// The characters `t[from..to]` as a string.
fn chars_to_string(t: &[char], from: usize, to: usize) -> (s: String)
    requires
        from <= to <= t@.len(),
    ensures
        s@ == t@.subrange(from as int, to as int),
{
    let mut s = String::new();
    let mut k = from;
    while k < to
        invariant
            from <= k <= to <= t@.len(),
            s@ == t@.subrange(from as int, k as int),
        decreases to - k,
    {
        crate::text::string_push(&mut s, t[k]);
        k += 1;
    }
    s
}

proof fn lemma_find_text_bound(t: Seq<char>, p: Seq<char>, i: int)
    ensures
        find_text(t, p, i) matches Some(k) ==> i <= k && k + p.len() <= t.len(),
        find_text_ci(t, p, i) matches Some(k) ==> i <= k && k + p.len() <= t.len(),
    decreases t.len() + 1 - i,
{
    if 0 <= i && i + p.len() <= t.len() {
        lemma_find_text_bound(t, p, i + 1);
    }
}

/// The searchable text of an ERROR frame.
fn error_text_exec(frame: &Frame) -> (t: Vec<char>)
    ensures
        t@ == error_text(frame@),
{
    let mut v: Vec<char> = match frame.get_header("message") {
        Some(m) => str_chars(m),
        None => Vec::new(),
    };
    v.push(' ');
    let body = utf8_lossy(frame.body.as_slice());
    let b = str_chars(body.as_str());
    let mut i: usize = 0;
    let ghost start = v@;
    while i < b.len()
        invariant
            i <= b@.len(),
            v@ == start + b@.subrange(0, i as int),
        decreases b@.len() - i,
    {
        v.push(b[i]);
        i += 1;
    }
    proof {
        reveal_strlit(" ");
        assert(b@.subrange(0, b@.len() as int) =~= b@);
    }
    v
}

/// The word starting at the first `prefix` in `t`, if longer than `prefix`.
fn path_after_exec(t: &[char], prefix: &[char]) -> (r: Option<String>)
    ensures
        opt_chars(r) == path_after(t@, prefix@),
{
    proof {
        lemma_find_text_bound(t@, prefix@, 0);
    }
    match find_text_exec(t, prefix, 0) {
        Some(start) => {
            let rest = slice_chars(t, start);
            let end = stop_index_exec(rest.as_slice(), 0);
            if end > prefix.len() {
                Some(chars_to_string(rest.as_slice(), 0, end))
            } else {
                None
            }
        },
        None => None,
    }
}

/// The characters `t[from..]`.
fn slice_chars(t: &[char], from: usize) -> (r: Vec<char>)
    requires
        from <= t@.len(),
    ensures
        r@ == t@.subrange(from as int, t@.len() as int),
{
    let mut r: Vec<char> = Vec::new();
    let mut k = from;
    while k < t.len()
        invariant
            from <= k <= t@.len(),
            r@ == t@.subrange(from as int, k as int),
        decreases t@.len() - k,
    {
        r.push(t[k]);
        k += 1;
    }
    r
}

/// The text of an optional string.
pub open spec fn opt_chars(o: Option<String>) -> Option<Seq<char>> {
    match o {
        Some(s) => Some(s@),
        None => None,
    }
}

/// The destination an ERROR frame is about: its `destination` header, or
/// else the first `/topic/...` or `/queue/...` word of its `message` header
/// and body.
pub fn extract_destination_from_error(frame: &Frame) -> (r: Option<String>)
    ensures
        opt_chars(r) == error_destination(frame@),
{
    if let Some(d) = frame.get_header("destination") {
        return Some(d.to_owned());
    }
    let text = error_text_exec(frame);
    let topic = str_chars("/topic/");
    match path_after_exec(text.as_slice(), topic.as_slice()) {
        Some(p) => Some(p),
        None => {
            let queue = str_chars("/queue/");
            path_after_exec(text.as_slice(), queue.as_slice())
        },
    }
}

/// The subscription id an ERROR frame names as `subscription <id>` in its
/// `message` header or body, matched up to ASCII case.
pub fn extract_subscription_id_from_error(frame: &Frame) -> (r: Option<String>)
    ensures
        opt_chars(r) == error_subscription_id(frame@),
{
    let text = error_text_exec(frame);
    let pat = str_chars("subscription ");
    proof {
        reveal_strlit("subscription ");
        lemma_find_text_bound(text@, pat@, 0);
    }
    match find_text_ci_exec(text.as_slice(), pat.as_slice(), 0) {
        Some(i) => {
            let rest = slice_chars(text.as_slice(), i + 13);
            let end = stop_index_exec(rest.as_slice(), 0);
            if end > 0 {
                Some(chars_to_string(rest.as_slice(), 0, end))
            } else {
                None
            }
        },
        None => None,
    }
}

// ---------------------------------------------------------------------------
// Laws
// ---------------------------------------------------------------------------

proof fn lemma_stop_index(t: Seq<char>, i: int)
    requires
        0 <= i <= t.len(),
    ensures
        i <= stop_index(t, i) <= t.len(),
        forall|k: int| i <= k < stop_index(t, i) ==> !is_stop(#[trigger] t[k]),
        stop_index(t, i) < t.len() ==> is_stop(t[stop_index(t, i)]),
    decreases t.len() - i,
{
    if i < t.len() && !is_stop(t[i]) {
        lemma_stop_index(t, i + 1);
    }
}

proof fn lemma_find_text_found(t: Seq<char>, p: Seq<char>, i: int)
    requires
        0 <= i,
    ensures
        find_text(t, p, i) matches Some(k) ==> i <= k && occurs_at(t, p, k),
    decreases t.len() + 1 - i,
{
    if i + p.len() <= t.len() && !occurs_at(t, p, i) {
        lemma_find_text_found(t, p, i + 1);
    }
}

/// The word after `prefix` in `t`, when there is one, is a whole word of
/// `t`: it starts with `prefix`, holds no whitespace, comma or quote, and is
/// followed in `t` by the end of the text or by such a character.
proof fn lemma_path_after(t: Seq<char>, prefix: Seq<char>)
    ensures
        path_after(t, prefix) matches Some(w) ==> {
            &&& w.len() > prefix.len()
            &&& w.subrange(0, prefix.len() as int) == prefix
            &&& forall|i: int| 0 <= i < w.len() ==> !(is_unicode_whitespace(#[trigger] w[i]) || w[i] == ',' || w[i] == '"' || w[i] == '\'')
            &&& exists|k: int|
                0 <= k && k + w.len() <= t.len() && #[trigger] t.subrange(k, k + w.len()) == w && (k
                    + w.len() == t.len() || (is_unicode_whitespace(t[k + w.len()]) || t[k + w.len()] == ',' || t[k + w.len()] == '"' || t[k + w.len()] == '\''))
        },
{
    lemma_find_text_found(t, prefix, 0);
    match find_text(t, prefix, 0) {
        Some(start) => {
            let rest = t.subrange(start, t.len() as int);
            lemma_stop_index(rest, 0);
            let end = stop_index(rest, 0);
            if end > prefix.len() {
                let w = rest.subrange(0, end);
                assert forall|i: int| 0 <= i < w.len() implies !(is_unicode_whitespace(#[trigger] w[i]) || w[i] == ',' || w[i] == '"' || w[i] == '\'') by {
                    assert(w[i] == rest[i]);
                }
                assert(w.subrange(0, prefix.len() as int) =~= t.subrange(
                    start,
                    start + prefix.len(),
                ));
                assert(t.subrange(start, start + w.len()) =~= w);
                if start + w.len() < t.len() {
                    assert(t[start + w.len()] == rest[end]);
                }
            }
        },
        None => {},
    }
}

/// A destination read from the text of an ERROR frame (one without a
/// `destination` header) is a whole `/topic/...` or `/queue/...` word of
/// that text: it holds no whitespace, comma, double quote or single quote,
/// and in the text it is followed by the end or by such a character. So a
/// destination quoted in the message comes out without its quotes.
pub proof fn error_destinations_are_whole_words(f: SpecFrame)
    requires
        lookup_header(f.headers, "destination"@) is None,
    ensures
        error_destination(f) matches Some(d) ==> {
            &&& d.len() > 7
            &&& d.subrange(0, 7) == "/topic/"@ || d.subrange(0, 7) == "/queue/"@
            &&& forall|i: int| 0 <= i < d.len() ==> !(is_unicode_whitespace(#[trigger] d[i]) || d[i] == ',' || d[i] == '"' || d[i] == '\'')
            &&& exists|k: int|
                0 <= k && k + d.len() <= error_text(f).len() && #[trigger] error_text(f).subrange(
                    k,
                    k + d.len(),
                ) == d && (k + d.len() == error_text(f).len() || {
                    let c = error_text(f)[k + d.len()];
                    is_unicode_whitespace(c) || c == ',' || c == '"' || c == '\''
                })
        },
{
    reveal_strlit("/topic/");
    reveal_strlit("/queue/");
    lemma_path_after(error_text(f), "/topic/"@);
    lemma_path_after(error_text(f), "/queue/"@);
}

/// A subscription id read from the text of an ERROR frame holds no
/// whitespace, comma, double quote or single quote.
pub proof fn error_subscription_ids_are_whole_words(f: SpecFrame)
    ensures
        error_subscription_id(f) matches Some(id) ==> id.len() > 0 && forall|i: int|
            0 <= i < id.len() ==> !(is_unicode_whitespace(#[trigger] id[i]) || id[i] == ',' || id[i] == '"' || id[i] == '\''),
{
    let t = error_text(f);
    match find_text_ci(t, "subscription "@, 0) {
        Some(i) => {
            lemma_find_text_ci_bound(t, "subscription "@, 0);
            reveal_strlit("subscription ");
            let rest = t.subrange(i + 13, t.len() as int);
            lemma_stop_index(rest, 0);
            let end = stop_index(rest, 0);
            if end > 0 {
                let w = rest.subrange(0, end);
                assert forall|k: int| 0 <= k < w.len() implies !(is_unicode_whitespace(#[trigger] w[k]) || w[k] == ',' || w[k] == '"' || w[k] == '\'') by {
                    assert(w[k] == rest[k]);
                }
            }
        },
        None => {},
    }
}

proof fn lemma_find_text_ci_bound(t: Seq<char>, p: Seq<char>, i: int)
    requires
        0 <= i,
    ensures
        find_text_ci(t, p, i) matches Some(k) ==> i <= k && k + p.len() <= t.len(),
    decreases t.len() + 1 - i,
{
    if i + p.len() <= t.len() && !occurs_at_ci(t, p, i) {
        lemma_find_text_ci_bound(t, p, i + 1);
    }
}

} // verus!
