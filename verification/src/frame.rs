//! STOMP frame representation (command, headers, body).
use vstd::prelude::*;
use vstd::std_specs::cmp::PartialEqSpecImpl;
use crate::text::{
    ascii_lower_char, chars_eq_ignore_ascii_case, decimal_chars, push_decimal, push_str,
    str_chars,
};

verus! {

/// A header as key and value text.
pub type SpecTextHeader = (Seq<char>, Seq<char>);

/// The key and value text of each header.
pub open spec fn text_headers(h: Seq<(String, String)>) -> Seq<SpecTextHeader> {
    h.map_values(|p: (String, String)| (p.0@, p.1@))
}

/// The value of the first header in `h[i..]` whose key equals `name` up to
/// ASCII case.
pub open spec fn lookup_header_from(h: Seq<SpecTextHeader>, name: Seq<char>, i: int) -> Option<
    Seq<char>,
>
    decreases h.len() - i,
{
    if i < 0 || i >= h.len() {
        None
    } else if chars_eq_ignore_ascii_case(h[i].0, name) {
        Some(h[i].1)
    } else {
        lookup_header_from(h, name, i + 1)
    }
}

/// The value of the first header whose key equals `name` up to ASCII case.
pub open spec fn lookup_header(h: Seq<SpecTextHeader>, name: Seq<char>) -> Option<Seq<char>> {
    lookup_header_from(h, name, 0)
}

/// A STOMP frame: a command, ordered headers (duplicates allowed) and a body.
#[derive(Debug, Clone)]
pub struct Frame {
    /// The frame command, such as `SEND` or `MESSAGE`.
    pub command: String,
    /// Headers in the order they were added.
    pub headers: Vec<(String, String)>,
    /// The raw body bytes.
    pub body: Vec<u8>,
}

/// The abstract value of a frame.
pub struct SpecFrame {
    /// The command text.
    pub command: Seq<char>,
    /// The headers, in order.
    pub headers: Seq<SpecTextHeader>,
    /// The body bytes.
    pub body: Seq<u8>,
}

impl View for Frame {
    type V = SpecFrame;

    open spec fn view(&self) -> SpecFrame {
        SpecFrame { command: self.command@, headers: text_headers(self.headers@), body: self.body@ }
    }
}

/// Whether two character sequences are equal (checked by characters).
pub fn chars_equal(a: &str, b: &str) -> (r: bool)
    ensures
        r == (a@ == b@),
{
    let x = str_chars(a);
    let y = str_chars(b);
    if x.len() != y.len() {
        return false;
    }
    let mut i: usize = 0;
    while i < x.len()
        invariant
            i <= x@.len(),
            x@.len() == y@.len(),
            x@ == a@,
            y@ == b@,
            forall|j: int| 0 <= j < i ==> x@[j] == y@[j],
        decreases x@.len() - i,
    {
        if x[i] != y[i] {
            return false;
        }
        i += 1;
    }
    assert(x@ =~= y@);
    true
}

/// Whether two strings are equal up to ASCII case (`eq_ignore_ascii_case`).
pub fn eq_ignore_ascii_case(a: &str, b: &str) -> (r: bool)
    ensures
        r == chars_eq_ignore_ascii_case(a@, b@),
{
    let x = str_chars(a);
    let y = str_chars(b);
    if x.len() != y.len() {
        return false;
    }
    let mut i: usize = 0;
    while i < x.len()
        invariant
            i <= x@.len(),
            x@.len() == y@.len(),
            x@ == a@,
            y@ == b@,
            forall|j: int| 0 <= j < i ==> ascii_lower_char(#[trigger] x@[j]) == ascii_lower_char(
                y@[j],
            ),
        decreases x@.len() - i,
    {
        if lower_char(x[i]) != lower_char(y[i]) {
            return false;
        }
        i += 1;
    }
    true
}

/// ASCII lower-casing of one character.
pub fn lower_char(c: char) -> (r: char)
    ensures
        r == ascii_lower_char(c),
{
    if 'A' <= c && c <= 'Z' {
        ((c as u32) + 32) as u8 as char
    } else {
        c
    }
}

/// Whether two byte sequences are equal.
fn bytes_equal(a: &[u8], b: &[u8]) -> (r: bool)
    ensures
        r == (a@ == b@),
{
    if a.len() != b.len() {
        return false;
    }
    let mut i: usize = 0;
    while i < a.len()
        invariant
            i <= a@.len(),
            a@.len() == b@.len(),
            forall|j: int| 0 <= j < i ==> a@[j] == b@[j],
        decreases a@.len() - i,
    {
        if a[i] != b[i] {
            return false;
        }
        i += 1;
    }
    assert(a@ =~= b@);
    true
}

/// Whether two header lists are equal, key by key and value by value.
fn headers_equal(a: &Vec<(String, String)>, b: &Vec<(String, String)>) -> (r: bool)
    ensures
        r == (text_headers(a@) == text_headers(b@)),
{
    if a.len() != b.len() {
        return false;
    }
    let mut i: usize = 0;
    while i < a.len()
        invariant
            i <= a@.len(),
            a@.len() == b@.len(),
            forall|j: int| 0 <= j < i ==> text_headers(a@)[j] == text_headers(b@)[j],
        decreases a@.len() - i,
    {
        if !chars_equal(a[i].0.as_str(), b[i].0.as_str()) || !chars_equal(
            a[i].1.as_str(),
            b[i].1.as_str(),
        ) {
            assert(text_headers(a@)[i as int] != text_headers(b@)[i as int]);
            return false;
        }
        i += 1;
    }
    assert(text_headers(a@) =~= text_headers(b@));
    true
}

impl PartialEqSpecImpl for Frame {
    open spec fn obeys_eq_spec() -> bool {
        true
    }

    open spec fn eq_spec(&self, other: &Frame) -> bool {
        self@ == other@
    }
}

impl PartialEq for Frame {
    fn eq(&self, other: &Frame) -> (r: bool) {
        let c = chars_equal(self.command.as_str(), other.command.as_str());
        let h = headers_equal(&self.headers, &other.headers);
        let b = bytes_equal(self.body.as_slice(), other.body.as_slice());
        c && h && b
    }
}

impl Eq for Frame {
}

impl Frame {
    /// A frame with the given command, no headers and an empty body.
    pub fn new(command: &str) -> (f: Frame)
        ensures
            f@.command == command@,
            f@.headers == Seq::<SpecTextHeader>::empty(),
            f@.body == Seq::<u8>::empty(),
    {
        let f = Frame { command: command.to_owned(), headers: Vec::new(), body: Vec::new() };
        assert(text_headers(f.headers@) =~= Seq::<SpecTextHeader>::empty());
        f
    }

    /// Appends a header (builder style). An existing header with the same key
    /// is kept: headers are a list, and lookup returns the first match.
    pub fn header(self, key: &str, value: &str) -> (f: Frame)
        ensures
            f@.command == self@.command,
            f@.headers == self@.headers.push((key@, value@)),
            f@.body == self@.body,
    {
        let mut f = self;
        f.headers.push((key.to_owned(), value.to_owned()));
        assert(text_headers(f.headers@) =~= self@.headers.push((key@, value@)));
        f
    }

    /// Adds a `receipt` header requesting a RECEIPT from the broker
    /// (builder style).
    pub fn receipt(self, id: &str) -> (f: Frame)
        ensures
            f@.command == self@.command,
            f@.headers == self@.headers.push(("receipt"@, id@)),
            f@.body == self@.body,
    {
        self.header("receipt", id)
    }

    /// Replaces the body (builder style).
    pub fn set_body(self, body: Vec<u8>) -> (f: Frame)
        ensures
            f@.command == self@.command,
            f@.headers == self@.headers,
            f@.body == body@,
    {
        let mut f = self;
        f.body = body;
        f
    }

    /// The value of the first header whose key equals `name` up to ASCII
    /// case, or `None`.
    pub fn get_header(&self, name: &str) -> (r: Option<&str>)
        ensures
            match (r, lookup_header(self@.headers, name@)) {
                (Some(v), Some(w)) => v@ == w,
                (None, None) => true,
                _ => false,
            },
    {
        let ghost h = self@.headers;
        let mut i: usize = 0;
        while i < self.headers.len()
            invariant
                i <= self.headers@.len(),
                h == text_headers(self.headers@),
                lookup_header(h, name@) == lookup_header_from(h, name@, i as int),
            decreases self.headers@.len() - i,
        {
            if eq_ignore_ascii_case(self.headers[i].0.as_str(), name) {
                return Some(self.headers[i].1.as_str());
            }
            i += 1;
        }
        None
    }

    /// A copy of the frame.
    pub fn duplicate(&self) -> (f: Frame)
        ensures
            f@ == self@,
    {
        let mut headers: Vec<(String, String)> = Vec::new();
        let mut i: usize = 0;
        while i < self.headers.len()
            invariant
                i <= self.headers@.len(),
                text_headers(headers@) == text_headers(self.headers@).subrange(0, i as int),
            decreases self.headers@.len() - i,
        {
            let k = self.headers[i].0.clone();
            let v = self.headers[i].1.clone();
            let ghost before = headers@;
            headers.push((k, v));
            assert(text_headers(headers@) =~= text_headers(before).push((k@, v@)));
            assert(text_headers(self.headers@).subrange(0, i + 1) =~= text_headers(
                self.headers@,
            ).subrange(0, i as int).push((k@, v@)));
            i += 1;
        }
        let mut body: Vec<u8> = Vec::new();
        let mut j: usize = 0;
        while j < self.body.len()
            invariant
                j <= self.body@.len(),
                body@ == self.body@.subrange(0, j as int),
            decreases self.body@.len() - j,
        {
            body.push(self.body[j]);
            j += 1;
        }
        assert(text_headers(self.headers@).subrange(0, self.headers@.len() as int) =~= text_headers(
            self.headers@,
        ));
        assert(body@ =~= self.body@);
        Frame { command: self.command.clone(), headers, body }
    }

    /// A human-readable rendering: the command, each header on its own line,
    /// and the body length.
    pub fn describe(&self) -> (s: String)
        ensures
            s@ == describe_frame(self@),
    {
        let mut s = String::new();
        push_str(&mut s, "Command: ");
        push_str(&mut s, self.command.as_str());
        push_str(&mut s, "\n");
        let ghost h = self@.headers;
        let mut i: usize = 0;
        while i < self.headers.len()
            invariant
                i <= self.headers@.len(),
                h == text_headers(self.headers@),
                s@ == "Command: "@ + self@.command + "\n"@ + describe_headers(
                    h.subrange(0, i as int),
                ),
            decreases self.headers@.len() - i,
        {
            let ghost before = s@;
            push_str(&mut s, "  ");
            push_str(&mut s, self.headers[i].0.as_str());
            push_str(&mut s, ": ");
            push_str(&mut s, self.headers[i].1.as_str());
            push_str(&mut s, "\n");
            proof {
                let hs = h.subrange(0, i + 1);
                assert(hs.drop_last() =~= h.subrange(0, i as int));
                assert(hs.last() == h[i as int]);
            }
            i += 1;
        }
        assert(h.subrange(0, h.len() as int) =~= h);
        push_str(&mut s, "Body (");
        push_decimal(&mut s, self.body.len() as u64);
        push_str(&mut s, " bytes)");
        s
    }
}

/// One line per header: two spaces, the key, `: `, the value.
pub open spec fn describe_headers(h: Seq<SpecTextHeader>) -> Seq<char>
    decreases h.len(),
{
    if h.len() == 0 {
        Seq::empty()
    } else {
        describe_headers(h.drop_last()) + "  "@ + h.last().0 + ": "@ + h.last().1 + "\n"@
    }
}

/// The rendering `describe` produces.
pub open spec fn describe_frame(f: SpecFrame) -> Seq<char> {
    "Command: "@ + f.command + "\n"@ + describe_headers(f.headers) + "Body ("@ + decimal_chars(
        f.body.len(),
    ) + " bytes)"@
}

} // verus!
