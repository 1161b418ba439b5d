use vstd::prelude::*;
use vstd::utf8::*;

verus! {

/// The decimal digit character for a value below ten.
pub open spec fn digit_char(d: nat) -> char {
    ((48 + d) as u8) as char
}

/// The decimal representation of a natural number, most significant digit
/// first, without leading zeros.
pub open spec fn decimal_chars(n: nat) -> Seq<char>
    decreases n,
{
    if n < 10 {
        seq![digit_char(n)]
    } else {
        decimal_chars(n / 10).push(digit_char(n % 10))
    }
}

/// Unicode `White_Space`, as `char::is_whitespace` defines it.
pub open spec fn is_unicode_whitespace(c: char) -> bool {
    let u = c as u32;
    ||| 9 <= u <= 13
    ||| u == 32
    ||| u == 0x85
    ||| u == 0xA0
    ||| u == 0x1680
    ||| 0x2000 <= u <= 0x200A
    ||| u == 0x2028
    ||| u == 0x2029
    ||| u == 0x202F
    ||| u == 0x205F
    ||| u == 0x3000
}

/// `s` without its leading whitespace.
pub open spec fn trim_start_ws(s: Seq<char>) -> Seq<char>
    decreases s.len(),
{
    if s.len() > 0 && is_unicode_whitespace(s[0]) {
        trim_start_ws(s.drop_first())
    } else {
        s
    }
}

/// `s` without its trailing whitespace.
pub open spec fn trim_end_ws(s: Seq<char>) -> Seq<char>
    decreases s.len(),
{
    if s.len() > 0 && is_unicode_whitespace(s.last()) {
        trim_end_ws(s.drop_last())
    } else {
        s
    }
}

/// `s` without leading and trailing whitespace, as `str::trim` returns it.
pub open spec fn trim_ws(s: Seq<char>) -> Seq<char> {
    trim_end_ws(trim_start_ws(s))
}

/// ASCII lower-casing of one character; every other character is unchanged.
pub open spec fn ascii_lower_char(c: char) -> char {
    if 'A' <= c <= 'Z' {
        ((c as u32) + 32) as char
    } else {
        c
    }
}

/// Equality of two character sequences up to ASCII case.
pub open spec fn chars_eq_ignore_ascii_case(a: Seq<char>, b: Seq<char>) -> bool {
    &&& a.len() == b.len()
    &&& forall|i: int| 0 <= i < a.len() ==> ascii_lower_char(#[trigger] a[i]) == ascii_lower_char(b[i])
}

/// What `String::from_utf8_lossy` makes of a byte sequence.
pub uninterp spec fn lossy_text(bytes: Seq<u8>) -> Seq<char>;

/// Text decoded from bytes the way `String::from_utf8_lossy` does it: the
/// exact decoding for valid UTF-8, the lossy text otherwise.
pub open spec fn utf8_text(bytes: Seq<u8>) -> Seq<char> {
    if valid_utf8(bytes) {
        decode_utf8(bytes)
    } else {
        lossy_text(bytes)
    }
}

/// What `format!("{:?}", String::from_utf8_lossy(bytes))` makes of a byte
/// sequence: the lossy text, quoted and escaped as `Debug` does.
pub uninterp spec fn debug_lossy_text(bytes: Seq<u8>) -> Seq<char>;

/// The `Display` text of the `Utf8Error` that `std::str::from_utf8` reports
/// for an invalid byte sequence.
pub uninterp spec fn utf8_error_text(bytes: Seq<u8>) -> Seq<char>;

/// Appends one character to a string.
///
/// Trusted: `String::push` appends `c` at the end of the string.
#[verifier::external_body]
pub(crate) fn string_push(s: &mut String, c: char)
    ensures
        final(s)@ == old(s)@.push(c),
{
    s.push(c);
}

/// Decodes bytes as UTF-8.
///
/// Trusted: `std::str::from_utf8` succeeds exactly on valid UTF-8 and then
/// yields the decoded characters; on failure this returns the `Display` text
/// of its `Utf8Error`, which is a function of the bytes alone.
#[verifier::external_body]
pub(crate) fn str_from_utf8(v: &[u8]) -> (r: Result<&str, String>)
    ensures
        r is Ok <==> valid_utf8(v@),
        r matches Ok(s) ==> s@ == decode_utf8(v@),
        r matches Err(e) ==> e@ == utf8_error_text(v@),
{
    std::str::from_utf8(v).map_err(|e| e.to_string())
}

/// Decodes bytes as UTF-8, replacing invalid sequences.
///
/// Trusted: `String::from_utf8_lossy` returns the decoded text, which for
/// valid UTF-8 is exactly the decoding; its result is a function of the bytes.
#[verifier::external_body]
pub(crate) fn utf8_lossy(v: &[u8]) -> (s: String)
    ensures
        valid_utf8(v@) ==> s@ == decode_utf8(v@),
        !valid_utf8(v@) ==> s@ == lossy_text(v@),
{
    String::from_utf8_lossy(v).into_owned()
}

/// The `Debug` rendering of the lossy decoding of `v`.
///
/// Trusted: formats `String::from_utf8_lossy(v)` with `{:?}`; the text is a
/// function of the bytes alone. Nothing further is stated of it.
#[verifier::external_body]
pub(crate) fn debug_lossy(v: &[u8]) -> (s: String)
    ensures
        s@ == debug_lossy_text(v@),
{
    format!("{:?}", String::from_utf8_lossy(v))
}

/// The characters of a string slice, in order.
pub fn str_chars(s: &str) -> (v: Vec<char>)
    ensures
        v@ == s@,
{
    let mut v: Vec<char> = Vec::new();
    for c in it: s.chars()
        invariant
            v@ == it.seq().take(it.index() as int),
    {
        v.push(c);
    }
    v
}

/// Builds a string from a sequence of characters.
pub fn string_from_chars(v: &[char]) -> (s: String)
    ensures
        s@ == v@,
{
    let mut s = String::new();
    let mut i: usize = 0;
    while i < v.len()
        invariant
            i <= v.len(),
            s@ == v@.subrange(0, i as int),
        decreases v.len() - i,
    {
        string_push(&mut s, v[i]);
        i += 1;
    }
    s
}

/// Appends the characters of `v` to `s`.
pub fn push_chars(s: &mut String, v: &[char])
    ensures
        final(s)@ == old(s)@ + v@,
{
    let mut i: usize = 0;
    while i < v.len()
        invariant
            i <= v.len(),
            s@ == old(s)@ + v@.subrange(0, i as int),
        decreases v.len() - i,
    {
        string_push(s, v[i]);
        i += 1;
    }
}

/// Appends the characters of `t` to `s`.
pub fn push_str(s: &mut String, t: &str)
    ensures
        final(s)@ == old(s)@ + t@,
{
    let v = str_chars(t);
    push_chars(s, v.as_slice());
}

/// Appends the decimal representation of `n` to `s`.
pub fn push_decimal(s: &mut String, n: u64)
    ensures
        final(s)@ == old(s)@ + decimal_chars(n as nat),
    decreases n,
{
    if n >= 10 {
        push_decimal(s, n / 10);
    }
    let d = (48 + n % 10) as u8;
    string_push(s, d as char);
    assert(d as char == digit_char((n % 10) as nat));
}

/// Whether `c` is Unicode whitespace (`char::is_whitespace`).
pub fn is_whitespace(c: char) -> (r: bool)
    ensures
        r == is_unicode_whitespace(c),
{
    let u = c as u32;
    (9 <= u && u <= 13) || u == 32 || u == 0x85 || u == 0xA0 || u == 0x1680 || (0x2000 <= u && u
        <= 0x200A) || u == 0x2028 || u == 0x2029 || u == 0x202F || u == 0x205F || u == 0x3000
}

proof fn lemma_trim_start_skip(s: Seq<char>, i: int)
    requires
        0 <= i <= s.len(),
        forall|k: int| 0 <= k < i ==> is_unicode_whitespace(#[trigger] s[k]),
    ensures
        trim_start_ws(s) == trim_start_ws(s.subrange(i, s.len() as int)),
    decreases i,
{
    if i > 0 {
        assert(s.drop_first().subrange(i - 1, s.drop_first().len() as int) =~= s.subrange(
            i,
            s.len() as int,
        ));
        lemma_trim_start_skip(s.drop_first(), i - 1);
    } else {
        assert(s.subrange(0, s.len() as int) =~= s);
    }
}

proof fn lemma_trim_end_skip(s: Seq<char>, j: int)
    requires
        0 <= j <= s.len(),
        forall|k: int| j <= k < s.len() ==> is_unicode_whitespace(#[trigger] s[k]),
    ensures
        trim_end_ws(s) == trim_end_ws(s.subrange(0, j)),
    decreases s.len() - j,
{
    if j < s.len() {
        assert(s.drop_last().subrange(0, j) =~= s.subrange(0, j));
        lemma_trim_end_skip(s.drop_last(), j);
    } else {
        assert(s.subrange(0, j) =~= s);
    }
}

/// The characters of `v` without leading and trailing Unicode whitespace
/// (`str::trim`).
pub fn trim_chars(v: &[char]) -> (r: Vec<char>)
    ensures
        r@ == trim_ws(v@),
{
    let mut i: usize = 0;
    while i < v.len() && is_whitespace(v[i])
        invariant
            i <= v.len(),
            forall|k: int| 0 <= k < i ==> is_unicode_whitespace(#[trigger] v@[k]),
        decreases v.len() - i,
    {
        i += 1;
    }
    proof {
        lemma_trim_start_skip(v@, i as int);
        assert(trim_start_ws(v@.subrange(i as int, v@.len() as int)) == v@.subrange(
            i as int,
            v@.len() as int,
        ));
    }
    let mut j: usize = v.len();
    while j > i && is_whitespace(v[j - 1])
        invariant
            i <= j <= v.len(),
            forall|k: int| j <= k < v.len() ==> is_unicode_whitespace(#[trigger] v@[k]),
        decreases j,
    {
        j -= 1;
    }
    let ghost mid = v@.subrange(i as int, v@.len() as int);
    proof {
        assert forall|k: int| (j - i) <= k < mid.len() implies is_unicode_whitespace(
            #[trigger] mid[k],
        ) by {
            assert(mid[k] == v@[k + i]);
        }
        lemma_trim_end_skip(mid, j - i);
        assert(mid.subrange(0, j - i) =~= v@.subrange(i as int, j as int));
        let m = v@.subrange(i as int, j as int);
        if m.len() > 0 {
            assert(!is_unicode_whitespace(m.last()));
        }
    }
    slice_to_vec_chars(v, i, j)
}

pub fn slice_to_vec_chars(v: &[char], i: usize, j: usize) -> (r: Vec<char>)
    requires
        i <= j <= v.len(),
    ensures
        r@ == v@.subrange(i as int, j as int),
{
    let mut r: Vec<char> = Vec::new();
    let mut k = i;
    while k < j
        invariant
            i <= k <= j <= v.len(),
            r@ == v@.subrange(i as int, k as int),
        decreases j - k,
    {
        r.push(v[k]);
        k += 1;
    }
    r
}


/// The index of the first `c` in `s` at or after `i`.
pub open spec fn char_index_from(s: Seq<char>, c: char, i: int) -> Option<int>
    decreases s.len() - i,
{
    if i < 0 || i >= s.len() {
        None
    } else if s[i] == c {
        Some(i)
    } else {
        char_index_from(s, c, i + 1)
    }
}

/// What a found index means: it holds `c`, and no earlier position from `i`
/// does; when nothing is found, no position from `i` holds `c`.
pub proof fn lemma_char_index_from(s: Seq<char>, c: char, i: int)
    requires
        0 <= i,
    ensures
        match char_index_from(s, c, i) {
            Some(j) => i <= j < s.len() && s[j] == c && forall|k: int| i <= k < j ==> s[k] != c,
            None => forall|k: int| i <= k < s.len() ==> s[k] != c,
        },
    decreases s.len() - i,
{
    if i < s.len() && s[i] != c {
        lemma_char_index_from(s, c, i + 1);
    }
}

/// Whether every character of `d` is an ASCII decimal digit.
pub open spec fn all_digits(d: Seq<char>) -> bool {
    forall|i: int| 0 <= i < d.len() ==> '0' <= #[trigger] d[i] <= '9'
}

/// The value of a sequence of decimal digits, most significant first.
pub open spec fn digits_nat(d: Seq<char>) -> nat
    decreases d.len(),
{
    if d.len() == 0 {
        0
    } else {
        digits_nat(d.drop_last()) * 10 + (d.last() as nat - 48) as nat
    }
}

/// `u64::from_str`: an optional `+` followed by at least one decimal digit,
/// with a value that fits in 64 bits.
pub open spec fn parse_u64_text(t: Seq<char>) -> Option<u64> {
    let d = if t.len() > 0 && t[0] == '+' {
        t.drop_first()
    } else {
        t
    };
    if d.len() > 0 && all_digits(d) && digits_nat(d) <= u64::MAX {
        Some(digits_nat(d) as u64)
    } else {
        None
    }
}

proof fn lemma_digits_prefix(d: Seq<char>, i: int)
    requires
        0 <= i <= d.len(),
        all_digits(d),
    ensures
        digits_nat(d.subrange(0, i)) <= digits_nat(d),
    decreases d.len() - i,
{
    if i < d.len() {
        let e = d.drop_last();
        assert(all_digits(e)) by {
            assert forall|k: int| 0 <= k < e.len() implies '0' <= #[trigger] e[k] <= '9' by {
                assert(e[k] == d[k]);
            }
        }
        lemma_digits_prefix(e, i);
        assert(e.subrange(0, i) =~= d.subrange(0, i));
    } else {
        assert(d.subrange(0, i) =~= d);
    }
}

/// The decimal value of the digits `d[start..]`, or `None` if one is not a
/// digit or the value does not fit in 64 bits.
fn digits_u64(d: &[char], start: usize) -> (r: Option<u64>)
    requires
        start <= d@.len(),
    ensures
        ({
            let e = d@.subrange(start as int, d@.len() as int);
            r == (if all_digits(e) && digits_nat(e) <= u64::MAX {
                Some(digits_nat(e) as u64)
            } else {
                None
            })
        }),
{
    let ghost e = d@.subrange(start as int, d@.len() as int);
    let mut acc: u64 = 0;
    let mut i = start;
    while i < d.len()
        invariant
            start <= i <= d@.len(),
            e == d@.subrange(start as int, d@.len() as int),
            all_digits(d@.subrange(start as int, i as int)),
            acc as nat == digits_nat(d@.subrange(start as int, i as int)),
        decreases d@.len() - i,
    {
        let c = d[i];
        if !('0' <= c && c <= '9') {
            assert(e[i - start] == c);
            return None;
        }
        let v = (c as u32 - 48) as u64;
        let ghost p = d@.subrange(start as int, i as int + 1);
        assert(p.drop_last() =~= d@.subrange(start as int, i as int));
        assert(p.last() == c);
        if acc > (u64::MAX - v) / 10 {
            proof {
                lemma_digit_step(acc as int, v as int, u64::MAX as int);
            }
            proof {
                if all_digits(e) {
                    lemma_digits_prefix(e, i - start + 1);
                    assert(e.subrange(0, i - start + 1) =~= p);
                }
            }
            return None;
        }
        proof {
            lemma_digit_step(acc as int, v as int, u64::MAX as int);
        }
        acc = acc * 10 + v;
        assert(all_digits(p)) by {
            assert forall|k: int| 0 <= k < p.len() implies '0' <= #[trigger] p[k] <= '9' by {
                if k < p.len() - 1 {
                    assert(p[k] == d@.subrange(start as int, i as int)[k]);
                }
            }
        }
        i += 1;
    }
    assert(d@.subrange(start as int, i as int) =~= e);
    Some(acc)
}

/// `u64::from_str` on a character sequence.
pub fn parse_u64(t: &[char]) -> (r: Option<u64>)
    ensures
        r == parse_u64_text(t@),
{
    let start: usize = if t.len() > 0 && t[0] == '+' {
        1
    } else {
        0
    };
    let ghost d = if t@.len() > 0 && t@[0] == '+' {
        t@.drop_first()
    } else {
        t@
    };
    assert(d =~= t@.subrange(start as int, t@.len() as int));
    if start >= t.len() {
        return None;
    }
    digits_u64(t, start)
}

/// The index of the first `c` in `v` at or after `from`.
pub fn find_char(v: &[char], from: usize, c: char) -> (r: Option<usize>)
    ensures
        match (r, char_index_from(v@, c, from as int)) {
            (Some(i), Some(j)) => i == j,
            (None, None) => true,
            _ => false,
        },
    decreases v@.len() - from,
{
    if from >= v.len() {
        None
    } else if v[from] == c {
        Some(from)
    } else {
        find_char(v, from + 1, c)
    }
}


/// The decimal representation of `n` is a non-empty run of digits whose
/// value is `n`.
pub proof fn lemma_decimal_digits(n: nat)
    ensures
        decimal_chars(n).len() > 0,
        all_digits(decimal_chars(n)),
        digits_nat(decimal_chars(n)) == n,
    decreases n,
{
    let d = decimal_chars(n);
    if n >= 10 {
        lemma_decimal_digits(n / 10);
        let p = decimal_chars(n / 10);
        assert(d.drop_last() =~= p);
        assert forall|k: int| 0 <= k < d.len() implies '0' <= #[trigger] d[k] <= '9' by {
            if k < p.len() {
                assert(d[k] == p[k]);
            }
        }
    }
    assert(digit_char(n % 10) as nat == 48 + n % 10) by {
        assert((48 + n % 10) < 256);
    }
    assert(d.last() == digit_char(n % 10));
    if n >= 10 {
        assert(digits_nat(d) == digits_nat(decimal_chars(n / 10)) * 10 + n % 10);
        assert(n == (n / 10) * 10 + n % 10) by (nonlinear_arith);
    } else {
        assert(d.drop_last() =~= Seq::<char>::empty());
        assert(digits_nat(d) == digits_nat(Seq::<char>::empty()) * 10 + n % 10);
    }
}

/// A non-empty run of digits parses as `u64` to its value, if that fits.
/// Appending digit `v` to the value `acc` stays within `max` exactly when
/// `acc` is at most `(max - v) / 10`: the test both digit parsers make
/// before they multiply.
pub proof fn lemma_digit_step(acc: int, v: int, max: int)
    requires
        0 <= acc,
        0 <= v <= 9,
        9 <= max,
    ensures
        (acc > (max - v) / 10) == (acc * 10 + v > max),
{
    assert((acc > (max - v) / 10) == (acc * 10 + v > max)) by (nonlinear_arith)
        requires
            0 <= acc,
            0 <= v <= 9,
            9 <= max,
    ;
}

/// Different numbers are written differently.
pub proof fn lemma_decimal_injective(a: nat, b: nat)
    requires
        decimal_chars(a) == decimal_chars(b),
    ensures
        a == b,
{
    lemma_decimal_digits(a);
    lemma_decimal_digits(b);
}

pub proof fn lemma_parse_digits(d: Seq<char>)
    requires
        d.len() > 0,
        all_digits(d),
        digits_nat(d) <= u64::MAX,
    ensures
        parse_u64_text(d) == Some(digits_nat(d) as u64),
{
    assert('0' <= d[0] <= '9');
}

/// Trimming leaves a run of digits unchanged.
pub proof fn lemma_trim_digits(d: Seq<char>)
    requires
        all_digits(d),
    ensures
        trim_ws(d) == d,
{
    if d.len() > 0 {
        assert('0' <= d[0] <= '9');
        assert('0' <= d.last() <= '9');
    }
}

} // verus!
