//! The command-line client's logic: its arguments, text helpers, error
//! reports and exit codes.
use vstd::prelude::*;
use vstd::utf8::*;
use crate::connection::{ConnError, IoFailureKind, ServerError, SpecServerError};
use crate::text::{
    char_index_from, decimal_chars, find_char, lemma_char_index_from, push_chars, push_decimal,
    push_str, slice_to_vec_chars, str_chars, str_from_utf8, string_from_chars, string_push,
    trim_chars, trim_ws,
};
use crate::frame::chars_equal;

verus! {

/// Exit code: success.
pub const SUCCESS: u8 = 0;

/// Exit code: the network failed (unreachable host, refused connection).
pub const NETWORK_ERROR: u8 = 1;

/// Exit code: the broker refused the credentials.
pub const AUTH_ERROR: u8 = 2;

/// Exit code: the protocol went wrong (unexpected answer, no receipt).
pub const PROTOCOL_ERROR: u8 = 3;

/// Exit code: the broker rejected a frame that asked for a receipt.
pub const FRAME_REJECTED: u8 = 4;

/// The client's command-line arguments.
#[derive(Debug, Clone)]
pub struct Cli {
    /// Broker address (`host:port`).
    pub address: String,
    /// Login.
    pub login: String,
    /// Passcode.
    pub passcode: String,
    /// `heart-beat` setting, `send,receive` in milliseconds.
    pub heartbeat: String,
    /// Destinations to subscribe to.
    pub subscribe: Vec<String>,
    /// Whether to run the panel interface.
    pub tui: bool,
    /// Whether to print a session summary on exit.
    pub summary: bool,
    /// A destination and body to send once, then exit.
    pub send: Option<Vec<String>>,
    /// Seconds to wait for the broker.
    pub timeout: u64,
}

// ---------------------------------------------------------------------------
// Text helpers
// ---------------------------------------------------------------------------

/// `s` cut to at most `max` characters: unchanged when it fits, else the
/// first `max - 3` characters and `...`, or only dots when `max` is three or
/// less.
pub open spec fn truncated(s: Seq<char>, max: nat) -> Seq<char> {
    if s.len() <= max {
        s
    } else if max <= 3 {
        Seq::new(max, |i: int| '.')
    } else {
        s.subrange(0, max - 3) + "..."@
    }
}

/// Truncates `s` to at most `max_len` characters, marking a cut with `...`.
/// Works on characters, so multibyte text is never split.
pub fn truncate_str(s: &str, max_len: usize) -> (r: String)
    ensures
        r@ == truncated(s@, max_len as nat),
{
    let v = str_chars(s);
    if v.len() <= max_len {
        return s.to_owned();
    }
    if max_len <= 3 {
        let mut r = String::new();
        let mut i: usize = 0;
        while i < max_len
            invariant
                i <= max_len,
                r@ == Seq::new(i as nat, |k: int| '.'),
            decreases max_len - i,
        {
            string_push(&mut r, '.');
            assert(r@ =~= Seq::new((i + 1) as nat, |k: int| '.'));
            i += 1;
        }
        return r;
    }
    let mut r = String::new();
    let mut i: usize = 0;
    while i < max_len - 3
        invariant
            max_len > 3,
            max_len < v@.len(),
            v@ == s@,
            i <= max_len - 3,
            r@ == s@.subrange(0, i as int),
        decreases max_len - 3 - i,
    {
        string_push(&mut r, v[i]);
        i += 1;
    }
    push_str(&mut r, "...");
    r
}

/// Truncation never leaves more than `max` characters, leaves text that
/// fits unchanged, and otherwise keeps the beginning of the text, marking
/// the cut with `...` when there is room for it.
pub proof fn truncation_fits(s: Seq<char>, max: nat)
    ensures
        truncated(s, max).len() <= max,
        s.len() <= max ==> truncated(s, max) == s,
        s.len() > max && max > 3 ==> truncated(s, max) == s.subrange(0, max - 3) + "..."@,
        s.len() > max ==> truncated(s, max).len() == max,
{
    reveal_strlit("...");
    assert("..."@.len() == 3);
}

/// `s` cut into pieces of `width` characters, the last one possibly
/// shorter; nothing when `width` is zero.
pub open spec fn wrapped(s: Seq<char>, width: nat) -> Seq<Seq<char>>
    decreases s.len(),
{
    if width == 0 || s.len() == 0 {
        Seq::empty()
    } else if s.len() <= width {
        seq![s]
    } else {
        seq![s.subrange(0, width as int)] + wrapped(s.subrange(width as int, s.len() as int), width)
    }
}

/// Splits `s` into pieces of at most `width` characters, on character
/// boundaries.
pub fn char_wrap(s: &str, width: usize) -> (r: Vec<String>)
    ensures
        r@.map_values(|x: String| x@) == wrapped(s@, width as nat),
{
    let mut r: Vec<String> = Vec::new();
    if width == 0 {
        assert(r@.map_values(|x: String| x@) =~= Seq::<Seq<char>>::empty());
        return r;
    }
    let v = str_chars(s);
    let mut start: usize = 0;
    assert(v@.subrange(0, v@.len() as int) =~= v@);
    assert(r@.map_values(|x: String| x@) =~= Seq::<Seq<char>>::empty());
    assert(Seq::<Seq<char>>::empty() + wrapped(s@, width as nat) =~= wrapped(s@, width as nat));
    while start < v.len()
        invariant
            width > 0,
            v@ == s@,
            start <= v@.len(),
            r@.map_values(|x: String| x@) + wrapped(v@.subrange(start as int, v@.len() as int), width as nat)
                == wrapped(s@, width as nat),
        decreases v@.len() - start,
    {
        let end = if v.len() - start <= width {
            v.len()
        } else {
            start + width
        };
        let mut chunk = String::new();
        let mut k = start;
        while k < end
            invariant
                start <= k <= end <= v@.len(),
                chunk@ == v@.subrange(start as int, k as int),
            decreases end - k,
        {
            string_push(&mut chunk, v[k]);
            k += 1;
        }
        let ghost rest = v@.subrange(start as int, v@.len() as int);
        let ghost before = r@;
        r.push(chunk);
        proof {
            if rest.len() <= width {
                assert(rest.subrange(0, rest.len() as int) =~= rest);
                assert(v@.subrange(end as int, v@.len() as int) =~= Seq::<char>::empty());
                assert(chunk@ =~= rest);
            } else {
                assert(chunk@ =~= rest.subrange(0, width as int));
                assert(rest.subrange(width as int, rest.len() as int) =~= v@.subrange(
                    end as int,
                    v@.len() as int,
                ));
            }
            assert(r@.map_values(|x: String| x@) =~= before.map_values(|x: String| x@).push(
                chunk@,
            ));
            assert(wrapped(rest, width as nat) =~= seq![chunk@] + wrapped(
                v@.subrange(end as int, v@.len() as int),
                width as nat,
            ));
        }
        start = end;
    }
    proof {
        assert(v@.subrange(start as int, v@.len() as int) =~= Seq::<char>::empty());
        assert(r@.map_values(|x: String| x@) + Seq::<Seq<char>>::empty() =~= r@.map_values(
            |x: String| x@,
        ));
    }
    r
}

/// The pieces of a sequence of pieces, joined.
pub open spec fn joined(p: Seq<Seq<char>>) -> Seq<char>
    decreases p.len(),
{
    if p.len() == 0 {
        Seq::empty()
    } else {
        p[0] + joined(p.drop_first())
    }
}

/// Wrapping loses nothing and adds nothing: joined again, the pieces give
/// back the text, and each piece holds between one and `width` characters.
pub proof fn wrapping_reassembles(s: Seq<char>, width: nat)
    requires
        width > 0,
    ensures
        joined(wrapped(s, width)) == s,
        forall|i: int|
            0 <= i < wrapped(s, width).len() ==> 1 <= #[trigger] wrapped(s, width)[i].len()
                <= width,
        forall|i: int|
            0 <= i < wrapped(s, width).len() - 1 ==> #[trigger] wrapped(s, width)[i].len()
                == width,
        wrapped(s, width).len() == (s.len() + width - 1) / (width as int),
    decreases s.len(),
{
    let w = wrapped(s, width);
    if s.len() == 0 {
        assert(s =~= Seq::<char>::empty());
    } else if s.len() <= width {
        assert(w.drop_first() =~= Seq::<Seq<char>>::empty());
        assert(joined(w.drop_first()) == Seq::<char>::empty());
        assert(w[0] == s);
        assert(s + Seq::<char>::empty() =~= s);
    } else {
        let rest = s.subrange(width as int, s.len() as int);
        wrapping_reassembles(rest, width);
        assert(w.drop_first() =~= wrapped(rest, width));
        assert(w[0] == s.subrange(0, width as int));
        assert(joined(w) == w[0] + joined(w.drop_first()));
        assert(s.subrange(0, width as int) + rest =~= s);
        assert forall|i: int| 0 <= i < w.len() implies 1 <= #[trigger] w[i].len() <= width by {
            if i > 0 {
                assert(w[i] == wrapped(rest, width)[i - 1]);
            }
        }
        assert forall|i: int| 0 <= i < w.len() - 1 implies #[trigger] w[i].len() == width by {
            if i > 0 {
                assert(w[i] == wrapped(rest, width)[i - 1]);
            }
        }
        let n = s.len() as int;
        let wd = width as int;
        vstd::arithmetic::div_mod::lemma_div_plus_one(n - 1, wd);
        assert(rest.len() + wd - 1 == n - 1);
        assert(wd + (n - 1) == n + wd - 1);
    }
    if s.len() == 0 {
        vstd::arithmetic::div_mod::lemma_div_multiples_vanish_fancy(0, width - 1, width as int);
        assert((width as int) * 0 + (width - 1) == width - 1);
    } else if s.len() <= width {
        let n = s.len() as int;
        let wd = width as int;
        vstd::arithmetic::div_mod::lemma_div_multiples_vanish_fancy(1, n - 1, wd);
        assert(wd * 1 + (n - 1) == n + wd - 1);
    }
}

/// The text shown for a message body: nothing for an empty body, the text
/// for UTF-8, else `(<n> bytes, binary)`.
pub open spec fn body_display(b: Seq<u8>) -> Seq<char> {
    if b.len() == 0 {
        Seq::empty()
    } else if valid_utf8(b) {
        decode_utf8(b)
    } else {
        "("@ + decimal_chars(b.len()) + " bytes, binary)"@
    }
}

/// How a message body is shown.
pub fn message_body_text(body: &[u8]) -> (s: String)
    ensures
        s@ == body_display(body@),
{
    if body.len() == 0 {
        return String::new();
    }
    match str_from_utf8(body) {
        Ok(t) => t.to_owned(),
        Err(_) => {
            let mut s = String::new();
            push_str(&mut s, "(");
            push_decimal(&mut s, body.len() as u64);
            push_str(&mut s, " bytes, binary)");
            s
        },
    }
}

/// How a broker error is reported in the console: `message: body`, or the
/// message alone.
pub open spec fn broker_error_line_spec(e: SpecServerError) -> Seq<char> {
    match e.body {
        Some(b) => e.message + ": "@ + b,
        None => e.message,
    }
}

/// The console line for a broker error.
pub fn broker_error_line(e: &ServerError) -> (s: String)
    ensures
        s@ == broker_error_line_spec(e@),
{
    let mut s = e.message.clone();
    match &e.body {
        Some(b) => {
            push_str(&mut s, ": ");
            push_str(&mut s, b.as_str());
        },
        None => {},
    }
    s
}

/// The second comma-separated field of `s` (what `split(',')` yields
/// second), if there is one.
pub open spec fn second_field(s: Seq<char>) -> Option<Seq<char>> {
    crate::connection::heartbeat_fields(s).1
}

/// The receive interval the client shows for a `heart-beat` setting: its
/// second field as a `u32`, else ten seconds.
pub open spec fn receive_interval_spec(heartbeat: Seq<char>) -> u32 {
    match second_field(heartbeat) {
        Some(t) => match crate::text::parse_u64_text(crate::text::trim_ws(t)) {
            Some(v) => if v <= u32::MAX {
                v as u32
            } else {
                10000
            },
            None => 10000,
        },
        None => 10000,
    }
}

/// The receive interval of a `heart-beat` setting, for the heartbeat
/// indicator.
pub fn receive_interval(heartbeat: &str) -> (ms: u32)
    ensures
        ms == receive_interval_spec(heartbeat@),
{
    let v = str_chars(heartbeat);
    let vs = v.as_slice();
    proof {
        crate::text::lemma_char_index_from(v@, ',', 0);
    }
    match crate::text::find_char(vs, 0, ',') {
        Some(i) => {
            assert(i < v@.len());
            assert(i + 1 <= v.len());
            let mut rest: Vec<char> = Vec::new();
            let mut k = i + 1;
            while k < v.len()
                invariant
                    i + 1 <= k <= v@.len(),
                    rest@ == v@.subrange(i + 1, k as int),
                decreases v@.len() - k,
            {
                rest.push(v[k]);
                k += 1;
            }
            proof {
                crate::text::lemma_char_index_from(rest@, ',', 0);
            }
            let end = match crate::text::find_char(rest.as_slice(), 0, ',') {
                Some(j) => j,
                None => rest.len(),
            };
            let mut field: Vec<char> = Vec::new();
            let mut m: usize = 0;
            while m < end
                invariant
                    m <= end <= rest@.len(),
                    field@ == rest@.subrange(0, m as int),
                decreases end - m,
            {
                field.push(rest[m]);
                m += 1;
            }
            assert(field@ == crate::connection::before_comma(rest@));
            let trimmed = crate::text::trim_chars(field.as_slice());
            match crate::text::parse_u64(trimmed.as_slice()) {
                Some(x) => if x <= 0xFFFF_FFFFu64 {
                    x as u32
                } else {
                    10000
                },
                None => 10000,
            }
        },
        None => 10000,
    }
}

// ---------------------------------------------------------------------------
// Error reports
// ---------------------------------------------------------------------------

/// The report of an I/O failure of kind `k` with text `text` at `address`.
pub open spec fn io_report(k: IoFailureKind, text: Seq<char>, address: Seq<char>) -> (Seq<char>, u8) {
    match k {
        IoFailureKind::ConnectionRefused => ("Connection refused: "@ + address, NETWORK_ERROR),
        IoFailureKind::TimedOut => ("Connection timed out: "@ + address, NETWORK_ERROR),
        IoFailureKind::Other => ("Connection failed: "@ + text, NETWORK_ERROR),
    }
}

/// The report of an I/O failure.
pub fn io_failure_report(k: IoFailureKind, text: &str, address: &str) -> (r: (String, u8))
    ensures
        (r.0@, r.1) == io_report(k, text@, address@),
{
    let mut s = String::new();
    match k {
        IoFailureKind::ConnectionRefused => {
            push_str(&mut s, "Connection refused: ");
            push_str(&mut s, address);
        },
        IoFailureKind::TimedOut => {
            push_str(&mut s, "Connection timed out: ");
            push_str(&mut s, address);
        },
        IoFailureKind::Other => {
            push_str(&mut s, "Connection failed: ");
            push_str(&mut s, text);
        },
    }
    (s, NETWORK_ERROR)
}

/// A broker error with its body in parentheses: `<message> (<body>)`.
pub open spec fn with_body(e: SpecServerError) -> Seq<char> {
    match e.body {
        Some(b) => e.message + " ("@ + b + ")"@,
        None => e.message,
    }
}

/// The report of a connection error that is not an I/O failure.
pub open spec fn error_report(e: &ConnError) -> Option<(Seq<char>, u8)> {
    match e {
        ConnError::Io(_, _) => None,
        ConnError::ServerRejected(se) => Some(("Authentication failed: "@ + with_body(se@), AUTH_ERROR)),
        ConnError::FrameRejected(se) => Some(("Frame rejected: "@ + with_body(se@), FRAME_REJECTED)),
        ConnError::Protocol(m) => Some(("Protocol error: "@ + m@, PROTOCOL_ERROR)),
        ConnError::ReceiptTimeout(id) => Some(("Receipt timeout: "@ + id@, PROTOCOL_ERROR)),
        ConnError::MissingAckId => Some(
            ("Protocol error: frame has no ack or message-id header"@, PROTOCOL_ERROR),
        ),
    }
}

/// Appends `<message> (<body>)` (or the message alone) to `s`.
fn push_with_body(s: &mut String, e: &ServerError)
    ensures
        final(s)@ == old(s)@ + with_body(e@),
{
    push_str(s, e.message.as_str());
    match &e.body {
        Some(b) => {
            push_str(s, " (");
            push_str(s, b.as_str());
            push_str(s, ")");
        },
        None => {},
    }
}

/// The message and exit code the client reports for a connection error to
/// `address`. An I/O failure is reported by its kind; every such report has
/// the network exit code.
pub fn format_connection_error_pub(err: &ConnError, address: &str) -> (r: (String, u8))
    ensures
        error_report(err) matches Some(x) ==> (r.0@, r.1) == x,
        err matches ConnError::Io(k, t) ==> (r.0@, r.1) == io_report(*k, t@, address@),
{
    match err {
        ConnError::Io(k, t) => io_failure_report(*k, t.as_str(), address),
        ConnError::ServerRejected(se) => {
            let mut s = String::new();
            push_str(&mut s, "Authentication failed: ");
            push_with_body(&mut s, se);
            (s, AUTH_ERROR)
        },
        ConnError::FrameRejected(se) => {
            let mut s = String::new();
            push_str(&mut s, "Frame rejected: ");
            push_with_body(&mut s, se);
            (s, FRAME_REJECTED)
        },
        ConnError::Protocol(m) => {
            let mut s = String::new();
            push_str(&mut s, "Protocol error: ");
            push_str(&mut s, m.as_str());
            (s, PROTOCOL_ERROR)
        },
        ConnError::ReceiptTimeout(id) => {
            let mut s = String::new();
            push_str(&mut s, "Receipt timeout: ");
            push_str(&mut s, id.as_str());
            (s, PROTOCOL_ERROR)
        },
        ConnError::MissingAckId => (
            "Protocol error: frame has no ack or message-id header".to_owned(),
            PROTOCOL_ERROR,
        ),
    }
}

/// The error a one-shot send reports for a destination that does not start
/// with `/`.
pub open spec fn bad_destination_text(d: Seq<char>) -> Seq<char> {
    "Invalid destination '"@ + d + "'. Must start with / (e.g., /topic/test, /queue/test)"@
}

/// Checks the destination of a one-shot send: it must start with `/`.
pub fn check_send_destination(destination: &str) -> (r: Result<(), (String, u8)>)
    ensures
        destination@.len() > 0 && destination@[0] == '/' ==> r is Ok,
        !(destination@.len() > 0 && destination@[0] == '/') ==> (r matches Err(e) && e.0@
            == bad_destination_text(destination@) && e.1 == PROTOCOL_ERROR),
{
    let v = str_chars(destination);
    if v.len() > 0 && v[0] == '/' {
        Ok(())
    } else {
        let mut s = String::new();
        push_str(&mut s, "Invalid destination '");
        push_str(&mut s, destination);
        push_str(&mut s, "'. Must start with / (e.g., /topic/test, /queue/test)");
        Err((s, PROTOCOL_ERROR))
    }
}

/// The error a one-shot send reports when the broker did not answer in
/// time: `Timed out after <n>s connecting to <address>`.
pub fn connect_timed_out(timeout_secs: u64, address: &str) -> (r: (String, u8))
    ensures
        r.0@ == "Timed out after "@ + decimal_chars(timeout_secs as nat) + "s connecting to "@
            + address@,
        r.1 == NETWORK_ERROR,
{
    let mut s = String::new();
    push_str(&mut s, "Timed out after ");
    push_decimal(&mut s, timeout_secs);
    push_str(&mut s, "s connecting to ");
    push_str(&mut s, address);
    (s, NETWORK_ERROR)
}

// ---------------------------------------------------------------------------
// Command lines
// ---------------------------------------------------------------------------

/// What a command line of the interactive client asks for.
#[derive(Debug, PartialEq, Eq)]
pub enum Command {
    /// An empty line.
    Empty,
    /// `quit` or `exit`.
    Quit,
    /// `help`.
    Help,
    /// `send <destination> <body>`.
    Send(String, String),
    /// `send` without both a destination and a body.
    SendUsage,
    /// `subscribe <destination>`.
    Subscribe(String),
    /// `subscribe` without a destination.
    SubscribeUsage,
    /// Any other first word.
    Unknown(String),
}

/// The abstract value of a command.
pub enum SpecCommand {
    Empty,
    Quit,
    Help,
    Send(Seq<char>, Seq<char>),
    SendUsage,
    Subscribe(Seq<char>),
    SubscribeUsage,
    Unknown(Seq<char>),
}

impl View for Command {
    type V = SpecCommand;

    open spec fn view(&self) -> SpecCommand {
        match self {
            Command::Empty => SpecCommand::Empty,
            Command::Quit => SpecCommand::Quit,
            Command::Help => SpecCommand::Help,
            Command::Send(d, b) => SpecCommand::Send(d@, b@),
            Command::SendUsage => SpecCommand::SendUsage,
            Command::Subscribe(d) => SpecCommand::Subscribe(d@),
            Command::SubscribeUsage => SpecCommand::SubscribeUsage,
            Command::Unknown(w) => SpecCommand::Unknown(w@),
        }
    }
}

/// `t` split at its first space: the text before it, and the text after it
/// when there is one.
pub open spec fn split_space(t: Seq<char>) -> (Seq<char>, Option<Seq<char>>) {
    match char_index_from(t, ' ', 0) {
        Some(i) => (t.subrange(0, i), Some(t.subrange(i + 1, t.len() as int))),
        None => (t, None),
    }
}

/// What command line `line` asks for. The trimmed line is split at spaces
/// into at most three pieces: the command word, then (for `send`) the
/// destination and the body, which is the whole rest of the line, or (for
/// `subscribe`) the destination.
pub open spec fn spec_command(line: Seq<char>) -> SpecCommand {
    let (w, rest) = split_space(trim_ws(line));
    if w.len() == 0 {
        SpecCommand::Empty
    } else if w == "quit"@ || w == "exit"@ {
        SpecCommand::Quit
    } else if w == "help"@ {
        SpecCommand::Help
    } else if w == "send"@ {
        match rest {
            Some(r) => match split_space(r) {
                (d, Some(b)) => SpecCommand::Send(d, b),
                (_, None) => SpecCommand::SendUsage,
            },
            None => SpecCommand::SendUsage,
        }
    } else if w == "subscribe"@ {
        match rest {
            Some(r) => SpecCommand::Subscribe(split_space(r).0),
            None => SpecCommand::SubscribeUsage,
        }
    } else {
        SpecCommand::Unknown(w)
    }
}

/// `v` split at its first space.
fn split_space_exec(v: &Vec<char>) -> (r: (Vec<char>, Option<Vec<char>>))
    ensures
        r.0@ == split_space(v@).0,
        match (r.1, split_space(v@).1) {
            (Some(a), Some(b)) => a@ == b,
            (None, None) => true,
            _ => false,
        },
{
    proof {
        lemma_char_index_from(v@, ' ', 0);
    }
    let sl = v.as_slice();
    let n = v.len();
    let found = find_char(sl, 0, ' ');
    assert(sl@ == v@);
    match found {
        Some(i) => {
            assert(char_index_from(v@, ' ', 0) == Some(i as int));
            assert(i < n);
            (slice_to_vec_chars(sl, 0, i), Some(slice_to_vec_chars(sl, i + 1, n)))
        },
        None => (slice_to_vec_chars(sl, 0, n), None),
    }
}

/// Reads a command line of the interactive client.
pub fn parse_command(line: &str) -> (c: Command)
    ensures
        c@ == spec_command(line@),
{
    let chars = str_chars(line);
    let t = trim_chars(chars.as_slice());
    let (w, rest) = split_space_exec(&t);
    let word = string_from_chars(w.as_slice());
    if w.len() == 0 {
        Command::Empty
    } else if chars_equal(word.as_str(), "quit") || chars_equal(word.as_str(), "exit") {
        Command::Quit
    } else if chars_equal(word.as_str(), "help") {
        Command::Help
    } else if chars_equal(word.as_str(), "send") {
        match rest {
            Some(r) => {
                let (d, b) = split_space_exec(&r);
                match b {
                    Some(b) => Command::Send(
                        string_from_chars(d.as_slice()),
                        string_from_chars(b.as_slice()),
                    ),
                    None => Command::SendUsage,
                }
            },
            None => Command::SendUsage,
        }
    } else if chars_equal(word.as_str(), "subscribe") {
        match rest {
            Some(r) => {
                let (d, _) = split_space_exec(&r);
                Command::Subscribe(string_from_chars(d.as_slice()))
            },
            None => Command::SubscribeUsage,
        }
    } else {
        Command::Unknown(word)
    }
}

} // verus!
