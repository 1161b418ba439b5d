//! Connection-level types: heartbeats, broker errors, received frames,
//! acknowledgement modes, errors and connect options.
use vstd::prelude::*;
use vstd::std_specs::cmp::PartialEqSpecImpl;
use vstd::std_specs::convert::FromSpecImpl;
use std::time::Duration;
use crate::frame::{Frame, SpecFrame, SpecTextHeader, chars_equal, lookup_header};
use vstd::utf8::*;
use crate::text::{
    char_index_from, decimal_chars, lemma_char_index_from, lemma_decimal_digits,
    lemma_parse_digits, lemma_trim_digits, find_char, parse_u64, parse_u64_text, push_decimal,
    push_str, str_chars, str_from_utf8, trim_chars, trim_ws,
};

verus! {

#[verifier::external_type_specification]
#[verifier::external_body]
pub struct ExIoError(std::io::Error);

#[verifier::external_type_specification]
#[verifier::external_body]
#[verifier::reject_recursive_types(T)]
pub struct ExMpscSender<T>(tokio::sync::mpsc::Sender<T>);

// ---------------------------------------------------------------------------
// Durations
// ---------------------------------------------------------------------------

/// The total nanoseconds a `Duration` holds (`Duration::as_nanos`); this
/// number is the whole value of the duration.
pub uninterp spec fn duration_nanos(d: Duration) -> nat;

/// The whole milliseconds a `Duration` holds.
pub open spec fn duration_millis(d: Duration) -> nat {
    duration_nanos(d) / 1_000_000
}

/// A duration of `ms` milliseconds.
///
/// Trusted: `Duration::from_millis` builds the duration of exactly `ms`
/// milliseconds: `ms * 1_000_000` nanoseconds and no sub-millisecond part.
#[verifier::external_body]
pub(crate) fn duration_from_millis(ms: u64) -> (d: Duration)
    ensures
        duration_nanos(d) == ms * 1_000_000,
{
    Duration::from_millis(ms)
}

/// The whole milliseconds of a duration.
///
/// Trusted: `Duration::as_millis` returns the total number of whole
/// milliseconds the duration holds.
#[verifier::external_body]
pub(crate) fn duration_as_millis(d: &Duration) -> (m: u128)
    ensures
        m == duration_millis(*d),
{
    d.as_millis()
}

// ---------------------------------------------------------------------------
// Heartbeats
// ---------------------------------------------------------------------------

/// Heartbeat intervals a client offers in its CONNECT frame, in milliseconds.
/// Zero in a direction means no heartbeats in that direction.
#[derive(Debug, Clone, Copy, PartialEq, Eq, Structural)]
pub struct Heartbeat {
    /// Smallest interval at which the client can send heartbeats.
    pub send_ms: u32,
    /// Interval at which the client wants to receive heartbeats.
    pub receive_ms: u32,
}

/// The `heart-beat` header value for intervals `send` and `receive`:
/// `"send,receive"` in decimal.
pub open spec fn heartbeat_text(send: nat, receive: nat) -> Seq<char> {
    decimal_chars(send) + ","@ + decimal_chars(receive)
}

impl Heartbeat {
    /// Heartbeat intervals `send_ms` and `receive_ms`.
    pub fn new(send_ms: u32, receive_ms: u32) -> (h: Heartbeat)
        ensures
            h.send_ms == send_ms,
            h.receive_ms == receive_ms,
    {
        Heartbeat { send_ms, receive_ms }
    }

    /// No heartbeats in either direction (`0,0`).
    pub fn disabled() -> (h: Heartbeat)
        ensures
            h.send_ms == 0,
            h.receive_ms == 0,
    {
        Heartbeat::new(0, 0)
    }

    /// The same interval in both directions, in whole milliseconds, clamped
    /// to `u32::MAX` (about 49.7 days).
    pub fn from_duration(interval: Duration) -> (h: Heartbeat)
        ensures
            h.send_ms == h.receive_ms,
            h.send_ms == (if duration_millis(interval) <= u32::MAX {
                duration_millis(interval)
            } else {
                u32::MAX as nat
            }),
    {
        let ms = duration_as_millis(&interval);
        let clamped: u32 = if ms <= 0xFFFF_FFFFu128 {
            ms as u32
        } else {
            u32::MAX
        };
        Heartbeat::new(clamped, clamped)
    }

    /// The `heart-beat` header value, `"send_ms,receive_ms"`.
    pub fn describe(&self) -> (s: String)
        ensures
            s@ == heartbeat_text(self.send_ms as nat, self.receive_ms as nat),
    {
        let mut s = String::new();
        push_decimal(&mut s, self.send_ms as u64);
        push_str(&mut s, ",");
        push_decimal(&mut s, self.receive_ms as u64);
        s
    }
}

impl Default for Heartbeat {
    /// Ten seconds in both directions.
    fn default() -> (h: Heartbeat)
        ensures
            h.send_ms == 10000,
            h.receive_ms == 10000,
    {
        Heartbeat::new(10000, 10000)
    }
}

/// The value of one field of a `heart-beat` header: the trimmed text as a
/// `u64`, or 0 when it is missing or not a number.
pub open spec fn heartbeat_field(f: Option<Seq<char>>) -> u64 {
    match f {
        Some(t) => match parse_u64_text(trim_ws(t)) {
            Some(v) => v,
            None => 0,
        },
        None => 0,
    }
}

/// The text of `s` up to the first `,`, or all of it.
pub open spec fn before_comma(s: Seq<char>) -> Seq<char> {
    match char_index_from(s, ',', 0) {
        Some(i) => s.subrange(0, i),
        None => s,
    }
}

/// The text of `s` after the first `,`, if it has one.
pub open spec fn after_comma(s: Seq<char>) -> Option<Seq<char>> {
    match char_index_from(s, ',', 0) {
        Some(i) => Some(s.subrange(i + 1, s.len() as int)),
        None => None,
    }
}

/// The first two comma-separated fields of a `heart-beat` header, as
/// `str::split(',')` yields them.
pub open spec fn heartbeat_fields(s: Seq<char>) -> (Option<Seq<char>>, Option<Seq<char>>) {
    (
        Some(before_comma(s)),
        match after_comma(s) {
            Some(rest) => Some(before_comma(rest)),
            None => None,
        },
    )
}

/// What `parse_heartbeat_header` returns for a header value.
pub open spec fn parsed_heartbeat(s: Seq<char>) -> (u64, u64) {
    (heartbeat_field(heartbeat_fields(s).0), heartbeat_field(heartbeat_fields(s).1))
}

/// The characters `v[from..to]`.
fn chars_range(v: &[char], from: usize, to: usize) -> (r: Vec<char>)
    requires
        from <= to <= v@.len(),
    ensures
        r@ == v@.subrange(from as int, to as int),
{
    let mut r: Vec<char> = Vec::new();
    let mut k = from;
    while k < to
        invariant
            from <= k <= to <= v@.len(),
            r@ == v@.subrange(from as int, k as int),
        decreases to - k,
    {
        r.push(v[k]);
        k += 1;
    }
    r
}

/// The value of one heartbeat field.
fn field_value(t: &[char]) -> (r: u64)
    ensures
        r == heartbeat_field(Some(t@)),
{
    let trimmed = trim_chars(t);
    match parse_u64(trimmed.as_slice()) {
        Some(v) => v,
        None => 0,
    }
}

/// The text before the first comma of `v`.
fn field_before_comma(v: &[char]) -> (r: Vec<char>)
    ensures
        r@ == before_comma(v@),
{
    proof {
        lemma_char_index_from(v@, ',', 0);
    }
    match find_char(v, 0, ',') {
        Some(i) => chars_range(v, 0, i),
        None => chars_range(v, 0, v.len()),
    }
}

/// Parses a STOMP `heart-beat` header value (`"cx,cy"`, in milliseconds).
/// A missing or unparsable field is 0.
pub fn parse_heartbeat_header(header: &str) -> (r: (u64, u64))
    ensures
        r == parsed_heartbeat(header@),
{
    let v = str_chars(header);
    let first = field_before_comma(v.as_slice());
    let cx = field_value(first.as_slice());
    proof {
        lemma_char_index_from(v@, ',', 0);
    }
    let vs = v.as_slice();
    let cy = match find_char(vs, 0, ',') {
        Some(i) => {
            assert(i < v@.len());
            assert(i + 1 <= v.len());
            let rest = chars_range(vs, i + 1, v.len());
            let second = field_before_comma(rest.as_slice());
            field_value(second.as_slice())
        },
        None => 0,
    };
    (cx, cy)
}

/// A `heart-beat` value that the client writes parses back to the two
/// intervals it was written from.
pub proof fn heartbeat_text_parses_back(send: u32, receive: u32)
    ensures
        parsed_heartbeat(heartbeat_text(send as nat, receive as nat)) == (send as u64, receive as u64),
{
    let a = decimal_chars(send as nat);
    let b = decimal_chars(receive as nat);
    let s = heartbeat_text(send as nat, receive as nat);
    lemma_decimal_digits(send as nat);
    lemma_decimal_digits(receive as nat);
    reveal_strlit(",");
    assert(","@ =~= seq![',']);
    assert(s == a + ","@ + b);
    assert(s[a.len() as int] == ',');
    assert forall|k: int| 0 <= k < a.len() implies s[k] != ',' by {
        assert(s[k] == a[k]);
        assert('0' <= a[k] <= '9');
    }
    lemma_char_index_from(s, ',', 0);
    lemma_char_index_from(b, ',', 0);
    assert forall|k: int| 0 <= k < b.len() implies b[k] != ',' by {
        assert('0' <= b[k] <= '9');
    }
    if char_index_from(s, ',', 0) != Some(a.len() as int) {
        let j = char_index_from(s, ',', 0);
        if j is Some {
            assert(j->0 >= a.len());
        }
    }
    assert(s.subrange(0, a.len() as int) =~= a);
    assert(s.subrange(a.len() + 1int, s.len() as int) =~= b);
    assert(before_comma(b) == b);
    lemma_trim_digits(a);
    lemma_trim_digits(b);
    lemma_parse_digits(a);
    lemma_parse_digits(b);
}

/// The larger of two values.
pub open spec fn max_u64(a: u64, b: u64) -> u64 {
    if a >= b {
        a
    } else {
        b
    }
}

/// Whether an optional negotiated interval is exactly `ms` milliseconds
/// (what `Duration::from_millis(ms)` holds), `None` standing for zero
/// (heartbeats off).
pub open spec fn interval_is(d: Option<Duration>, ms: u64) -> bool {
    match d {
        Some(x) => ms != 0 && duration_nanos(x) == ms * 1_000_000,
        None => ms == 0,
    }
}

/// Negotiates heartbeat intervals by the STOMP rule: each direction takes the
/// larger of what one side offers and the other side asks for, and zero
/// means heartbeats are off. Returns `(outgoing, incoming)`.
pub fn negotiate_heartbeats(client_out: u64, client_in: u64, server_out: u64, server_in: u64) -> (r:
    (Option<Duration>, Option<Duration>))
    ensures
        interval_is(r.0, max_u64(client_out, server_in)),
        interval_is(r.1, max_u64(client_in, server_out)),
{
    let out_ms = if client_out >= server_in {
        client_out
    } else {
        server_in
    };
    let in_ms = if client_in >= server_out {
        client_in
    } else {
        server_out
    };
    let outgoing = if out_ms == 0 {
        None
    } else {
        Some(duration_from_millis(out_ms))
    };
    let incoming = if in_ms == 0 {
        None
    } else {
        Some(duration_from_millis(in_ms))
    };
    (outgoing, incoming)
}


// ---------------------------------------------------------------------------
// Broker errors
// ---------------------------------------------------------------------------

/// An ERROR frame from the broker, with its `message` header, its body as
/// text and its `receipt-id` header taken out.
#[derive(Debug, Clone)]
pub struct ServerError {
    /// The `message` header, or `unknown error` when there is none.
    pub message: String,
    /// The body as UTF-8 text; `None` when it is empty or not UTF-8.
    pub body: Option<String>,
    /// The `receipt-id` header: set when the error answers a frame that asked
    /// for a receipt.
    pub receipt_id: Option<String>,
    /// The ERROR frame itself.
    pub frame: Frame,
}

/// The abstract value of a broker error.
pub struct SpecServerError {
    pub message: Seq<char>,
    pub body: Option<Seq<char>>,
    pub receipt_id: Option<Seq<char>>,
    pub frame: SpecFrame,
}

/// The text of an optional string.
pub open spec fn opt_text(o: Option<String>) -> Option<Seq<char>> {
    match o {
        Some(s) => Some(s@),
        None => None,
    }
}

impl View for ServerError {
    type V = SpecServerError;

    open spec fn view(&self) -> SpecServerError {
        SpecServerError {
            message: self.message@,
            body: opt_text(self.body),
            receipt_id: opt_text(self.receipt_id),
            frame: self.frame@,
        }
    }
}

/// The error a broker's ERROR frame `f` describes.
pub open spec fn server_error_of(f: SpecFrame) -> SpecServerError {
    SpecServerError {
        message: match lookup_header(f.headers, "message"@) {
            Some(m) => m,
            None => "unknown error"@,
        },
        body: if f.body.len() == 0 || !valid_utf8(f.body) {
            None
        } else {
            Some(decode_utf8(f.body))
        },
        receipt_id: lookup_header(f.headers, "receipt-id"@),
        frame: f,
    }
}

/// How a broker error reads: `STOMP server error: <message>`, followed by
/// ` - <body>` when there is a body.
pub open spec fn server_error_text(e: SpecServerError) -> Seq<char> {
    match e.body {
        Some(b) => "STOMP server error: "@ + e.message + " - "@ + b,
        None => "STOMP server error: "@ + e.message,
    }
}

/// A copy of an optional string.
fn copy_opt(o: &Option<String>) -> (r: Option<String>)
    ensures
        opt_text(r) == opt_text(*o),
{
    match o {
        Some(s) => Some(s.clone()),
        None => None,
    }
}

/// Whether two optional strings hold the same text.
fn opt_equal(a: &Option<String>, b: &Option<String>) -> (r: bool)
    ensures
        r == (opt_text(*a) == opt_text(*b)),
{
    match (a, b) {
        (Some(x), Some(y)) => chars_equal(x.as_str(), y.as_str()),
        (None, None) => true,
        _ => false,
    }
}

impl ServerError {
    /// The broker error an ERROR frame describes: its `message` header (or
    /// `unknown error`), its body when that is non-empty UTF-8, and its
    /// `receipt-id` header.
    pub fn from_frame(frame: Frame) -> (e: ServerError)
        ensures
            e@ == server_error_of(frame@),
    {
        let message = match frame.get_header("message") {
            Some(m) => m.to_owned(),
            None => "unknown error".to_owned(),
        };
        let body = if frame.body.len() == 0 {
            None
        } else {
            match str_from_utf8(frame.body.as_slice()) {
                Ok(t) => Some(t.to_owned()),
                Err(_) => None,
            }
        };
        let receipt_id = match frame.get_header("receipt-id") {
            Some(r) => Some(r.to_owned()),
            None => None,
        };
        ServerError { message, body, receipt_id, frame }
    }

    /// The human-readable rendering of the error.
    pub fn describe(&self) -> (s: String)
        ensures
            s@ == server_error_text(self@),
    {
        let mut s = String::new();
        push_str(&mut s, "STOMP server error: ");
        push_str(&mut s, self.message.as_str());
        match &self.body {
            Some(b) => {
                push_str(&mut s, " - ");
                push_str(&mut s, b.as_str());
            },
            None => {},
        }
        s
    }

    /// A copy of the error.
    pub fn duplicate(&self) -> (e: ServerError)
        ensures
            e@ == self@,
    {
        ServerError {
            message: self.message.clone(),
            body: copy_opt(&self.body),
            receipt_id: copy_opt(&self.receipt_id),
            frame: self.frame.duplicate(),
        }
    }
}

impl PartialEqSpecImpl for ServerError {
    open spec fn obeys_eq_spec() -> bool {
        true
    }

    open spec fn eq_spec(&self, other: &ServerError) -> bool {
        self@ == other@
    }
}

impl PartialEq for ServerError {
    fn eq(&self, other: &ServerError) -> (r: bool) {
        let m = chars_equal(self.message.as_str(), other.message.as_str());
        let b = opt_equal(&self.body, &other.body);
        let r = opt_equal(&self.receipt_id, &other.receipt_id);
        let f = self.frame == other.frame;
        m && b && r && f
    }
}

impl Eq for ServerError {
}

// ---------------------------------------------------------------------------
// Received frames
// ---------------------------------------------------------------------------

/// What the connection hands to the application: an ordinary frame, or a
/// broker ERROR.
#[derive(Debug, Clone)]
pub enum ReceivedFrame {
    /// A frame that is not an ERROR (MESSAGE, RECEIPT, ...).
    Frame(Frame),
    /// An ERROR frame from the broker.
    Error(ServerError),
}

impl PartialEqSpecImpl for ReceivedFrame {
    open spec fn obeys_eq_spec() -> bool {
        true
    }

    open spec fn eq_spec(&self, other: &ReceivedFrame) -> bool {
        match (self, other) {
            (ReceivedFrame::Frame(a), ReceivedFrame::Frame(b)) => a@ == b@,
            (ReceivedFrame::Error(a), ReceivedFrame::Error(b)) => a@ == b@,
            _ => false,
        }
    }
}

impl PartialEq for ReceivedFrame {
    fn eq(&self, other: &ReceivedFrame) -> (r: bool) {
        match (self, other) {
            (ReceivedFrame::Frame(a), ReceivedFrame::Frame(b)) => a == b,
            (ReceivedFrame::Error(a), ReceivedFrame::Error(b)) => a == b,
            _ => false,
        }
    }
}

impl Eq for ReceivedFrame {
}

impl ReceivedFrame {
    /// How a frame from the broker reaches the application: an ERROR frame
    /// becomes the broker error it describes, any other frame is passed on.
    pub fn from_inbound(frame: Frame) -> (r: ReceivedFrame)
        ensures
            frame@.command == "ERROR"@ ==> (r matches ReceivedFrame::Error(e) && e@
                == server_error_of(frame@)),
            frame@.command != "ERROR"@ ==> (r matches ReceivedFrame::Frame(f) && f@ == frame@),
    {
        if chars_equal(frame.command.as_str(), "ERROR") {
            ReceivedFrame::Error(ServerError::from_frame(frame))
        } else {
            ReceivedFrame::Frame(frame)
        }
    }

    /// Whether this is a broker error.
    pub fn is_error(&self) -> (r: bool)
        ensures
            r == (self is Error),
    {
        match self {
            ReceivedFrame::Error(_) => true,
            ReceivedFrame::Frame(_) => false,
        }
    }

    /// Whether this is an ordinary frame.
    pub fn is_frame(&self) -> (r: bool)
        ensures
            r == (self is Frame),
    {
        match self {
            ReceivedFrame::Frame(_) => true,
            ReceivedFrame::Error(_) => false,
        }
    }

    /// The ordinary frame, or `None` for a broker error.
    pub fn into_frame(self) -> (r: Option<Frame>)
        ensures
            r == (match self {
                ReceivedFrame::Frame(f) => Some(f),
                ReceivedFrame::Error(_) => None,
            }),
    {
        match self {
            ReceivedFrame::Frame(f) => Some(f),
            ReceivedFrame::Error(_) => None,
        }
    }

    /// The broker error, or `None` for an ordinary frame.
    pub fn into_error(self) -> (r: Option<ServerError>)
        ensures
            r == (match self {
                ReceivedFrame::Frame(_) => None,
                ReceivedFrame::Error(e) => Some(e),
            }),
    {
        match self {
            ReceivedFrame::Frame(_) => None,
            ReceivedFrame::Error(e) => Some(e),
        }
    }
}

// ---------------------------------------------------------------------------
// Acknowledgement modes
// ---------------------------------------------------------------------------

/// STOMP 1.2 acknowledgement modes of a subscription.
#[derive(Debug, Clone, Copy, PartialEq, Eq, Structural)]
pub enum AckMode {
    /// The broker counts a message delivered as soon as it sends it.
    Auto,
    /// Cumulative: acknowledging a message acknowledges every earlier one of
    /// the subscription too.
    Client,
    /// Each message is acknowledged on its own.
    ClientIndividual,
}

/// The `ack` header value of a mode.
pub open spec fn ack_mode_text(m: AckMode) -> Seq<char> {
    match m {
        AckMode::Auto => "auto"@,
        AckMode::Client => "client"@,
        AckMode::ClientIndividual => "client-individual"@,
    }
}

impl AckMode {
    /// The `ack` header value: `auto`, `client` or `client-individual`.
    pub fn as_str(&self) -> (s: &'static str)
        ensures
            s@ == ack_mode_text(*self),
    {
        match self {
            AckMode::Auto => "auto",
            AckMode::Client => "client",
            AckMode::ClientIndividual => "client-individual",
        }
    }
}

// ---------------------------------------------------------------------------
// Errors
// ---------------------------------------------------------------------------

/// The kinds of I/O failure the client tells apart.
#[derive(Debug, Clone, Copy, PartialEq, Eq, Structural)]
pub enum IoFailureKind {
    /// The broker refused the connection.
    ConnectionRefused,
    /// The attempt timed out.
    TimedOut,
    /// Anything else.
    Other,
}

/// The kind of an I/O error.
///
/// Trusted: reads `std::io::Error::kind` and tells apart the two kinds the
/// client reports specially. The kind comes from the error value, which is
/// opaque here, so nothing is stated of it.
#[verifier::external_body]
pub(crate) fn io_failure_kind(e: &std::io::Error) -> IoFailureKind {
    match e.kind() {
        std::io::ErrorKind::ConnectionRefused => IoFailureKind::ConnectionRefused,
        std::io::ErrorKind::TimedOut => IoFailureKind::TimedOut,
        _ => IoFailureKind::Other,
    }
}

/// Errors of connection operations.
#[derive(Debug)]
pub enum ConnError {
    /// A transport failure: its kind and the I/O error's text.
    Io(IoFailureKind, String),
    /// The protocol went wrong (a closed channel, an unknown subscription,
    /// a broker that hung up during the handshake).
    Protocol(String),
    /// No RECEIPT for this receipt id arrived in time.
    ReceiptTimeout(String),
    /// The broker answered CONNECT with an ERROR frame.
    ServerRejected(Box<ServerError>),
    /// The broker answered a frame that asked for a receipt with an ERROR
    /// frame carrying that receipt id.
    FrameRejected(ServerError),
    /// A frame to acknowledge carries neither an `ack` nor a `message-id`
    /// header.
    MissingAckId,
}

/// The `Display` text of an I/O error.
///
/// Trusted: formats the error with `Display`. For errors that come from the
/// operating system the text is the platform's, so nothing is stated of it.
#[verifier::external_body]
pub(crate) fn io_error_text(e: &std::io::Error) -> String {
    e.to_string()
}

/// How an error reads.
pub open spec fn conn_error_text(e: &ConnError) -> Option<Seq<char>> {
    match e {
        ConnError::Io(_, t) => Some("io error: "@ + t@),
        ConnError::Protocol(m) => Some("protocol error: "@ + m@),
        ConnError::ReceiptTimeout(id) => Some(
            "receipt timeout: no RECEIPT received for '"@ + id@ + "' within timeout"@,
        ),
        ConnError::ServerRejected(se) => Some(
            "server rejected connection: "@ + server_error_text(se@),
        ),
        ConnError::FrameRejected(se) => Some("frame rejected: "@ + server_error_text(se@)),
        ConnError::MissingAckId => Some(
            "frame has neither an ack nor a message-id header to acknowledge it by"@,
        ),
    }
}

impl ConnError {
    /// The human-readable rendering of the error.
    pub fn describe(&self) -> (s: String)
        ensures
            conn_error_text(self) matches Some(t) ==> s@ == t,
    {
        let mut s = String::new();
        match self {
            ConnError::Io(_, t) => {
                push_str(&mut s, "io error: ");
                push_str(&mut s, t.as_str());
            },
            ConnError::Protocol(m) => {
                push_str(&mut s, "protocol error: ");
                push_str(&mut s, m.as_str());
            },
            ConnError::ReceiptTimeout(id) => {
                push_str(&mut s, "receipt timeout: no RECEIPT received for '");
                push_str(&mut s, id.as_str());
                push_str(&mut s, "' within timeout");
            },
            ConnError::ServerRejected(se) => {
                push_str(&mut s, "server rejected connection: ");
                let t = se.describe();
                push_str(&mut s, t.as_str());
            },
            ConnError::FrameRejected(se) => {
                push_str(&mut s, "frame rejected: ");
                let t = se.describe();
                push_str(&mut s, t.as_str());
            },
            ConnError::MissingAckId => {
                push_str(
                    &mut s,
                    "frame has neither an ack nor a message-id header to acknowledge it by",
                );
            },
        }
        s
    }
}

impl FromSpecImpl<std::io::Error> for ConnError {
    /// The conversion reads the error's kind and text, which nothing here
    /// states, so it follows no spec.
    open spec fn obeys_from_spec() -> bool {
        false
    }

    /// Left unspecified: see `obeys_from_spec`.
    open spec fn from_spec(e: std::io::Error) -> ConnError {
        vstd::pervasive::arbitrary()
    }
}

impl From<std::io::Error> for ConnError {
    /// An I/O error as a transport failure: its kind and its text.
    fn from(e: std::io::Error) -> (r: ConnError)
        ensures
            r is Io,
    {
        let k = io_failure_kind(&e);
        let t = io_error_text(&e);
        ConnError::Io(k, t)
    }
}


// ---------------------------------------------------------------------------
// Connect options
// ---------------------------------------------------------------------------

/// Options for the CONNECT frame and the connection.
#[derive(Clone, Debug)]
pub struct ConnectOptions {
    /// STOMP versions to accept (`accept-version`); `1.2` when not set.
    pub accept_version: Option<String>,
    /// The `client-id` header, needed by some brokers for durable
    /// subscriptions.
    pub client_id: Option<String>,
    /// The virtual host (`host` header); `/` when not set.
    pub host: Option<String>,
    /// Extra CONNECT headers; those naming a header the connection sets
    /// itself are left out.
    pub headers: Vec<(String, String)>,
    /// Where to signal each heartbeat received from the broker.
    pub heartbeat_tx: Option<tokio::sync::mpsc::Sender<()>>,
    /// How long closing waits for the broker to confirm DISCONNECT.
    pub disconnect_timeout: Option<Duration>,
    /// Bound on the first connect and handshake; unbounded when not set.
    pub connect_timeout: Option<Duration>,
    /// Largest inbound frame accepted, in bytes; the parser's default when
    /// not set.
    pub max_frame_size: Option<usize>,
}

impl Default for ConnectOptions {
    /// Nothing set.
    fn default() -> (o: ConnectOptions)
        ensures
            o.accept_version is None,
            o.client_id is None,
            o.host is None,
            o.headers@.len() == 0,
            o.heartbeat_tx is None,
            o.disconnect_timeout is None,
            o.connect_timeout is None,
            o.max_frame_size is None,
    {
        ConnectOptions {
            accept_version: None,
            client_id: None,
            host: None,
            headers: Vec::new(),
            heartbeat_tx: None,
            disconnect_timeout: None,
            connect_timeout: None,
            max_frame_size: None,
        }
    }
}

impl ConnectOptions {
    /// Nothing set (the same as `default`).
    pub fn new() -> (o: ConnectOptions)
        ensures
            o.accept_version is None,
            o.client_id is None,
            o.host is None,
            o.headers@.len() == 0,
            o.heartbeat_tx is None,
            o.disconnect_timeout is None,
            o.connect_timeout is None,
            o.max_frame_size is None,
    {
        ConnectOptions::default()
    }

    /// Sets the versions to accept (builder style), e.g. `1.1,1.2`.
    pub fn accept_version(self, version: &str) -> (o: ConnectOptions)
        ensures
            opt_text(o.accept_version) == Some(version@),
            o.client_id == self.client_id,
            o.host == self.host,
            o.headers == self.headers,
            o.heartbeat_tx == self.heartbeat_tx,
            o.disconnect_timeout == self.disconnect_timeout,
            o.connect_timeout == self.connect_timeout,
            o.max_frame_size == self.max_frame_size,
    {
        let mut o = self;
        o.accept_version = Some(version.to_owned());
        o
    }

    /// Sets the `client-id` (builder style).
    pub fn client_id(self, id: &str) -> (o: ConnectOptions)
        ensures
            opt_text(o.client_id) == Some(id@),
            o.accept_version == self.accept_version,
            o.host == self.host,
            o.headers == self.headers,
            o.heartbeat_tx == self.heartbeat_tx,
            o.disconnect_timeout == self.disconnect_timeout,
            o.connect_timeout == self.connect_timeout,
            o.max_frame_size == self.max_frame_size,
    {
        let mut o = self;
        o.client_id = Some(id.to_owned());
        o
    }

    /// Sets the virtual host (builder style).
    pub fn host(self, host: &str) -> (o: ConnectOptions)
        ensures
            opt_text(o.host) == Some(host@),
            o.accept_version == self.accept_version,
            o.client_id == self.client_id,
            o.headers == self.headers,
            o.heartbeat_tx == self.heartbeat_tx,
            o.disconnect_timeout == self.disconnect_timeout,
            o.connect_timeout == self.connect_timeout,
            o.max_frame_size == self.max_frame_size,
    {
        let mut o = self;
        o.host = Some(host.to_owned());
        o
    }

    /// Adds a custom CONNECT header (builder style).
    pub fn header(self, key: &str, value: &str) -> (o: ConnectOptions)
        ensures
            crate::frame::text_headers(o.headers@) == crate::frame::text_headers(self.headers@).push(
                (key@, value@),
            ),
            o.accept_version == self.accept_version,
            o.client_id == self.client_id,
            o.host == self.host,
            o.heartbeat_tx == self.heartbeat_tx,
            o.disconnect_timeout == self.disconnect_timeout,
            o.connect_timeout == self.connect_timeout,
            o.max_frame_size == self.max_frame_size,
    {
        let mut o = self;
        let ghost before = o.headers@;
        o.headers.push((key.to_owned(), value.to_owned()));
        assert(crate::frame::text_headers(o.headers@) =~= crate::frame::text_headers(before).push(
            (key@, value@),
        ));
        o
    }

    /// Sets how long closing waits for the DISCONNECT receipt (builder
    /// style).
    pub fn disconnect_timeout(self, timeout: Duration) -> (o: ConnectOptions)
        ensures
            o.disconnect_timeout == Some(timeout),
            o.accept_version == self.accept_version,
            o.client_id == self.client_id,
            o.host == self.host,
            o.headers == self.headers,
            o.heartbeat_tx == self.heartbeat_tx,
            o.connect_timeout == self.connect_timeout,
            o.max_frame_size == self.max_frame_size,
    {
        let mut o = self;
        o.disconnect_timeout = Some(timeout);
        o
    }

    /// Bounds the first connect and handshake (builder style).
    pub fn connect_timeout(self, timeout: Duration) -> (o: ConnectOptions)
        ensures
            o.connect_timeout == Some(timeout),
            o.accept_version == self.accept_version,
            o.client_id == self.client_id,
            o.host == self.host,
            o.headers == self.headers,
            o.heartbeat_tx == self.heartbeat_tx,
            o.disconnect_timeout == self.disconnect_timeout,
            o.max_frame_size == self.max_frame_size,
    {
        let mut o = self;
        o.connect_timeout = Some(timeout);
        o
    }

    /// Sets the largest inbound frame accepted (builder style).
    pub fn max_frame_size(self, max_frame_size: usize) -> (o: ConnectOptions)
        ensures
            o.max_frame_size == Some(max_frame_size),
            o.accept_version == self.accept_version,
            o.client_id == self.client_id,
            o.host == self.host,
            o.headers == self.headers,
            o.heartbeat_tx == self.heartbeat_tx,
            o.disconnect_timeout == self.disconnect_timeout,
            o.connect_timeout == self.connect_timeout,
    {
        let mut o = self;
        o.max_frame_size = Some(max_frame_size);
        o
    }

    /// Sets where each received heartbeat is signalled (builder style).
    pub fn heartbeat_notify(self, tx: tokio::sync::mpsc::Sender<()>) -> (o: ConnectOptions)
        ensures
            o.heartbeat_tx == Some(tx),
            o.accept_version == self.accept_version,
            o.client_id == self.client_id,
            o.host == self.host,
            o.headers == self.headers,
            o.disconnect_timeout == self.disconnect_timeout,
            o.connect_timeout == self.connect_timeout,
            o.max_frame_size == self.max_frame_size,
    {
        let mut o = self;
        o.heartbeat_tx = Some(tx);
        o
    }

    /// The `accept-version` to send: the one set, or `1.2`.
    pub fn accept_version_or_default(&self) -> (v: String)
        ensures
            v@ == (match opt_text(self.accept_version) {
                Some(x) => x,
                None => "1.2"@,
            }),
    {
        match &self.accept_version {
            Some(v) => v.clone(),
            None => "1.2".to_owned(),
        }
    }

    /// The `host` to send: the one set, or `/`.
    pub fn host_or_default(&self) -> (v: String)
        ensures
            v@ == (match opt_text(self.host) {
                Some(x) => x,
                None => "/"@,
            }),
    {
        match &self.host {
            Some(v) => v.clone(),
            None => "/".to_owned(),
        }
    }

    /// How long closing waits for the DISCONNECT receipt: the one set, or
    /// five seconds.
    pub fn disconnect_timeout_or_default(&self) -> (d: Duration)
        ensures
            match self.disconnect_timeout {
                Some(x) => d == x,
                None => duration_nanos(d) == 5000 * 1_000_000,
            },
    {
        match self.disconnect_timeout {
            Some(d) => d,
            None => duration_from_millis(5000),
        }
    }

    /// The largest inbound frame to accept: the one set, or the parser's
    /// default.
    pub fn max_frame_size_or_default(&self) -> (n: usize)
        ensures
            n == (match self.max_frame_size {
                Some(x) => x,
                None => crate::parser::DEFAULT_MAX_FRAME_SIZE,
            }),
    {
        match self.max_frame_size {
            Some(n) => n,
            None => crate::parser::DEFAULT_MAX_FRAME_SIZE,
        }
    }
}

} // verus!
