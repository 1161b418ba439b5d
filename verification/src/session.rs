//! The decisions a connection makes: the frames it sends for each request,
//! the CONNECT handshake, reconnect backoff and heartbeat timing.
use vstd::prelude::*;
use vstd::slice::slice_to_vec;
use std::time::Duration;
use crate::connection::{
    AckMode, ConnError, ServerError, SpecServerError, ack_mode_text, duration_as_millis, duration_millis,
    server_error_of,
};
use crate::frame::{
    Frame, SpecFrame, SpecTextHeader, chars_equal, eq_ignore_ascii_case, lookup_header,
    text_headers,
};
use crate::text::{chars_eq_ignore_ascii_case, decimal_chars, lemma_decimal_injective, push_decimal, push_str};

verus! {

/// A frame value with command `c`, headers `h` and body `b`.
pub open spec fn spec_frame(c: Seq<char>, h: Seq<SpecTextHeader>, b: Seq<u8>) -> SpecFrame {
    SpecFrame { command: c, headers: h, body: b }
}

// ---------------------------------------------------------------------------
// Frames for requests
// ---------------------------------------------------------------------------

/// The SEND frame for a text message: a `destination` header and the text
/// as UTF-8 body.
pub open spec fn send_frame_spec(destination: Seq<char>, body: Seq<char>) -> SpecFrame {
    spec_frame("SEND"@, seq![("destination"@, destination)], vstd::utf8::encode_utf8(body))
}

/// The SEND frame for a text message.
pub fn send_frame(destination: &str, body: &str) -> (f: Frame)
    ensures
        f@ == send_frame_spec(destination@, body@),
{
    let bytes = slice_to_vec(body.as_bytes());
    let f = Frame::new("SEND").header("destination", destination).set_body(bytes);
    assert(f@.headers =~= seq![("destination"@, destination@)]);
    f
}

/// Headers `base` followed by the extra headers `extra`.
pub open spec fn with_extra(base: Seq<SpecTextHeader>, extra: Seq<SpecTextHeader>) -> Seq<
    SpecTextHeader,
> {
    base + extra
}

/// The SUBSCRIBE frame for subscription `id` to `destination` with ack mode
/// `ack`, followed by the extra headers.
pub open spec fn subscribe_frame_spec(
    id: Seq<char>,
    destination: Seq<char>,
    ack: Seq<char>,
    extra: Seq<SpecTextHeader>,
) -> SpecFrame {
    spec_frame(
        "SUBSCRIBE"@,
        with_extra(seq![("id"@, id), ("destination"@, destination), ("ack"@, ack)], extra),
        Seq::empty(),
    )
}

/// Appends headers `extra` to frame `f` (builder style).
fn with_headers(f: Frame, extra: &Vec<(String, String)>) -> (r: Frame)
    ensures
        r@ == spec_frame(f@.command, f@.headers + text_headers(extra@), f@.body),
{
    let mut r = f;
    let mut i: usize = 0;
    while i < extra.len()
        invariant
            i <= extra@.len(),
            r@ == spec_frame(f@.command, f@.headers + text_headers(extra@).subrange(0, i as int), f@.body),
        decreases extra@.len() - i,
    {
        r = r.header(extra[i].0.as_str(), extra[i].1.as_str());
        assert(text_headers(extra@).subrange(0, i + 1) =~= text_headers(extra@).subrange(
            0,
            i as int,
        ).push((extra@[i as int].0@, extra@[i as int].1@)));
        assert(f@.headers + text_headers(extra@).subrange(0, i + 1) =~= (f@.headers + text_headers(
            extra@,
        ).subrange(0, i as int)).push((extra@[i as int].0@, extra@[i as int].1@)));
        i += 1;
    }
    assert(text_headers(extra@).subrange(0, extra@.len() as int) =~= text_headers(extra@));
    r
}

/// The SUBSCRIBE frame for subscription `id` to `destination` in mode `ack`
/// with extra headers.
pub fn subscribe_frame(id: &str, destination: &str, ack: &str, extra: &Vec<(String, String)>) -> (f:
    Frame)
    ensures
        f@ == subscribe_frame_spec(id@, destination@, ack@, text_headers(extra@)),
{
    let f = Frame::new("SUBSCRIBE").header("id", id).header("destination", destination).header(
        "ack",
        ack,
    );
    assert(f@.headers =~= seq![("id"@, id@), ("destination"@, destination@), ("ack"@, ack@)]);
    with_headers(f, extra)
}

/// The UNSUBSCRIBE frame for subscription `id`.
pub fn unsubscribe_frame(id: &str) -> (f: Frame)
    ensures
        f@ == spec_frame("UNSUBSCRIBE"@, seq![("id"@, id@)], Seq::empty()),
{
    let f = Frame::new("UNSUBSCRIBE").header("id", id);
    assert(f@.headers =~= seq![("id"@, id@)]);
    f
}

/// The ACK (or, with `negative`, NACK) frame for message `message_id` of
/// subscription `subscription_id`.
pub open spec fn ack_frame_spec(negative: bool, message_id: Seq<char>, subscription_id: Seq<char>) -> SpecFrame {
    spec_frame(
        if negative {
            "NACK"@
        } else {
            "ACK"@
        },
        seq![("id"@, message_id), ("subscription"@, subscription_id)],
        Seq::empty(),
    )
}

/// The ACK or NACK frame for a message of a subscription.
pub fn ack_frame(negative: bool, message_id: &str, subscription_id: &str) -> (f: Frame)
    ensures
        f@ == ack_frame_spec(negative, message_id@, subscription_id@),
{
    let cmd = if negative {
        "NACK"
    } else {
        "ACK"
    };
    let f = Frame::new(cmd).header("id", message_id).header("subscription", subscription_id);
    assert(f@.headers =~= seq![("id"@, message_id@), ("subscription"@, subscription_id@)]);
    f
}

/// The BEGIN, COMMIT or ABORT frame (`command`) of transaction
/// `transaction_id`.
pub fn transaction_frame(command: &str, transaction_id: &str) -> (f: Frame)
    ensures
        f@ == spec_frame(command@, seq![("transaction"@, transaction_id@)], Seq::empty()),
{
    let f = Frame::new(command).header("transaction", transaction_id);
    assert(f@.headers =~= seq![("transaction"@, transaction_id@)]);
    f
}

// ---------------------------------------------------------------------------
// Receipts
// ---------------------------------------------------------------------------

/// The receipt id the client generates for its `n`-th request: `rcpt-<n>`.
pub open spec fn receipt_id_text(n: nat) -> Seq<char> {
    "rcpt-"@ + decimal_chars(n)
}

/// Different counter values give different receipt ids.
pub proof fn lemma_receipt_id_injective(a: nat, b: nat)
    requires
        receipt_id_text(a) == receipt_id_text(b),
    ensures
        a == b,
{
    reveal_strlit("rcpt-");
    let p = "rcpt-"@;
    assert(receipt_id_text(a).subrange(5, receipt_id_text(a).len() as int) =~= decimal_chars(a));
    assert(receipt_id_text(b).subrange(5, receipt_id_text(b).len() as int) =~= decimal_chars(b));
    lemma_decimal_injective(a, b);
}

/// The receipt id for counter value `n`.
pub fn receipt_id(n: u64) -> (s: String)
    ensures
        s@ == receipt_id_text(n as nat),
{
    let mut s = String::new();
    push_str(&mut s, "rcpt-");
    push_decimal(&mut s, n);
    s
}

/// The headers of `h` whose key is not `receipt` (up to ASCII case).
pub open spec fn without_receipt(h: Seq<SpecTextHeader>) -> Seq<SpecTextHeader>
    decreases h.len(),
{
    if h.len() == 0 {
        h
    } else if chars_eq_ignore_ascii_case(h.last().0, "receipt"@) {
        without_receipt(h.drop_last())
    } else {
        without_receipt(h.drop_last()).push(h.last())
    }
}

/// Frame `f` asking for receipt `id`: any `receipt` header it carried is
/// dropped (brokers honour the first one), then `receipt:id` is appended.
pub open spec fn with_receipt_spec(f: SpecFrame, id: Seq<char>) -> SpecFrame {
    spec_frame(f.command, without_receipt(f.headers).push(("receipt"@, id)), f.body)
}

/// Frame `frame` asking for receipt `id`, in place of any receipt it asked
/// for before.
pub fn with_receipt(frame: Frame, id: &str) -> (f: Frame)
    ensures
        f@ == with_receipt_spec(frame@, id@),
{
    let Frame { command, headers, body } = frame;
    let ghost hv = text_headers(headers@);
    let mut kept: Vec<(String, String)> = Vec::new();
    let mut rest = headers;
    let mut i: usize = 0;
    let n = rest.len();
    let ghost orig = rest@;
    let mut all = rest;
    // Walk the headers in order, keeping those that are not `receipt`.
    while i < n
        invariant
            i <= n,
            n == orig.len(),
            all@ == orig,
            hv == text_headers(orig),
            text_headers(kept@) == without_receipt(hv.subrange(0, i as int)),
        decreases n - i,
    {
        let is_receipt = eq_ignore_ascii_case(all[i].0.as_str(), "receipt");
        proof {
            let t = hv.subrange(0, i + 1);
            assert(t.drop_last() =~= hv.subrange(0, i as int));
            assert(t.last() == (orig[i as int].0@, orig[i as int].1@));
        }
        if !is_receipt {
            let ghost before = kept@;
            kept.push((all[i].0.clone(), all[i].1.clone()));
            assert(text_headers(kept@) =~= text_headers(before).push(
                (orig[i as int].0@, orig[i as int].1@),
            ));
        }
        i += 1;
    }
    assert(hv.subrange(0, n as int) =~= hv);
    let f = Frame { command, headers: kept, body };
    f.receipt(id)
}

// ---------------------------------------------------------------------------
// The CONNECT frame and the handshake
// ---------------------------------------------------------------------------

/// Header names the custom CONNECT headers cannot override.
pub open spec fn is_reserved_connect_header(k: Seq<char>) -> bool {
    ||| chars_eq_ignore_ascii_case(k, "accept-version"@)
    ||| chars_eq_ignore_ascii_case(k, "host"@)
    ||| chars_eq_ignore_ascii_case(k, "login"@)
    ||| chars_eq_ignore_ascii_case(k, "passcode"@)
    ||| chars_eq_ignore_ascii_case(k, "heart-beat"@)
    ||| chars_eq_ignore_ascii_case(k, "client-id"@)
}

/// The custom headers that are not reserved, in order.
pub open spec fn allowed_custom(h: Seq<SpecTextHeader>) -> Seq<SpecTextHeader>
    decreases h.len(),
{
    if h.len() == 0 {
        h
    } else if is_reserved_connect_header(h.last().0) {
        allowed_custom(h.drop_last())
    } else {
        allowed_custom(h.drop_last()).push(h.last())
    }
}

/// The CONNECT frame: `accept-version`, `host`, `login`, `passcode`,
/// `heart-beat`, then `client-id` when given, then the custom headers that
/// do not try to replace one of these.
pub open spec fn connect_frame_spec(
    accept_version: Seq<char>,
    host: Seq<char>,
    login: Seq<char>,
    passcode: Seq<char>,
    heartbeat: Seq<char>,
    client_id: Option<Seq<char>>,
    custom: Seq<SpecTextHeader>,
) -> SpecFrame {
    let base = seq![
        ("accept-version"@, accept_version),
        ("host"@, host),
        ("login"@, login),
        ("passcode"@, passcode),
        ("heart-beat"@, heartbeat),
    ];
    let with_id = match client_id {
        Some(id) => base.push(("client-id"@, id)),
        None => base,
    };
    spec_frame("CONNECT"@, with_id + allowed_custom(custom), Seq::empty())
}

/// Whether `k` is one of the reserved CONNECT header names.
fn is_reserved(k: &str) -> (r: bool)
    ensures
        r == is_reserved_connect_header(k@),
{
    eq_ignore_ascii_case(k, "accept-version") || eq_ignore_ascii_case(k, "host")
        || eq_ignore_ascii_case(k, "login") || eq_ignore_ascii_case(k, "passcode")
        || eq_ignore_ascii_case(k, "heart-beat") || eq_ignore_ascii_case(k, "client-id")
}

/// Builds the CONNECT frame.
pub fn build_connect_frame(
    accept_version: &str,
    host: &str,
    login: &str,
    passcode: &str,
    heartbeat: &str,
    client_id: &Option<String>,
    custom_headers: &Vec<(String, String)>,
) -> (f: Frame)
    ensures
        f@ == connect_frame_spec(
            accept_version@,
            host@,
            login@,
            passcode@,
            heartbeat@,
            match client_id {
                Some(id) => Some(id@),
                None => None,
            },
            text_headers(custom_headers@),
        ),
{
    let mut f = Frame::new("CONNECT").header("accept-version", accept_version).header(
        "host",
        host,
    ).header("login", login).header("passcode", passcode).header("heart-beat", heartbeat);
    let ghost base = f@.headers;
    assert(base =~= seq![
        ("accept-version"@, accept_version@),
        ("host"@, host@),
        ("login"@, login@),
        ("passcode"@, passcode@),
        ("heart-beat"@, heartbeat@),
    ]);
    match client_id {
        Some(id) => {
            f = f.header("client-id", id.as_str());
        },
        None => {},
    }
    let ghost start = f@.headers;
    let ghost cv = text_headers(custom_headers@);
    let mut i: usize = 0;
    while i < custom_headers.len()
        invariant
            i <= custom_headers@.len(),
            cv == text_headers(custom_headers@),
            f@.command == "CONNECT"@,
            f@.body == Seq::<u8>::empty(),
            f@.headers == start + allowed_custom(cv.subrange(0, i as int)),
        decreases custom_headers@.len() - i,
    {
        proof {
            let t = cv.subrange(0, i + 1);
            assert(t.drop_last() =~= cv.subrange(0, i as int));
            assert(t.last() == cv[i as int]);
        }
        if !is_reserved(custom_headers[i].0.as_str()) {
            f = f.header(custom_headers[i].0.as_str(), custom_headers[i].1.as_str());
            assert(f@.headers =~= start + allowed_custom(cv.subrange(0, i + 1)));
        }
        i += 1;
    }
    assert(cv.subrange(0, custom_headers@.len() as int) =~= cv);
    f
}

/// What a frame received while waiting for CONNECTED means.
#[derive(Debug)]
pub enum HandshakeStep {
    /// CONNECTED arrived; its `heart-beat` header, or `0,0` when absent.
    Connected(String),
    /// The broker refused the connection with an ERROR frame.
    Rejected(ServerError),
    /// Any other frame is ignored during the handshake.
    Ignore,
}

/// What the handshake makes of a frame that arrives before CONNECTED.
pub fn handshake_step(frame: Frame) -> (r: HandshakeStep)
    ensures
        frame@.command == "CONNECTED"@ ==> (r matches HandshakeStep::Connected(hb) && hb@ == (
        match lookup_header(frame@.headers, "heart-beat"@) {
            Some(v) => v,
            None => "0,0"@,
        })),
        frame@.command == "ERROR"@ ==> (r matches HandshakeStep::Rejected(e) && e@
            == server_error_of(frame@)),
        frame@.command != "CONNECTED"@ && frame@.command != "ERROR"@ ==> r is Ignore,
{
    proof {
        reveal_strlit("ERROR");
        reveal_strlit("CONNECTED");
        assert("ERROR"@.len() == 5);
        assert("CONNECTED"@.len() == 9);
    }
    if chars_equal(frame.command.as_str(), "CONNECTED") {
        let hb = match frame.get_header("heart-beat") {
            Some(v) => v.to_owned(),
            None => "0,0".to_owned(),
        };
        HandshakeStep::Connected(hb)
    } else if chars_equal(frame.command.as_str(), "ERROR") {
        HandshakeStep::Rejected(ServerError::from_frame(frame))
    } else {
        HandshakeStep::Ignore
    }
}

// ---------------------------------------------------------------------------
// Reconnect backoff and heartbeat timing
// ---------------------------------------------------------------------------

/// Seconds to wait before the next attempt after a failed one: double, at
/// most 30.
pub open spec fn doubled_backoff(b: u64) -> u64 {
    if b * 2 <= 30 {
        (b * 2) as u64
    } else {
        30
    }
}

/// Whether a failed connection attempt ends the first connect: only a
/// broker that refused the login is final; an unreachable broker, or one
/// that hung up during the handshake, is tried again after the backoff.
pub fn connect_failure_is_final(e: &ConnError) -> (b: bool)
    ensures
        b == (e is ServerRejected),
{
    match e {
        ConnError::ServerRejected(_) => true,
        _ => false,
    }
}

/// The error a bounded first connect reports when its time runs out: the
/// last attempt's error, or `timed_out` when no attempt failed yet.
pub fn connect_timeout_error(last: Option<ConnError>, timed_out: ConnError) -> (e: ConnError)
    ensures
        match last {
            Some(l) => e == l,
            None => e == timed_out,
        },
{
    match last {
        Some(l) => l,
        None => timed_out,
    }
}

/// The backoff after a failed attempt.
pub fn next_backoff(backoff_secs: u64) -> (r: u64)
    requires
        backoff_secs <= u64::MAX / 2,
    ensures
        r == doubled_backoff(backoff_secs),
{
    let d = backoff_secs * 2;
    if d <= 30 {
        d
    } else {
        30
    }
}

/// The backoff after a connection that lasted `stable_ms` milliseconds
/// dropped: back to one second when it lasted at least `max(backoff, 5)`
/// seconds, doubled (at most 30) when it died sooner.
pub open spec fn backoff_after_drop_spec(backoff: u64, stable_ms: nat) -> u64 {
    let floor = if backoff >= 5 {
        backoff
    } else {
        5
    };
    if stable_ms >= floor * 1000 {
        1
    } else {
        doubled_backoff(backoff)
    }
}

/// The backoff after a connection that was up for `stable` dropped.
pub fn backoff_after_drop(backoff_secs: u64, stable: Duration) -> (r: u64)
    requires
        backoff_secs <= u64::MAX / 2,
    ensures
        r == backoff_after_drop_spec(backoff_secs, duration_millis(stable)),
{
    let floor: u64 = if backoff_secs >= 5 {
        backoff_secs
    } else {
        5
    };
    let ms = duration_as_millis(&stable);
    if ms >= (floor as u128) * 1000 {
        1
    } else {
        next_backoff(backoff_secs)
    }
}

/// After a connection drops, the backoff goes back to one second exactly
/// when the connection lasted at least `max(backoff, 5)` whole seconds;
/// after a shorter one it doubles, capped at thirty seconds. So a session
/// counts as stable only when it outlasted both five seconds and the
/// backoff it was made with.
pub proof fn backoff_resets_only_after_a_stable_session(backoff: u64, stable_ms: nat)
    ensures
        (stable_ms >= backoff * 1000 && stable_ms >= 5000) ==> backoff_after_drop_spec(
            backoff,
            stable_ms,
        ) == 1,
        (stable_ms < backoff * 1000 || stable_ms < 5000) ==> backoff_after_drop_spec(
            backoff,
            stable_ms,
        ) == (if 2 * backoff <= 30 {
            2 * backoff
        } else {
            30
        }),
{
}

/// A backoff between one and thirty seconds stays there, whatever happens
/// to the connection.
pub proof fn backoff_stays_bounded(backoff: u64, stable_ms: nat)
    requires
        1 <= backoff <= 30,
    ensures
        1 <= doubled_backoff(backoff) <= 30,
        1 <= backoff_after_drop_spec(backoff, stable_ms) <= 30,
{
}

/// Whether a heartbeat is due: `interval_ms` or more have passed since the
/// last write (a clock that went backwards counts as no time).
pub open spec fn heartbeat_due_spec(now_ms: u64, last_sent_ms: u64, interval_ms: u64) -> bool {
    (if now_ms >= last_sent_ms {
        now_ms - last_sent_ms
    } else {
        0
    }) >= interval_ms
}

/// Whether to send a heartbeat now.
pub fn heartbeat_due(now_ms: u64, last_sent_ms: u64, interval_ms: u64) -> (r: bool)
    ensures
        r == heartbeat_due_spec(now_ms, last_sent_ms, interval_ms),
{
    now_ms.saturating_sub(last_sent_ms) >= interval_ms
}

/// Whether the broker has gone quiet: more than twice the receive interval
/// has passed since anything arrived.
pub open spec fn receive_timed_out_spec(now_ms: u64, last_received_ms: u64, interval_ms: u64) -> bool {
    (if now_ms >= last_received_ms {
        now_ms - last_received_ms
    } else {
        0
    }) > interval_ms * 2
}

/// Whether to give the connection up for silence.
pub fn receive_timed_out(now_ms: u64, last_received_ms: u64, interval_ms: u64) -> (r: bool)
    requires
        interval_ms <= u64::MAX / 2,
    ensures
        r == receive_timed_out_spec(now_ms, last_received_ms, interval_ms),
{
    now_ms.saturating_sub(last_received_ms) > interval_ms * 2
}


// ---------------------------------------------------------------------------
// Laws of the request frames
// ---------------------------------------------------------------------------

proof fn lemma_without_receipt(h: Seq<SpecTextHeader>)
    ensures
        forall|i: int|
            0 <= i < without_receipt(h).len() ==> !chars_eq_ignore_ascii_case(
                #[trigger] without_receipt(h)[i].0,
                "receipt"@,
            ),
    decreases h.len(),
{
    if h.len() > 0 {
        lemma_without_receipt(h.drop_last());
        let r = without_receipt(h.drop_last());
        let w = without_receipt(h);
        assert forall|i: int| 0 <= i < w.len() implies !chars_eq_ignore_ascii_case(
            #[trigger] w[i].0,
            "receipt"@,
        ) by {
            if i < r.len() {
                assert(w[i] == r[i]);
            }
        }
    }
}

proof fn lemma_lookup_skips(h: Seq<SpecTextHeader>, name: Seq<char>, i: int)
    requires
        0 <= i <= h.len(),
        forall|k: int| i <= k < h.len() - 1 ==> !chars_eq_ignore_ascii_case(#[trigger] h[k].0, name),
        h.len() > 0,
        chars_eq_ignore_ascii_case(h.last().0, name),
        i < h.len(),
    ensures
        crate::frame::lookup_header_from(h, name, i) == Some(h.last().1),
    decreases h.len() - i,
{
    if i < h.len() - 1 {
        lemma_lookup_skips(h, name, i + 1);
    }
}

/// A frame that asks for receipt `id` asks for exactly that one: the
/// `receipt` header read from it is `id`, no other `receipt` header is
/// left, and the other headers keep their order.
pub proof fn receipt_request_is_unique(f: SpecFrame, id: Seq<char>)
    ensures
        lookup_header(with_receipt_spec(f, id).headers, "receipt"@) == Some(id),
        forall|i: int|
            0 <= i < with_receipt_spec(f, id).headers.len() - 1 ==> !chars_eq_ignore_ascii_case(
                #[trigger] with_receipt_spec(f, id).headers[i].0,
                "receipt"@,
            ),
        with_receipt_spec(f, id).headers.drop_last() == without_receipt(f.headers),
{
    let h = with_receipt_spec(f, id).headers;
    lemma_without_receipt(f.headers);
    let w = without_receipt(f.headers);
    assert forall|i: int| 0 <= i < h.len() - 1 implies !chars_eq_ignore_ascii_case(
        #[trigger] h[i].0,
        "receipt"@,
    ) by {
        assert(h[i] == w[i]);
    }
    assert(chars_eq_ignore_ascii_case("receipt"@, "receipt"@));
    lemma_lookup_skips(h, "receipt"@, 0);
    assert(h.drop_last() =~= w);
}

/// Custom CONNECT headers cannot override the connection's own: whatever
/// headers are added, the `accept-version`, `host`, `login`, `passcode` and
/// `heart-beat` values read from the CONNECT frame are the ones given, and
/// so is `client-id` when one is given.
pub proof fn reserved_connect_headers_win(
    accept_version: Seq<char>,
    host: Seq<char>,
    login: Seq<char>,
    passcode: Seq<char>,
    heartbeat: Seq<char>,
    client_id: Option<Seq<char>>,
    custom: Seq<SpecTextHeader>,
)
    ensures
        ({
            let h = connect_frame_spec(
                accept_version,
                host,
                login,
                passcode,
                heartbeat,
                client_id,
                custom,
            ).headers;
            &&& lookup_header(h, "accept-version"@) == Some(accept_version)
            &&& lookup_header(h, "host"@) == Some(host)
            &&& lookup_header(h, "login"@) == Some(login)
            &&& lookup_header(h, "passcode"@) == Some(passcode)
            &&& lookup_header(h, "heart-beat"@) == Some(heartbeat)
            &&& (client_id matches Some(id) ==> lookup_header(h, "client-id"@) == Some(id))
        }),
{
    reveal_strlit("accept-version");
    reveal_strlit("host");
    reveal_strlit("login");
    reveal_strlit("passcode");
    reveal_strlit("heart-beat");
    reveal_strlit("client-id");
    let h = connect_frame_spec(
        accept_version,
        host,
        login,
        passcode,
        heartbeat,
        client_id,
        custom,
    ).headers;
    assert(h[0].0 == "accept-version"@);
    assert(h[1].0 == "host"@);
    assert(h[2].0 == "login"@);
    assert(h[3].0 == "passcode"@);
    assert(h[4].0 == "heart-beat"@);
    assert(chars_eq_ignore_ascii_case("accept-version"@, "accept-version"@));
    assert(chars_eq_ignore_ascii_case("host"@, "host"@));
    assert(chars_eq_ignore_ascii_case("login"@, "login"@));
    assert(chars_eq_ignore_ascii_case("passcode"@, "passcode"@));
    assert(chars_eq_ignore_ascii_case("heart-beat"@, "heart-beat"@));
    assert(chars_eq_ignore_ascii_case("client-id"@, "client-id"@));
    assert(lookup_header(h, "accept-version"@) == Some(accept_version));
    assert(crate::frame::lookup_header_from(h, "host"@, 1) == Some(host));
    assert(lookup_header(h, "host"@) == Some(host));
    assert(crate::frame::lookup_header_from(h, "login"@, 2) == Some(login));
    assert(crate::frame::lookup_header_from(h, "login"@, 1) == Some(login));
    assert(lookup_header(h, "login"@) == Some(login));
    assert(crate::frame::lookup_header_from(h, "passcode"@, 3) == Some(passcode));
    assert(crate::frame::lookup_header_from(h, "passcode"@, 2) == Some(passcode));
    assert(crate::frame::lookup_header_from(h, "passcode"@, 1) == Some(passcode));
    assert(lookup_header(h, "passcode"@) == Some(passcode));
    assert(crate::frame::lookup_header_from(h, "heart-beat"@, 4) == Some(heartbeat));
    assert(crate::frame::lookup_header_from(h, "heart-beat"@, 3) == Some(heartbeat));
    assert(crate::frame::lookup_header_from(h, "heart-beat"@, 2) == Some(heartbeat));
    assert(crate::frame::lookup_header_from(h, "heart-beat"@, 1) == Some(heartbeat));
    assert(lookup_header(h, "heart-beat"@) == Some(heartbeat));
    if let Some(id) = client_id {
        assert(h[5].0 == "client-id"@);
        assert(crate::frame::lookup_header_from(h, "client-id"@, 5) == Some(id));
        assert(crate::frame::lookup_header_from(h, "client-id"@, 4) == Some(id));
        assert(crate::frame::lookup_header_from(h, "client-id"@, 3) == Some(id));
        assert(crate::frame::lookup_header_from(h, "client-id"@, 2) == Some(id));
        assert(crate::frame::lookup_header_from(h, "client-id"@, 1) == Some(id));
    }
}

} // verus!
