//! Concrete cases of the library's contracts and laws.

use iridium_stomp::cli::{
    check_send_destination, connect_timed_out, parse_command, Command, format_connection_error_pub, message_body_text,
    receive_interval, truncate_str, AUTH_ERROR, NETWORK_ERROR, PROTOCOL_ERROR,
};
use iridium_stomp::codec::{StompCodec, StompItem};
use iridium_stomp::connection::{AckMode, ConnError, IoFailureKind, ServerError};
use iridium_stomp::dispatch::{
    message_ack_id, ConnectionState, Delivery, ParkOutcome, ReceiptOutcome,
};
use iridium_stomp::parser::{parse_frame_slice_bounded, unescape_header_value};
use iridium_stomp::session::{
    backoff_after_drop, build_connect_frame, connect_failure_is_final, connect_timeout_error,
    handshake_step, heartbeat_due, next_backoff,
    receipt_id, receive_timed_out, send_frame, with_receipt, HandshakeStep,
};
use iridium_stomp::session_state::AppState;
use iridium_stomp::{
    negotiate_heartbeats, parse_heartbeat_header, ConnectOptions, Frame, Heartbeat, ReceivedFrame,
    SubscriptionOptions,
};
use std::time::Duration;

#[test]
fn heartbeat_value_parses_back() {
    let hb = Heartbeat::new(5000, 10000);
    assert_eq!(hb.describe(), "5000,10000");
    assert_eq!(parse_heartbeat_header(&hb.describe()), (5000, 10000));
    assert_eq!(Heartbeat::disabled().describe(), "0,0");
    assert_eq!(Heartbeat::default().describe(), "10000,10000");
    let big = Heartbeat::new(u32::MAX, 0);
    assert_eq!(parse_heartbeat_header(&big.describe()), (u32::MAX as u64, 0));
}

#[test]
fn heartbeat_from_duration_clamps() {
    let hb = Heartbeat::from_duration(Duration::from_secs(15));
    assert_eq!((hb.send_ms, hb.receive_ms), (15000, 15000));
    let hb = Heartbeat::from_duration(Duration::from_secs(100 * 24 * 3600));
    assert_eq!((hb.send_ms, hb.receive_ms), (u32::MAX, u32::MAX));
}

#[test]
fn heartbeat_header_fields_default_to_zero() {
    assert_eq!(parse_heartbeat_header("abc,5"), (0, 5));
    assert_eq!(parse_heartbeat_header(" 10 , 20 ,30"), (10, 20));
    assert_eq!(parse_heartbeat_header(""), (0, 0));
    assert_eq!(parse_heartbeat_header("7"), (7, 0));
    assert_eq!(parse_heartbeat_header("+3,-1"), (3, 0));
    assert_eq!(parse_heartbeat_header("99999999999999999999,1"), (0, 1));
}

#[test]
fn negotiation_takes_the_larger_interval() {
    assert_eq!(negotiate_heartbeats(0, 0, 0, 0), (None, None));
    assert_eq!(
        negotiate_heartbeats(1000, 2000, 3000, 500),
        (Some(Duration::from_millis(1000)), Some(Duration::from_millis(3000)))
    );
    assert_eq!(
        negotiate_heartbeats(0, 0, 0, 250),
        (Some(Duration::from_millis(250)), None)
    );
}

#[test]
fn encoded_frame_decodes_to_itself() {
    let frame = Frame::new("SEND")
        .header("destination", "/queue/a:b")
        .header("note", "line1\nline2\\end\r")
        .set_body(b"payload".to_vec());
    let mut codec = StompCodec::new();
    let mut buf: Vec<u8> = Vec::new();
    codec.encode(StompItem::Frame(frame.clone()), &mut buf);
    let item = codec.decode(&mut buf).expect("decode failed").expect("no item");
    assert_eq!(item, StompItem::Frame(frame));
    assert!(buf.is_empty());
}

#[test]
fn connect_headers_are_not_escaped() {
    let frame = Frame::new("CONNECT").header("host", "/");
    let mut codec = StompCodec::new();
    let mut buf: Vec<u8> = Vec::new();
    codec.encode(StompItem::Frame(frame.clone()), &mut buf);
    assert_eq!(buf, b"CONNECT\nhost:/\n\n\0".to_vec());
    let item = codec.decode(&mut buf).expect("decode failed").expect("no item");
    assert_eq!(item, StompItem::Frame(frame));
}

#[test]
fn unescaping_reverses_escapes() {
    assert_eq!(unescape_header_value(b"a\\cb\\nc\\\\d\\r").unwrap(), b"a:b\nc\\d\r".to_vec());
    assert_eq!(
        unescape_header_value(b"bad\\").unwrap_err(),
        "incomplete escape sequence at end of header value"
    );
    assert_eq!(
        unescape_header_value(b"x\\t").unwrap_err(),
        "invalid escape sequence '\\t' in header value"
    );
}

#[test]
fn codec_rejects_an_invalid_escape() {
    let mut codec = StompCodec::new();
    let mut buf = b"MESSAGE\nk:\\q\n\n\0".to_vec();
    assert!(codec.decode(&mut buf).is_err());
    assert_eq!(buf.len(), 15);
}

fn error_for(dest: &str) -> Frame {
    Frame::new("ERROR")
        .header("message", "not allowed")
        .header("destination", dest)
}

#[test]
fn third_error_gives_the_destination_up() {
    let mut state = ConnectionState::new();
    state.subscribe("/topic/x", "7", AckMode::Auto, &Vec::new());
    for _ in 0..2 {
        let plan = state.on_frame(&error_for("/topic/x"));
        assert!(plan.notice.is_none());
        assert!(plan.forward);
    }
    assert_eq!(state.subscriptions.destination_of("7"), Some("/topic/x".to_string()));
    let plan = state.on_frame(&error_for("/topic/x"));
    let notice = plan.notice.expect("notice");
    assert_eq!(notice.command, "ERROR");
    assert_eq!(
        notice.get_header("message"),
        Some("Subscription abandoned: 3 errors for /topic/x")
    );
    assert_eq!(notice.get_header("x-abandoned"), Some("true"));
    assert!(plan.forward);
    assert_eq!(state.subscriptions.destination_of("7"), None);
    assert!(state.resubscribe_frames().is_empty());
}

#[test]
fn errors_about_an_abandoned_subscription_are_dropped() {
    let mut state = ConnectionState::new();
    state.subscribe("/queue/secret", "4", AckMode::Client, &Vec::new());
    let err = Frame::new("ERROR").header("message", "denied for subscription 4");
    for _ in 0..2 {
        assert!(state.on_frame(&err).notice.is_none());
    }
    let plan = state.on_frame(&err);
    assert!(plan.notice.is_some());
    assert!(plan.forward);
    let plan = state.on_frame(&err);
    assert!(plan.notice.is_none());
    assert!(!plan.forward);
}

#[test]
fn messages_route_by_subscription_and_wait_for_ack() {
    let mut state = ConnectionState::new();
    state.subscribe("/queue/jobs", "1", AckMode::Client, &Vec::new());
    state.subscribe("/queue/news", "2", AckMode::Auto, &Vec::new());
    let m = Frame::new("MESSAGE")
        .header("subscription", "1")
        .header("message-id", "m-1")
        .header("destination", "/queue/jobs");
    let plan = state.on_frame(&m);
    assert!(matches!(plan.delivery, Delivery::Subscription(ref s) if s == "1"));
    assert!(!plan.forward);
    assert_eq!(state.pending.pending_ids("1"), vec!["m-1".to_string()]);
    let n = Frame::new("MESSAGE")
        .header("destination", "/queue/news")
        .header("message-id", "n-1");
    let plan = state.on_frame(&n);
    assert!(matches!(plan.delivery, Delivery::Destination(ref d) if d == "/queue/news"));
    assert!(!plan.forward);
    assert!(state.pending.pending_ids("2").is_empty());
}

#[test]
fn messages_no_subscription_takes_go_to_the_application() {
    let mut state = ConnectionState::new();
    state.subscribe("/queue/t", "1", AckMode::Auto, &Vec::new());
    let stray = Frame::new("MESSAGE")
        .header("subscription", "999")
        .header("message-id", "0")
        .header("destination", "/queue/t");
    let plan = state.on_frame(&stray);
    assert!(matches!(plan.delivery, Delivery::Nobody));
    assert!(plan.forward);
    let elsewhere = Frame::new("MESSAGE")
        .header("message-id", "1")
        .header("destination", "/queue/nobody");
    let plan = state.on_frame(&elsewhere);
    assert!(matches!(plan.delivery, Delivery::Nobody));
    assert!(plan.forward);
}

fn differing(sub: &str, n: u32) -> Frame {
    Frame::new("MESSAGE")
        .header("subscription", sub)
        .header("message-id", &format!("M{}", n))
        .header("ack", &format!("A{}", n))
        .header("destination", "/queue/t")
}

#[test]
fn acks_carry_the_ack_header_whichever_id_is_given() {
    let mut state = ConnectionState::new();
    state.subscribe("/queue/t", "s", AckMode::ClientIndividual, &Vec::new());
    for n in 1..=3 {
        state.on_frame(&differing("s", n));
    }
    assert_eq!(state.settle("s", "M1"), "A1");
    assert_eq!(state.settle("s", "A2"), "A2");
    assert_eq!(state.pending.pending_ids("s"), vec!["M3".to_string()]);
    assert_eq!(state.settle("s", "never-seen"), "never-seen");
    assert_eq!(state.pending.pending_ids("s"), vec!["M3".to_string()]);
    let plain = Frame::new("MESSAGE")
        .header("subscription", "s")
        .header("message-id", "P1")
        .header("destination", "/queue/t");
    state.on_frame(&plain);
    assert_eq!(state.settle("s", "P1"), "P1");
}

#[test]
fn cumulative_ack_by_message_id_sends_the_ack_header() {
    let mut state = ConnectionState::new();
    state.subscribe("/queue/t", "s", AckMode::Client, &Vec::new());
    for n in 1..=3 {
        state.on_frame(&differing("s", n));
    }
    assert_eq!(state.settle("s", "M3"), "A3");
    assert!(state.pending.pending_ids("s").is_empty());
}

fn numbered(sub: &str, n: u32) -> Frame {
    Frame::new("MESSAGE")
        .header("subscription", sub)
        .header("message-id", &n.to_string())
        .header("destination", "/queue/t")
}

#[test]
fn frames_park_in_order_until_the_limit() {
    let mut state = ConnectionState::new();
    state.subscribe_with_limit("/queue/t", "s", AckMode::Auto, &Vec::new(), 2);
    assert!(!state.must_park("s"));
    assert!(matches!(state.park("s", numbered("s", 1)), ParkOutcome::Parked));
    assert!(state.must_park("s"));
    assert!(matches!(state.park("s", numbered("s", 2)), ParkOutcome::Parked));
    assert_eq!(state.waiting_ids(), vec!["s".to_string()]);
    let first = state.take_parked("s").unwrap();
    assert_eq!(first.get_header("message-id"), Some("1"));
    assert!(matches!(state.park("s", numbered("s", 3)), ParkOutcome::Parked));
    assert_eq!(state.take_parked("s").unwrap().get_header("message-id"), Some("2"));
    assert_eq!(state.take_parked("s").unwrap().get_header("message-id"), Some("3"));
    assert!(state.take_parked("s").is_none());
    assert!(!state.must_park("s"));
    assert!(state.waiting_ids().is_empty());
}

#[test]
fn overflow_fails_the_subscription() {
    let mut state = ConnectionState::new();
    state.subscribe_with_limit("/queue/t", "s", AckMode::ClientIndividual, &Vec::new(), 1);
    assert!(matches!(state.park("s", numbered("s", 1)), ParkOutcome::Parked));
    match state.park("s", numbered("s", 2)) {
        ParkOutcome::Overflowed { unsubscribe, notice, limit } => {
            assert_eq!(limit, 1);
            assert_eq!(unsubscribe.command, "UNSUBSCRIBE");
            assert_eq!(unsubscribe.get_header("id"), Some("s"));
            assert_eq!(notice.command, "ERROR");
            assert_eq!(notice.get_header("x-overflow"), Some("true"));
            assert_eq!(notice.get_header("destination"), Some("/queue/t"));
            assert_eq!(notice.get_header("subscription"), Some("s"));
            assert_eq!(
                notice.get_header("message"),
                Some("Subscription s overflowed: more than 1 frames parked")
            );
        }
        _ => panic!("expected an overflow"),
    }
    assert_eq!(state.subscriptions.destination_of("s"), None);
    assert!(state.resubscribe_frames().is_empty());
    assert!(matches!(state.park("s", numbered("s", 3)), ParkOutcome::Unknown));
    assert!(state.take_parked("s").is_none());
}

#[test]
fn a_zero_limit_fails_at_the_first_full_channel() {
    let mut state = ConnectionState::new();
    state.subscribe_with_limit("/queue/t", "s", AckMode::Auto, &Vec::new(), 0);
    assert!(matches!(
        state.park("s", numbered("s", 1)),
        ParkOutcome::Overflowed { limit: 0, .. }
    ));
}

#[test]
fn reconnect_keeps_parked_frames_only_in_auto_mode() {
    let mut state = ConnectionState::new();
    state.subscribe_with_limit("/queue/a", "auto", AckMode::Auto, &Vec::new(), 8);
    state.subscribe_with_limit("/queue/c", "client", AckMode::ClientIndividual, &Vec::new(), 8);
    state.park("auto", numbered("auto", 1));
    state.park("client", numbered("client", 1));
    state.on_frame(&numbered("client", 2));
    state.after_reconnect();
    assert!(state.must_park("auto"));
    assert!(!state.must_park("client"));
    assert!(state.pending.pending_ids("client").is_empty());
    assert_eq!(state.resubscribe_frames().len(), 2);
}

#[test]
fn pruned_and_unsubscribed_subscriptions_drop_their_parked_frames() {
    let mut state = ConnectionState::new();
    state.subscribe("/queue/a", "1", AckMode::Auto, &Vec::new());
    state.subscribe("/queue/b", "2", AckMode::Auto, &Vec::new());
    state.park("1", numbered("1", 1));
    state.park("2", numbered("2", 1));
    state.prune("1");
    assert!(!state.must_park("1"));
    assert_eq!(state.subscriptions.destination_of("1"), None);
    assert!(state.unsubscribe("2").is_ok());
    assert!(!state.must_park("2"));
    let late = state.on_frame(&numbered("1", 9));
    assert!(late.forward);
}

#[test]
fn abandonment_names_the_subscriptions_that_end() {
    let mut state = ConnectionState::new();
    state.subscribe("/queue/t", "1", AckMode::Auto, &Vec::new());
    state.subscribe("/queue/t", "2", AckMode::Auto, &Vec::new());
    state.park("2", numbered("2", 1));
    for _ in 0..2 {
        assert!(state.on_frame(&error_for("/queue/t")).dropped.is_empty());
    }
    let plan = state.on_frame(&error_for("/queue/t"));
    assert_eq!(plan.dropped, vec!["1".to_string(), "2".to_string()]);
    assert!(!state.must_park("2"));
}

#[test]
fn receipts_are_settled_not_forwarded() {
    let mut state = ConnectionState::new();
    let plan = state.on_frame(&Frame::new("RECEIPT").header("receipt-id", "rcpt-1"));
    assert!(matches!(plan.receipt, Some(ReceiptOutcome::Confirmed(ref r)) if r == "rcpt-1"));
    assert!(!plan.forward);
    let plan = state.on_frame(
        &Frame::new("ERROR")
            .header("receipt-id", "rcpt-2")
            .header("message", "no"),
    );
    match plan.receipt {
        Some(ReceiptOutcome::Rejected(r, e)) => {
            assert_eq!(r, "rcpt-2");
            assert_eq!(e.message, "no");
        }
        other => panic!("unexpected {:?}", other),
    }
    assert!(plan.forward);
}

#[test]
fn unsubscribing_an_unknown_id_fails() {
    let mut state = ConnectionState::new();
    match state.unsubscribe("9") {
        Err(ConnError::Protocol(m)) => assert_eq!(m, "subscription id not found"),
        other => panic!("unexpected {:?}", other),
    }
    state.subscribe("/q", "9", AckMode::Auto, &Vec::new());
    let f = state.unsubscribe("9").expect("known id");
    assert_eq!(f.command, "UNSUBSCRIBE");
    assert_eq!(f.get_header("id"), Some("9"));
    assert_eq!(state.subscriptions.destination_of("9"), None);
}

#[test]
fn resubscription_repeats_the_subscribe_frames() {
    let mut state = ConnectionState::new();
    let extra = vec![("selector".to_string(), "x > 1".to_string())];
    let first = state.subscribe("/topic/a", "3", AckMode::ClientIndividual, &extra);
    let again = state.resubscribe_frames();
    assert_eq!(again, vec![first.clone()]);
    assert_eq!(
        first.headers,
        vec![
            ("id".to_string(), "3".to_string()),
            ("destination".to_string(), "/topic/a".to_string()),
            ("ack".to_string(), "client-individual".to_string()),
            ("selector".to_string(), "x > 1".to_string()),
        ]
    );
}

#[test]
fn backoff_doubles_to_thirty_and_resets_after_a_stable_session() {
    assert_eq!(next_backoff(1), 2);
    assert_eq!(next_backoff(16), 30);
    assert_eq!(next_backoff(30), 30);
    assert_eq!(backoff_after_drop(8, Duration::from_secs(10)), 1);
    assert_eq!(backoff_after_drop(8, Duration::from_secs(3)), 16);
    assert_eq!(backoff_after_drop(1, Duration::from_millis(4999)), 2);
    assert_eq!(backoff_after_drop(1, Duration::from_millis(5000)), 1);
}

#[test]
fn heartbeat_timing() {
    assert!(heartbeat_due(10_000, 5_000, 5_000));
    assert!(!heartbeat_due(9_999, 5_000, 5_000));
    assert!(!heartbeat_due(1_000, 5_000, 10));
    assert!(receive_timed_out(30_001, 10_000, 10_000));
    assert!(!receive_timed_out(30_000, 10_000, 10_000));
}

#[test]
fn connect_frame_keeps_reserved_headers() {
    let custom = vec![
        ("Login".to_string(), "mallory".to_string()),
        ("x-tenant".to_string(), "t1".to_string()),
        ("HEART-BEAT".to_string(), "1,1".to_string()),
    ];
    let f = build_connect_frame(
        "1.2",
        "/",
        "guest",
        "secret",
        "0,0",
        &Some("app-1".to_string()),
        &custom,
    );
    assert_eq!(f.command, "CONNECT");
    assert_eq!(
        f.headers,
        vec![
            ("accept-version".to_string(), "1.2".to_string()),
            ("host".to_string(), "/".to_string()),
            ("login".to_string(), "guest".to_string()),
            ("passcode".to_string(), "secret".to_string()),
            ("heart-beat".to_string(), "0,0".to_string()),
            ("client-id".to_string(), "app-1".to_string()),
            ("x-tenant".to_string(), "t1".to_string()),
        ]
    );
}

#[test]
fn receipt_request_replaces_an_earlier_one() {
    let f = Frame::new("SEND")
        .header("Receipt", "mine")
        .header("destination", "/q");
    let g = with_receipt(f, &receipt_id(7));
    assert_eq!(
        g.headers,
        vec![
            ("destination".to_string(), "/q".to_string()),
            ("receipt".to_string(), "rcpt-7".to_string()),
        ]
    );
}

#[test]
fn send_frame_carries_the_text() {
    let f = send_frame("/queue/q", "héllo");
    assert_eq!(f.headers, vec![("destination".to_string(), "/queue/q".to_string())]);
    assert_eq!(f.body, "héllo".as_bytes().to_vec());
}

#[test]
fn handshake_reads_connected_and_error() {
    match handshake_step(Frame::new("CONNECTED").header("heart-beat", "5,6")) {
        HandshakeStep::Connected(hb) => assert_eq!(hb, "5,6"),
        other => panic!("unexpected {:?}", other),
    }
    match handshake_step(Frame::new("CONNECTED")) {
        HandshakeStep::Connected(hb) => assert_eq!(hb, "0,0"),
        other => panic!("unexpected {:?}", other),
    }
    match handshake_step(Frame::new("ERROR").header("message", "bad login")) {
        HandshakeStep::Rejected(e) => assert_eq!(e.message, "bad login"),
        other => panic!("unexpected {:?}", other),
    }
    assert!(matches!(handshake_step(Frame::new("RECEIPT")), HandshakeStep::Ignore));
}

#[test]
fn inbound_error_frames_become_server_errors() {
    let r = ReceivedFrame::from_inbound(Frame::new("ERROR").header("message", "m"));
    assert!(r.is_error());
    let r = ReceivedFrame::from_inbound(Frame::new("MESSAGE"));
    assert!(r.is_frame());
}

#[test]
fn error_reports() {
    let se = ServerError::from_frame(
        Frame::new("ERROR")
            .header("message", "bad")
            .set_body(b"creds".to_vec()),
    );
    assert_eq!(se.describe(), "STOMP server error: bad - creds");
    let e = ConnError::ServerRejected(Box::new(se.clone()));
    assert_eq!(
        e.describe(),
        "server rejected connection: STOMP server error: bad - creds"
    );
    assert_eq!(
        format_connection_error_pub(&e, "h:1"),
        ("Authentication failed: bad (creds)".to_string(), AUTH_ERROR)
    );
    assert_eq!(
        format_connection_error_pub(&ConnError::Protocol("x".to_string()), "h:1"),
        ("Protocol error: x".to_string(), PROTOCOL_ERROR)
    );
    assert_eq!(
        format_connection_error_pub(&ConnError::ReceiptTimeout("r".to_string()), "h:1"),
        ("Receipt timeout: r".to_string(), PROTOCOL_ERROR)
    );
    let refused = ConnError::from(std::io::Error::new(
        std::io::ErrorKind::ConnectionRefused,
        "nope",
    ));
    assert_eq!(
        format_connection_error_pub(&refused, "h:1"),
        ("Connection refused: h:1".to_string(), NETWORK_ERROR)
    );
    let timed_out = ConnError::from(std::io::Error::new(std::io::ErrorKind::TimedOut, "slow"));
    assert_eq!(
        format_connection_error_pub(&timed_out, "h:1"),
        ("Connection timed out: h:1".to_string(), NETWORK_ERROR)
    );
    let other = ConnError::from(std::io::Error::new(std::io::ErrorKind::Other, "boom"));
    assert_eq!(
        format_connection_error_pub(&other, "h:1"),
        ("Connection failed: boom".to_string(), NETWORK_ERROR)
    );
    assert_eq!(
        ConnError::ReceiptTimeout("r-1".to_string()).describe(),
        "receipt timeout: no RECEIPT received for 'r-1' within timeout"
    );
    assert!(ConnError::MissingAckId.describe().contains("message-id"));
}

#[test]
fn one_shot_checks() {
    assert!(check_send_destination("/queue/a").is_ok());
    let (m, c) = check_send_destination("queue/a").unwrap_err();
    assert_eq!(
        m,
        "Invalid destination 'queue/a'. Must start with / (e.g., /topic/test, /queue/test)"
    );
    assert_eq!(c, PROTOCOL_ERROR);
    assert_eq!(
        connect_timed_out(5, "h:1"),
        ("Timed out after 5s connecting to h:1".to_string(), NETWORK_ERROR)
    );
    assert_eq!(receive_interval("10000,5000"), 5000);
    assert_eq!(receive_interval("abc"), 10000);
    assert_eq!(receive_interval("1, x"), 10000);
}

#[test]
fn message_bodies_are_shown_as_text() {
    assert_eq!(message_body_text(b""), "");
    assert_eq!(message_body_text("héllo".as_bytes()), "héllo");
    assert_eq!(message_body_text(&[0xff, 0xfe]), "(2 bytes, binary)");
}

#[test]
fn options_defaults() {
    let o = ConnectOptions::new();
    assert_eq!(o.accept_version_or_default(), "1.2");
    assert_eq!(o.host_or_default(), "/");
    assert_eq!(o.max_frame_size_or_default(), 16 * 1024 * 1024);
    assert_eq!(o.disconnect_timeout_or_default(), Duration::from_secs(5));
    let s = SubscriptionOptions::new().channel_capacity(0);
    assert_eq!(s.effective_capacity(), 1);
    assert_eq!(SubscriptionOptions::new().effective_capacity(), 16);
    assert_eq!(SubscriptionOptions::new().effective_overflow_limit(), 1024);
}

#[test]
fn session_counts_and_keeps_the_newest_messages() {
    let mut s = AppState::new_at("h".to_string(), "u".to_string(), 1000, 0);
    s.record_message_at("SENT", "x".to_string(), Vec::new(), 1);
    s.record_message_at("/queue/a", "y".to_string(), Vec::new(), 2);
    s.record_message_at("/queue/a", "z".to_string(), Vec::new(), 3);
    s.record_message_at("BROKER ERROR", "e".to_string(), Vec::new(), 4);
    assert_eq!(s.sent_count, 1);
    assert_eq!(s.error_count, 1);
    assert_eq!(s.total_message_count(), 2);
    assert_eq!(s.messages.len(), 3);
    assert_eq!(s.errors.len(), 1);
    for i in 0..1001 {
        s.record_message_at("INFO", format!("{}", i), Vec::new(), 10);
    }
    assert_eq!(s.messages.len(), 1000);
    assert_eq!(s.messages[0].body, "1");
    assert_eq!(s.messages[999].body, "1000");
}

#[test]
fn history_browsing_restores_the_typed_input() {
    let mut s = AppState::new_at("h".to_string(), "u".to_string(), 1000, 0);
    s.add_to_history("  send /q a  ");
    s.add_to_history("send /q a");
    s.add_to_history("   ");
    s.add_to_history("subscribe /t");
    assert_eq!(s.command_history, vec!["send /q a".to_string(), "subscribe /t".to_string()]);
    s.input = "draft".to_string();
    s.history_prev();
    assert_eq!(s.input, "subscribe /t");
    s.history_prev();
    assert_eq!(s.input, "send /q a");
    s.history_prev();
    assert_eq!(s.input, "send /q a");
    s.history_next();
    assert_eq!(s.input, "subscribe /t");
    s.history_next();
    assert_eq!(s.input, "draft");
    assert_eq!(s.cursor_pos, 5);
    assert_eq!(s.history_index, None);
}

#[test]
fn session_duration_and_report() {
    let mut s = AppState::new_at("broker:61613".to_string(), "guest".to_string(), 1000, 0);
    assert_eq!(s.session_duration_at(3_723_000), "01:02:03");
    assert_eq!(s.session_duration_at(-61_000), "00:-1:-1");
    s.register_subscription("/topic/quiet");
    s.record_message_at("/queue/busy", "one".to_string(), Vec::new(), 1);
    s.record_message_at("/queue/busy", "two".to_string(), Vec::new(), 2);
    let times = vec!["00:00:01".to_string(), "00:00:02".to_string()];
    let r = s.summary_report(true, 30, "start", "end", 125_000, &times);
    let lines: Vec<&str> = r.lines().collect();
    assert_eq!(lines[1], "  iridium-stomp Session Report");
    assert_eq!(lines[3], "  Host:       broker:61613");
    assert_eq!(lines[5], "  Started:    start");
    assert_eq!(lines[7], "  Duration:   2m 5s");
    assert_eq!(lines[10], "    /queue/busy       2");
    assert_eq!(lines[11], "    /topic/quiet      0");
    assert_eq!(lines[13], "    Total             2");
    assert_eq!(lines[15], "  Heartbeats received: 0");
    assert_eq!(lines[20], "  00:00:01 [/queue/busy] one");
    assert_eq!(lines.len(), 23);
}

#[test]
fn frames_are_acknowledged_by_ack_then_message_id() {
    let f = Frame::new("MESSAGE")
        .header("message-id", "m-1")
        .header("ack", "a-1");
    assert_eq!(message_ack_id(&f).unwrap(), "a-1");
    let g = Frame::new("MESSAGE").header("message-id", "m-2");
    assert_eq!(message_ack_id(&g).unwrap(), "m-2");
    let h = Frame::new("MESSAGE").header("destination", "/queue/t");
    assert!(matches!(message_ack_id(&h), Err(ConnError::MissingAckId)));
}

#[test]
fn truncation_never_exceeds_the_limit() {
    for max in 0..12 {
        let t = truncate_str("a long line of text", max);
        assert!(t.chars().count() <= max);
    }
    assert_eq!(truncate_str("abcdef", 5), "ab...");
}

#[test]
fn decode_errors_read_as_text() {
    let mut codec = StompCodec::with_max_frame_size(8);
    let mut buf = b"MESSAGE\ndestination:/q\n\nxxxxxxxx".to_vec();
    let err = codec.decode(&mut buf).unwrap_err();
    assert!(err.describe().contains("exceeds maximum frame size 8"));
    let mut buf = b"SEND\nno colon here\n\n\0".to_vec();
    let err = StompCodec::new().decode(&mut buf).unwrap_err();
    assert!(err.describe().starts_with("malformed header line"));
}

#[test]
fn abandoned_subscription_is_not_resubscribed_but_others_are() {
    let mut state = ConnectionState::new();
    let keep = state.subscribe("/queue/ok", "1", AckMode::Auto, &Vec::new());
    state.subscribe("/queue/denied", "2", AckMode::Auto, &Vec::new());
    for _ in 0..3 {
        state.on_frame(&error_for("/queue/denied"));
    }
    assert_eq!(state.resubscribe_frames(), vec![keep]);
}

#[test]
fn subscription_ids_are_handed_out_in_order() {
    let mut state = ConnectionState::new();
    let (a, fa) = state
        .subscribe_next("/queue/a", AckMode::Auto, &Vec::new(), 4)
        .unwrap();
    let (b, _) = state
        .subscribe_next("/queue/b", AckMode::Client, &Vec::new(), 4)
        .unwrap();
    assert_eq!(a, "1");
    assert_eq!(b, "2");
    assert_eq!(fa.command, "SUBSCRIBE");
    assert_eq!(fa.get_header("id"), Some("1"));
    assert_eq!(state.subscriptions.destination_of("2"), Some("/queue/b".to_string()));
}

#[test]
fn receipt_requests_get_new_ids_and_replace_earlier_receipts() {
    let mut state = ConnectionState::new();
    let f = Frame::new("SEND").header("Receipt", "caller-set");
    let (id, g) = state.request_receipt(f).unwrap();
    assert_eq!(id, "rcpt-1");
    assert_eq!(g.headers, vec![("receipt".to_string(), "rcpt-1".to_string())]);
    let (id2, _) = state.request_receipt(Frame::new("DISCONNECT")).unwrap();
    assert_eq!(id2, "rcpt-2");
}

#[test]
fn ack_and_nack_settle_alike() {
    let mut a = ConnectionState::new();
    let mut n = ConnectionState::new();
    for s in [&mut a, &mut n] {
        s.subscribe("/queue/t", "s", AckMode::Client, &Vec::new());
        for k in 1..=3 {
            s.on_frame(&differing("s", k));
        }
    }
    let fa = a.acknowledge(false, "s", "M2");
    let fn_ = n.acknowledge(true, "s", "M2");
    assert_eq!(fa.command, "ACK");
    assert_eq!(fn_.command, "NACK");
    assert_eq!(fa.headers, fn_.headers);
    assert_eq!(fa.get_header("id"), Some("A2"));
    assert_eq!(a.pending.pending_ids("s"), vec!["M3".to_string()]);
    assert_eq!(n.pending.pending_ids("s"), vec!["M3".to_string()]);
}

#[test]
fn io_errors_keep_their_kind_and_text() {
    let e = ConnError::Io(IoFailureKind::Other, "boom".to_string());
    assert_eq!(e.describe(), "io error: boom");
    assert_eq!(
        format_connection_error_pub(&ConnError::Io(IoFailureKind::TimedOut, "x".to_string()), "h:2"),
        ("Connection timed out: h:2".to_string(), NETWORK_ERROR)
    );
    match ConnError::from(std::io::Error::new(std::io::ErrorKind::ConnectionRefused, "no")) {
        ConnError::Io(k, t) => {
            assert_eq!(k, IoFailureKind::ConnectionRefused);
            assert_eq!(t, "no");
        }
        _ => panic!("expected Io"),
    }
}

#[test]
fn only_a_refused_login_ends_the_first_connect() {
    let rejected = ConnError::ServerRejected(Box::new(ServerError::from_frame(
        Frame::new("ERROR").header("message", "bad"),
    )));
    assert!(connect_failure_is_final(&rejected));
    assert!(!connect_failure_is_final(&ConnError::Protocol("closed".to_string())));
    let fallback = ConnError::Protocol("timed out".to_string());
    let e = connect_timeout_error(Some(ConnError::Protocol("last".to_string())), fallback);
    assert!(matches!(e, ConnError::Protocol(ref m) if m == "last"));
    let e = connect_timeout_error(None, ConnError::Protocol("timed out".to_string()));
    assert!(matches!(e, ConnError::Protocol(ref m) if m == "timed out"));
}

#[test]
fn only_the_advanced_counter_needs_room() {
    let mut s = AppState::new_at("h".to_string(), "u".to_string(), 1000, 0);
    s.sent_count = u64::MAX;
    assert!(!s.can_record("SENT"));
    assert!(s.can_record("INFO"));
    assert!(s.can_record("/queue/x"));
    s.record_message_at("BROKER ERROR", "bad".to_string(), Vec::new(), 5);
    assert_eq!(s.sent_count, u64::MAX);
    assert_eq!(s.error_count, 1);
}

#[test]
fn bytes_after_a_frame_leave_it_unchanged() {
    let frame = b"MESSAGE\ndestination:/q\n\nhi\0".to_vec();
    let alone = parse_frame_slice_bounded(&frame, 1024).unwrap().unwrap();
    let mut more = frame.clone();
    more.extend_from_slice(b"SEND\nx:y\n\n\0");
    let with_more = parse_frame_slice_bounded(&more, 1024).unwrap().unwrap();
    assert_eq!(alone, with_more);
    assert_eq!(alone.3, frame.len());
}

#[test]
fn heartbeats_before_a_frame_count_as_consumed() {
    let frame = b"SEND\nk:v\n\nbody\0".to_vec();
    let alone = parse_frame_slice_bounded(&frame, 1024).unwrap().unwrap();
    let mut beats = b"\n\n\n".to_vec();
    beats.extend_from_slice(&frame);
    let after = parse_frame_slice_bounded(&beats, 1024).unwrap().unwrap();
    assert_eq!((after.0.clone(), after.1.clone(), after.2.clone()), (alone.0.clone(), alone.1.clone(), alone.2.clone()));
    assert_eq!(after.3, alone.3 + 3);
}

#[test]
fn wrapped_pieces_have_the_width_but_the_last() {
    let pieces = iridium_stomp::cli::char_wrap("abcdefghij", 3);
    assert_eq!(pieces, vec!["abc", "def", "ghi", "j"]);
    assert_eq!(pieces.concat(), "abcdefghij");
    assert!(iridium_stomp::cli::char_wrap("abc", 0).is_empty());
}

#[test]
fn command_lines_split_like_the_client_reads_them() {
    assert_eq!(parse_command("   "), Command::Empty);
    assert_eq!(parse_command("quit"), Command::Quit);
    assert_eq!(parse_command(" exit "), Command::Quit);
    assert_eq!(parse_command("help"), Command::Help);
    assert_eq!(
        parse_command("send /queue/a hello there"),
        Command::Send("/queue/a".to_string(), "hello there".to_string())
    );
    assert_eq!(parse_command("send /queue/a"), Command::SendUsage);
    assert_eq!(parse_command("subscribe /topic/x extra"), Command::Subscribe("/topic/x".to_string()));
    assert_eq!(parse_command("subscribe"), Command::SubscribeUsage);
    assert_eq!(parse_command("frobnicate now"), Command::Unknown("frobnicate".to_string()));
}

#[test]
fn every_prefix_of_a_frame_needs_more_bytes() {
    let frames: Vec<Vec<u8>> = vec![
        b"\n\nMESSAGE\ndestination:/q\n\nhello\0\n".to_vec(),
        b"SEND\ncontent-length:3\n\na\0b\0".to_vec(),
        b"bare body\0".to_vec(),
    ];
    for frame in frames {
        let whole = parse_frame_slice_bounded(&frame, 1024).unwrap().unwrap();
        for j in 0..whole.3 {
            if j + 1 == whole.3 && frame[j] == b'\n' {
                continue;
            }
            assert_eq!(parse_frame_slice_bounded(&frame[..j], 1024), Ok(None), "prefix {}", j);
        }
    }
}

#[test]
fn heartbeats_are_skipped_under_the_largest_bound() {
    let frame = b"SEND\nk:v\n\nbody\0".to_vec();
    let alone = parse_frame_slice_bounded(&frame, usize::MAX).unwrap().unwrap();
    let mut beats = b"\n\n".to_vec();
    beats.extend_from_slice(&frame);
    let after = parse_frame_slice_bounded(&beats, usize::MAX).unwrap().unwrap();
    assert_eq!(after.3, alone.3 + 2);
}

#[test]
fn heartbeat_indicator_handles_long_intervals() {
    let mut s = AppState::new_at("h".to_string(), "u".to_string(), u32::MAX, 0);
    s.record_heartbeat(0);
    assert_eq!(s.heartbeat_indicator(5_000), ("◇", false));
    assert_eq!(s.heartbeat_indicator(500), ("✦", true));
}
