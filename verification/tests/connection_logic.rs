//! The connection's decisions: reading broker ERROR frames, remembering
//! subscriptions, and settling acknowledgements.

use iridium_stomp::connection::AckMode;
use iridium_stomp::dispatch::ConnectionState;
use iridium_stomp::error_tracking::{
    extract_destination_from_error, extract_subscription_id_from_error,
};
use iridium_stomp::session::ack_frame;
use iridium_stomp::Frame;

fn make_message(message_id: &str, subscription: Option<&str>, destination: Option<&str>) -> Frame {
    let mut f = Frame::new("MESSAGE");
    f = f.header("message-id", message_id);
    if let Some(s) = subscription {
        f = f.header("subscription", s);
    }
    if let Some(d) = destination {
        f = f.header("destination", d);
    }
    f
}

#[test]
fn test_extract_destination_from_error_header() {
    // When ERROR frame has destination header, extract it directly
    let frame = Frame::new("ERROR")
        .header("message", "AMQ339016: Error creating STOMP subscription")
        .header("destination", "/topic/test.restricted");

    let dest = extract_destination_from_error(&frame);
    assert_eq!(dest, Some("/topic/test.restricted".to_string()));
}

#[test]
fn test_extract_destination_from_error_message() {
    // When destination is in message header text
    let frame = Frame::new("ERROR").header(
        "message",
        "AMQ339016: Error creating subscription for /topic/test.restricted",
    );

    let dest = extract_destination_from_error(&frame);
    assert_eq!(dest, Some("/topic/test.restricted".to_string()));
}

#[test]
fn test_extract_destination_from_error_body() {
    // When destination is in body text
    let frame = Frame::new("ERROR")
        .header("message", "AMQ339016: Error creating subscription")
        .set_body(b"User guest is not authorized for /queue/orders".to_vec());

    let dest = extract_destination_from_error(&frame);
    assert_eq!(dest, Some("/queue/orders".to_string()));
}

#[test]
fn test_extract_destination_from_error_none() {
    // When no destination can be identified
    let frame = Frame::new("ERROR").header("message", "Generic error without destination info");

    let dest = extract_destination_from_error(&frame);
    assert_eq!(dest, None);
}

#[test]
fn test_extract_destination_from_error_with_trailing_punct() {
    // When destination has trailing punctuation
    let frame = Frame::new("ERROR").header(
        "message",
        "Error for /topic/events, please check permissions",
    );

    let dest = extract_destination_from_error(&frame);
    assert_eq!(dest, Some("/topic/events".to_string()));
}

#[test]
fn test_extract_subscription_id_from_error_artemis_format() {
    // Artemis format: "AMQ339016 Error creating subscription 1"
    let frame = Frame::new("ERROR").header("message", "AMQ339016 Error creating subscription 1");

    let sub_id = extract_subscription_id_from_error(&frame);
    assert_eq!(sub_id, Some("1".to_string()));
}

#[test]
fn test_extract_subscription_id_from_error_numeric() {
    // Multiple digit subscription ID
    let frame = Frame::new("ERROR").header("message", "Error for subscription 123 on server");

    let sub_id = extract_subscription_id_from_error(&frame);
    assert_eq!(sub_id, Some("123".to_string()));
}

#[test]
fn test_extract_subscription_id_from_error_none() {
    // No subscription ID in error
    let frame = Frame::new("ERROR").header("message", "Generic connection error");

    let sub_id = extract_subscription_id_from_error(&frame);
    assert_eq!(sub_id, None);
}

#[test]
fn test_lookup_destination_by_sub_id() {
    let mut state = ConnectionState::new();
    state.subscribe("/topic/test.restricted", "1", AckMode::Auto, &Vec::new());

    // Should find the destination
    let dest = state.subscriptions.destination_of("1");
    assert_eq!(dest, Some("/topic/test.restricted".to_string()));

    // Should not find non-existent subscription
    let dest = state.subscriptions.destination_of("999");
    assert_eq!(dest, None);
}

#[test]
fn test_cumulative_ack_removes_prefix() {
    let mut state = ConnectionState::new();
    state.subscribe("/queue/x", "s1", AckMode::Client, &Vec::new());
    state.pending.push("s1", "m1", make_message("m1", Some("s1"), Some("/queue/x")));
    state.pending.push("s1", "m2", make_message("m2", Some("s1"), Some("/queue/x")));
    state.pending.push("s1", "m3", make_message("m3", Some("s1"), Some("/queue/x")));

    // ack m2 cumulatively: should remove m1 and m2, leaving m3
    assert_eq!(state.settle("s1", "m2"), "m2");
    assert_eq!(state.pending.pending_ids("s1"), vec!["m3".to_string()]);

    // the ACK frame sent for it
    let f = ack_frame(false, "m2", "s1");
    assert_eq!(f.command, "ACK");
}

#[test]
fn test_client_individual_ack_removes_only_one() {
    let mut state = ConnectionState::new();
    state.subscribe("/queue/y", "s2", AckMode::ClientIndividual, &Vec::new());
    state.pending.push("s2", "a", make_message("a", Some("s2"), Some("/queue/y")));
    state.pending.push("s2", "b", make_message("b", Some("s2"), Some("/queue/y")));
    state.pending.push("s2", "c", make_message("c", Some("s2"), Some("/queue/y")));

    // ack only 'b' individually
    assert_eq!(state.settle("s2", "b"), "b");
    assert_eq!(
        state.pending.pending_ids("s2"),
        vec!["a".to_string(), "c".to_string()]
    );

    let f = ack_frame(false, "b", "s2");
    assert_eq!(f.command, "ACK");
}
