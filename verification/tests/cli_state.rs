//! The command-line client's helpers and error reports.

use iridium_stomp::cli::{char_wrap, format_connection_error_pub, truncate_str, FRAME_REJECTED};
use iridium_stomp::connection::{ConnError, ServerError};
use iridium_stomp::Frame;

#[test]
fn truncate_str_never_panics_on_multibyte() {
    // Byte-index slicing used to panic when the cut fell inside a multibyte
    // char. These must truncate cleanly instead.
    assert_eq!(truncate_str("aaaaéaaaaaaaaaa", 8), "aaaaé...");
    let out = truncate_str("hello 🌦 world weather report", 11);
    assert!(out.ends_with("..."));
    assert_eq!(out.chars().count(), 11);
}

#[test]
fn truncate_str_passes_short_and_handles_tiny_max() {
    assert_eq!(truncate_str("short", 10), "short");
    assert_eq!(truncate_str("", 5), "");
    assert_eq!(truncate_str("hello", 3), "...");
    assert_eq!(truncate_str("hello", 2), "..");
}

#[test]
fn char_wrap_splits_on_char_boundaries_and_reassembles() {
    let s = "aaébbédd"; // 8 chars, multibyte in the middle
    let chunks = char_wrap(s, 3);
    assert_eq!(chunks, vec!["aaé", "bbé", "dd"]);
    assert_eq!(chunks.concat(), s);
    assert!(char_wrap("abc", 0).is_empty());
}

#[test]
fn frame_rejected_uses_distinct_exit_code() {
    let err = ConnError::FrameRejected(ServerError {
        message: "publish denied".to_string(),
        body: Some("not allowed".to_string()),
        receipt_id: Some("receipt-1".to_string()),
        frame: Frame::new("ERROR")
            .header("message", "publish denied")
            .header("receipt-id", "receipt-1")
            .set_body(b"not allowed".to_vec()),
    });

    let (message, code) = format_connection_error_pub(&err, "127.0.0.1:61613");

    assert_eq!(message, "Frame rejected: publish denied (not allowed)");
    assert_eq!(code, FRAME_REJECTED);
}
