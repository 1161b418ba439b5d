//! A first look at frames.

use iridium_stomp::Frame;

#[test]
fn smoke_frame_display() {
    let f = Frame::new("CONNECT")
        .header("accept-version", "1.2")
        .set_body(b"hello".to_vec());
    let s = f.describe();
    assert!(s.contains("CONNECT"));
    assert!(s.contains("Body (5 bytes)"));
}
