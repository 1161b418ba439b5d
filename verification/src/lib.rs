//! A STOMP 1.2 client library: frames and their wire format, the decisions
//! a connection makes, and the logic of a command-line client.
use vstd::prelude::*;

pub mod backlog;
pub mod cli;
pub mod codec;
pub mod connection;
pub mod dispatch;
pub mod error_tracking;
pub mod frame;
pub mod laws;
pub mod parse_laws;
pub mod parser;
pub mod registry;
pub mod roundtrip;
pub mod session;
pub mod session_state;
pub mod subscription;
pub mod text;

pub use codec::{StompCodec, StompItem};
pub use connection::{
    AckMode, ConnError, ConnectOptions, Heartbeat, ReceivedFrame, ServerError,
    negotiate_heartbeats, parse_heartbeat_header,
};
pub use frame::Frame;
pub use subscription::{SubscriptionEnd, SubscriptionOptions};

verus! {
} // verus!
