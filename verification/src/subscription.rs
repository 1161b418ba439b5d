//! Subscription options and the reasons a subscription ends.
use vstd::prelude::*;
use crate::frame::text_headers;

verus! {

/// Options of a subscription. `headers` go on the SUBSCRIBE frame as they
/// are and are sent again on reconnect, which is how broker-specific
/// features such as durable subscriptions are requested.
#[derive(Debug, Clone)]
#[non_exhaustive]
pub struct SubscriptionOptions {
    /// Extra headers of the SUBSCRIBE frame.
    pub headers: Vec<(String, String)>,
    /// Capacity of the subscription's channel, in frames; the default when
    /// `None`, and zero counts as one.
    pub channel_capacity: Option<usize>,
    /// Most messages that may wait behind a full channel before the
    /// subscription is failed; the default when `None`.
    pub overflow_limit: Option<usize>,
}

impl SubscriptionOptions {
    /// Channel capacity when none is set.
    pub const DEFAULT_CHANNEL_CAPACITY: usize = 16;

    /// Overflow limit when none is set.
    pub const DEFAULT_OVERFLOW_LIMIT: usize = 1024;

    /// No extra headers, default capacity and limit.
    pub fn new() -> (o: SubscriptionOptions)
        ensures
            o.headers@.len() == 0,
            o.channel_capacity is None,
            o.overflow_limit is None,
    {
        SubscriptionOptions { headers: Vec::new(), channel_capacity: None, overflow_limit: None }
    }

    /// Adds one extra header (builder style).
    pub fn header(self, key: &str, value: &str) -> (o: SubscriptionOptions)
        ensures
            text_headers(o.headers@) == text_headers(self.headers@).push((key@, value@)),
            o.channel_capacity == self.channel_capacity,
            o.overflow_limit == self.overflow_limit,
    {
        let mut o = self;
        let ghost before = o.headers@;
        o.headers.push((key.to_owned(), value.to_owned()));
        assert(text_headers(o.headers@) =~= text_headers(before).push((key@, value@)));
        o
    }

    /// Replaces the extra headers (builder style).
    pub fn headers(self, headers: Vec<(String, String)>) -> (o: SubscriptionOptions)
        ensures
            o.headers == headers,
            o.channel_capacity == self.channel_capacity,
            o.overflow_limit == self.overflow_limit,
    {
        let mut o = self;
        o.headers = headers;
        o
    }

    /// Sets the channel capacity (builder style).
    pub fn channel_capacity(self, capacity: usize) -> (o: SubscriptionOptions)
        ensures
            o.headers == self.headers,
            o.channel_capacity == Some(capacity),
            o.overflow_limit == self.overflow_limit,
    {
        let mut o = self;
        o.channel_capacity = Some(capacity);
        o
    }

    /// Sets the overflow limit (builder style).
    pub fn overflow_limit(self, limit: usize) -> (o: SubscriptionOptions)
        ensures
            o.headers == self.headers,
            o.channel_capacity == self.channel_capacity,
            o.overflow_limit == Some(limit),
    {
        let mut o = self;
        o.overflow_limit = Some(limit);
        o
    }

    /// The channel capacity in effect: the one set or the default, and at
    /// least one.
    pub fn effective_capacity(&self) -> (n: usize)
        ensures
            n == (match self.channel_capacity {
                Some(c) => if c == 0 {
                    1
                } else {
                    c
                },
                None => 16,
            }),
    {
        match self.channel_capacity {
            Some(c) => if c == 0 {
                1
            } else {
                c
            },
            None => Self::DEFAULT_CHANNEL_CAPACITY,
        }
    }

    /// The overflow limit in effect: the one set or the default.
    pub fn effective_overflow_limit(&self) -> (n: usize)
        ensures
            n == (match self.overflow_limit {
                Some(l) => l,
                None => 1024,
            }),
    {
        match self.overflow_limit {
            Some(l) => l,
            None => Self::DEFAULT_OVERFLOW_LIMIT,
        }
    }
}

impl Default for SubscriptionOptions {
    /// No extra headers, default capacity and limit.
    fn default() -> (o: SubscriptionOptions)
        ensures
            o.headers@.len() == 0,
            o.channel_capacity is None,
            o.overflow_limit is None,
    {
        SubscriptionOptions::new()
    }
}

/// Why a subscription stopped yielding frames.
#[derive(Debug, Clone, PartialEq, Eq)]
#[non_exhaustive]
pub enum SubscriptionEnd {
    /// Given up after repeated broker ERROR frames for its destination;
    /// `message` is the broker's last `message` header.
    Abandoned {
        /// The `message` header of the ERROR that tipped it over.
        message: String,
    },
    /// Failed because more than `limit` messages waited behind its full
    /// channel.
    Overflowed {
        /// The overflow limit that was exceeded.
        limit: usize,
    },
    /// The application unsubscribed.
    Unsubscribed,
    /// The connection was closed, or its background task ended.
    ConnectionClosed,
}

} // verus!
