//! What a connection does with each frame the broker sends: route MESSAGE
//! frames, settle receipts, and give up subscriptions that the broker keeps
//! refusing.
use vstd::prelude::*;
use crate::connection::{AckMode, ConnError, ServerError, SpecServerError, ack_mode_text, server_error_of};
use crate::error_tracking::{
    error_destination, error_subscription_id, extract_destination_from_error,
    extract_subscription_id_from_error, opt_chars,
};
use crate::frame::{Frame, SpecFrame, SpecTextHeader, chars_equal, eq_ignore_ascii_case, lookup_header};
use crate::registry::{
    PendingAcks, SpecPending, SpecRegistry, Subscriptions, ack_of_id, destination_needs_ack,
    destination_of_id, find_group, id_needs_ack, ids_of_destination, pending_push, pending_settle,
    registry_add, registry_remove_destination, registry_unsubscribe, group_with_id,
    SpecEntry, registry_snapshot, settle_key, wire_ack_id,
};
use crate::session::{
    ack_frame, ack_frame_spec, lemma_receipt_id_injective, receipt_id, receipt_id_text, spec_frame,
    subscribe_frame, subscribe_frame_spec, unsubscribe_frame, with_receipt, with_receipt_spec,
};
use crate::backlog::{
    Backlog, SpecBacklog, backlog_after_reconnect, backlog_close, backlog_close_all,
    backlog_open, backlog_park, backlog_take, backlog_waiting, limit_of, parked_of,
};
use crate::subscription::SubscriptionOptions;
use crate::frame::text_headers;
use crate::text::{
    chars_eq_ignore_ascii_case, decimal_chars, lemma_decimal_injective, push_decimal, push_str,
};

verus! {

// ---------------------------------------------------------------------------
// Error counts per destination
// ---------------------------------------------------------------------------

/// How many ERROR frames each destination has drawn, and the subscription
/// ids given up on.
pub struct SpecTracker {
    pub counts: Seq<(Seq<char>, u32)>,
    pub abandoned: Seq<Seq<char>>,
}

/// The index of the count of destination `d`, searching from `i`.
pub open spec fn count_index_from(c: Seq<(Seq<char>, u32)>, d: Seq<char>, i: int) -> Option<int>
    decreases c.len() - i,
{
    if i < 0 || i >= c.len() {
        None
    } else if c[i].0 == d {
        Some(i)
    } else {
        count_index_from(c, d, i + 1)
    }
}

/// The number of errors destination `d` has drawn.
pub open spec fn error_count(c: Seq<(Seq<char>, u32)>, d: Seq<char>) -> u32 {
    match count_index_from(c, d, 0) {
        Some(i) => c[i].1,
        None => 0,
    }
}

/// One more, short of overflowing.
pub open spec fn one_more(n: u32) -> u32 {
    if n < u32::MAX {
        (n + 1) as u32
    } else {
        n
    }
}

/// The counts after destination `d` drew one more error.
pub open spec fn bump_count(c: Seq<(Seq<char>, u32)>, d: Seq<char>) -> Seq<(Seq<char>, u32)> {
    match count_index_from(c, d, 0) {
        Some(i) => c.update(i, (d, one_more(c[i].1))),
        None => c.push((d, 1u32)),
    }
}

pub proof fn lemma_count_index_from(c: Seq<(Seq<char>, u32)>, d: Seq<char>, i: int)
    requires
        0 <= i,
    ensures
        match count_index_from(c, d, i) {
            Some(k) => i <= k < c.len() && c[k].0 == d && forall|m: int| i <= m < k ==> c[m].0 != d,
            None => forall|m: int| i <= m < c.len() ==> c[m].0 != d,
        },
    decreases c.len() - i,
{
    if i < c.len() && c[i].0 != d {
        lemma_count_index_from(c, d, i + 1);
    }
}

/// After one more error, a destination's count is one more than before.
pub proof fn lemma_bump_count(c: Seq<(Seq<char>, u32)>, d: Seq<char>)
    ensures
        error_count(bump_count(c, d), d) == one_more(error_count(c, d)),
{
    lemma_count_index_from(c, d, 0);
    let b = bump_count(c, d);
    match count_index_from(c, d, 0) {
        Some(i) => {
            assert(count_index_from(b, d, 0) == count_index_from(c, d, 0)) by {
                lemma_count_prefix(c, b, d, 0, i);
            }
        },
        None => {
            assert(count_index_from(b, d, 0) == Some(c.len() as int)) by {
                lemma_count_prefix(c, b, d, 0, c.len() as int);
            }
        },
    }
}

/// Two count lists that agree before index `k`, where `b` holds `d`, find
/// `d` at the same place.
proof fn lemma_count_prefix(
    c: Seq<(Seq<char>, u32)>,
    b: Seq<(Seq<char>, u32)>,
    d: Seq<char>,
    i: int,
    k: int,
)
    requires
        0 <= i <= k < b.len(),
        k <= c.len(),
        forall|m: int| 0 <= m < k ==> b[m] == c[m],
        forall|m: int| i <= m < k ==> c[m].0 != d,
        b[k].0 == d,
    ensures
        count_index_from(b, d, i) == Some(k),
    decreases k - i,
{
    if i < k {
        lemma_count_prefix(c, b, d, i + 1, k);
    }
}

/// How many errors each destination drew, and which subscription ids were
/// given up on.
pub struct ErrorTracker {
    counts: Vec<(String, u32)>,
    abandoned: Vec<String>,
}

impl View for ErrorTracker {
    type V = SpecTracker;

    closed spec fn view(&self) -> SpecTracker {
        SpecTracker {
            counts: self.counts@.map_values(|x: (String, u32)| (x.0@, x.1)),
            abandoned: self.abandoned@.map_values(|s: String| s@),
        }
    }
}

impl ErrorTracker {
    /// No errors seen.
    pub fn new() -> (t: ErrorTracker)
        ensures
            t@.counts == Seq::<(Seq<char>, u32)>::empty(),
            t@.abandoned == Seq::<Seq<char>>::empty(),
    {
        let t = ErrorTracker { counts: Vec::new(), abandoned: Vec::new() };
        assert(t@.counts =~= Seq::<(Seq<char>, u32)>::empty());
        assert(t@.abandoned =~= Seq::<Seq<char>>::empty());
        t
    }

    /// Counts one more error for destination `d`; returns the new count.
    pub fn record(&mut self, d: &str) -> (n: u32)
        ensures
            final(self)@.counts == bump_count(old(self)@.counts, d@),
            final(self)@.abandoned == old(self)@.abandoned,
            n == error_count(final(self)@.counts, d@),
            n == one_more(error_count(old(self)@.counts, d@)),
    {
        let ghost c = self@.counts;
        proof {
            lemma_count_index_from(c, d@, 0);
            lemma_bump_count(c, d@);
        }
        let mut i: usize = 0;
        while i < self.counts.len()
            invariant
                i <= self.counts@.len(),
                c == self.counts@.map_values(|x: (String, u32)| (x.0@, x.1)),
                self@.abandoned == old(self)@.abandoned,
                c == old(self)@.counts,
                count_index_from(c, d@, 0) == count_index_from(c, d@, i as int),
            decreases self.counts@.len() - i,
        {
            if chars_equal(self.counts[i].0.as_str(), d) {
                assert(count_index_from(c, d@, 0) == Some(i as int));
                let (k, v) = self.counts.remove(i);
                let nv = if v < u32::MAX {
                    v + 1
                } else {
                    v
                };
                self.counts.insert(i, (k, nv));
                assert(self@.counts =~= c.update(i as int, (d@, one_more(c[i as int].1))));
                proof {
                    lemma_bump_count(c, d@);
                }
                return nv;
            }
            i += 1;
        }
        self.counts.push((d.to_owned(), 1));
        assert(self@.counts =~= c.push((d@, 1u32)));
        1
    }

    /// Whether subscription `id` was given up on.
    pub fn is_abandoned(&self, id: &str) -> (b: bool)
        ensures
            b == self@.abandoned.contains(id@),
    {
        let mut i: usize = 0;
        while i < self.abandoned.len()
            invariant
                i <= self.abandoned@.len(),
                forall|k: int| 0 <= k < i ==> self@.abandoned[k] != id@,
            decreases self.abandoned@.len() - i,
        {
            if chars_equal(self.abandoned[i].as_str(), id) {
                assert(self@.abandoned[i as int] == id@);
                return true;
            }
            i += 1;
        }
        false
    }

    /// Remembers that subscription `id` was given up on.
    pub fn mark_abandoned(&mut self, id: &str)
        ensures
            final(self)@.abandoned == old(self)@.abandoned.push(id@),
            final(self)@.counts == old(self)@.counts,
    {
        let ghost a = self@.abandoned;
        self.abandoned.push(id.to_owned());
        assert(self@.abandoned =~= a.push(id@));
    }
}

// ---------------------------------------------------------------------------
// The connection's state
// ---------------------------------------------------------------------------

/// The abstract state of a connection.
pub struct SpecConnState {
    pub subs: SpecRegistry,
    pub pending: SpecPending,
    pub errors: SpecTracker,
    pub parked: SpecBacklog,
    pub next_sub: u64,
    pub next_receipt: u64,
}

/// What a connection remembers between frames.
pub struct ConnectionState {
    /// Subscriptions by destination.
    pub subscriptions: Subscriptions,
    /// Messages waiting for ACK or NACK.
    pub pending: PendingAcks,
    /// ERROR counts per destination and abandoned subscriptions.
    pub errors: ErrorTracker,
    /// Frames parked behind full subscription channels.
    pub backlog: Backlog,
    /// The number of the next subscription id to hand out.
    next_subscription: u64,
    /// The number of the next receipt id to hand out.
    next_receipt: u64,
}

impl View for ConnectionState {
    type V = SpecConnState;

    closed spec fn view(&self) -> SpecConnState {
        SpecConnState {
            subs: self.subscriptions@,
            pending: self.pending@,
            errors: self.errors@,
            parked: self.backlog@,
            next_sub: self.next_subscription,
            next_receipt: self.next_receipt,
        }
    }
}

/// Where a MESSAGE frame goes.
#[derive(Debug)]
pub enum Delivery {
    /// To no subscription: it names none that is known, nor a destination
    /// with subscriptions. The application gets it instead.
    Nobody,
    /// To the subscription it names.
    Subscription(String),
    /// To every subscription of its destination (it names no subscription).
    Destination(String),
}

/// How a receipt request was answered.
#[derive(Debug)]
pub enum ReceiptOutcome {
    /// A RECEIPT with this receipt id.
    Confirmed(String),
    /// An ERROR carrying this receipt id.
    Rejected(String, ServerError),
}

/// What to do with one frame from the broker.
#[derive(Debug)]
pub struct InboundPlan {
    /// Where a MESSAGE frame goes.
    pub delivery: Delivery,
    /// The receipt request this frame answers, if any.
    pub receipt: Option<ReceiptOutcome>,
    /// A notice for the application, to hand over before the frame.
    pub notice: Option<Frame>,
    /// Whether the frame itself goes on to the application.
    pub forward: bool,
    /// The subscriptions given up on because of this frame, whose streams
    /// end.
    pub dropped: Vec<String>,
}

/// The abstract delivery of a MESSAGE frame.
pub enum SpecDelivery {
    Nobody,
    Subscription(Seq<char>),
    Destination(Seq<char>),
}

/// The abstract plan for one frame.
pub struct SpecPlan {
    pub delivery: SpecDelivery,
    pub receipt: Option<(Seq<char>, Option<SpecServerError>)>,
    pub notice: Option<SpecFrame>,
    pub forward: bool,
    pub dropped: Seq<Seq<char>>,
}

impl View for InboundPlan {
    type V = SpecPlan;

    open spec fn view(&self) -> SpecPlan {
        SpecPlan {
            delivery: match self.delivery {
                Delivery::Nobody => SpecDelivery::Nobody,
                Delivery::Subscription(s) => SpecDelivery::Subscription(s@),
                Delivery::Destination(d) => SpecDelivery::Destination(d@),
            },
            receipt: match self.receipt {
                Some(ReceiptOutcome::Confirmed(r)) => Some((r@, None)),
                Some(ReceiptOutcome::Rejected(r, e)) => Some((r@, Some(e@))),
                None => None,
            },
            notice: match self.notice {
                Some(f) => Some(f@),
                None => None,
            },
            forward: self.forward,
            dropped: self.dropped@.map_values(|x: String| x@),
        }
    }
}

/// The value of the last header whose key equals `name` up to ASCII case.
pub open spec fn last_header(h: Seq<SpecTextHeader>, name: Seq<char>) -> Option<Seq<char>>
    decreases h.len(),
{
    if h.len() == 0 {
        None
    } else if chars_eq_ignore_ascii_case(h.last().0, name) {
        Some(h.last().1)
    } else {
        last_header(h.drop_last(), name)
    }
}

/// The pending messages after message `m` with frame `f` went to each of
/// the subscriptions `ids`.
pub open spec fn push_for_ids(p: SpecPending, ids: Seq<Seq<char>>, m: Seq<char>, f: SpecFrame) -> SpecPending
    decreases ids.len(),
{
    if ids.len() == 0 {
        p
    } else {
        pending_push(push_for_ids(p, ids.drop_last(), m, f), ids.last(), m, f)
    }
}

/// Whether MESSAGE frame `f` must wait for acknowledgement: the subscription
/// it names (or else some subscription of its destination) is not `auto`.
pub open spec fn message_needs_ack(r: SpecRegistry, f: SpecFrame) -> bool {
    match last_header(f.headers, "subscription"@) {
        Some(s) => id_needs_ack(r, s),
        None => match last_header(f.headers, "destination"@) {
            Some(d) => destination_needs_ack(r, d),
            None => false,
        },
    }
}

/// The pending messages after MESSAGE frame `f` arrived: when it needs
/// acknowledgement and has a `message-id`, it waits under the subscription
/// it names, or else under every subscription of its destination.
pub open spec fn message_pending(r: SpecRegistry, p: SpecPending, f: SpecFrame) -> SpecPending {
    match last_header(f.headers, "message-id"@) {
        Some(m) => if message_needs_ack(r, f) {
            match last_header(f.headers, "subscription"@) {
                Some(s) => pending_push(p, s, m, f),
                None => match last_header(f.headers, "destination"@) {
                    Some(d) => push_for_ids(p, ids_of_destination(r, d), m, f),
                    None => p,
                },
            }
        } else {
            p
        },
        None => p,
    }
}

/// Where MESSAGE frame `f` goes: to the subscription it names, when that
/// is known; without a `subscription` header, to the subscriptions of its
/// destination, when there are any; otherwise to no subscription.
pub open spec fn message_delivery(r: SpecRegistry, f: SpecFrame) -> SpecDelivery {
    match last_header(f.headers, "subscription"@) {
        Some(s) => if group_with_id(r, s) is Some {
            SpecDelivery::Subscription(s)
        } else {
            SpecDelivery::Nobody
        },
        None => match last_header(f.headers, "destination"@) {
            Some(d) => if ids_of_destination(r, d).len() > 0 {
                SpecDelivery::Destination(d)
            } else {
                SpecDelivery::Nobody
            },
            None => SpecDelivery::Nobody,
        },
    }
}

/// The notice that a subscription was given up after `n` errors for
/// destination `d`.
pub open spec fn abandon_notice(n: u32, d: Seq<char>) -> SpecFrame {
    spec_frame(
        "ERROR"@,
        seq![
            ("message"@, "Subscription abandoned: "@ + decimal_chars(n as nat) + " errors for "@ + d),
            ("destination"@, d),
            ("x-abandoned"@, "true"@),
        ],
        Seq::empty(),
    )
}

/// The destination an ERROR frame is charged to: the one it names, or else
/// the one of the subscription it names.
pub open spec fn charged_destination(s: SpecConnState, f: SpecFrame) -> Option<Seq<char>> {
    match error_destination(f) {
        Some(d) => Some(d),
        None => match error_subscription_id(f) {
            Some(id) => destination_of_id(s.subs, id),
            None => None,
        },
    }
}

/// Whether ERROR frame `f` is about a subscription already given up on.
pub open spec fn about_abandoned(s: SpecConnState, f: SpecFrame) -> bool {
    match error_subscription_id(f) {
        Some(id) => s.errors.abandoned.contains(id),
        None => false,
    }
}

/// Errors a destination may draw before its subscriptions are given up.
pub open spec fn error_threshold() -> u32 {
    3
}

/// The state after ERROR frame `f`: its destination's count goes up, and on
/// the third error the destination's subscriptions are forgotten (so they
/// are not made again on reconnect) and the subscription it names is marked
/// abandoned.
pub open spec fn error_state(s: SpecConnState, f: SpecFrame) -> SpecConnState {
    if about_abandoned(s, f) {
        s
    } else {
        match charged_destination(s, f) {
            Some(d) => {
                let counts = bump_count(s.errors.counts, d);
                let n = error_count(counts, d);
                if n >= error_threshold() && find_group(s.subs, d) is Some {
                    SpecConnState {
                        subs: registry_remove_destination(s.subs, d),
                        pending: s.pending,
                        errors: SpecTracker {
                            counts,
                            abandoned: match error_subscription_id(f) {
                                Some(id) => s.errors.abandoned.push(id),
                                None => s.errors.abandoned,
                            },
                        },
                        parked: backlog_close_all(s.parked, ids_of_destination(s.subs, d)),
                        ..s
                    }
                } else {
                    SpecConnState {
                        subs: s.subs,
                        pending: s.pending,
                        errors: SpecTracker { counts, abandoned: s.errors.abandoned },
                        ..s
                    }
                }
            },
            None => s,
        }
    }
}

/// The notice an ERROR frame gives rise to: the abandonment notice when it
/// tips its destination over.
pub open spec fn error_notice(s: SpecConnState, f: SpecFrame) -> Option<SpecFrame> {
    if about_abandoned(s, f) {
        None
    } else {
        match charged_destination(s, f) {
            Some(d) => {
                let n = error_count(bump_count(s.errors.counts, d), d);
                if n >= error_threshold() && find_group(s.subs, d) is Some {
                    Some(abandon_notice(n, d))
                } else {
                    None
                }
            },
            None => None,
        }
    }
}

/// The subscriptions an ERROR frame gives up on: those of its destination,
/// when it tips the destination over.
pub open spec fn error_dropped(s: SpecConnState, f: SpecFrame) -> Seq<Seq<char>> {
    if about_abandoned(s, f) {
        Seq::empty()
    } else {
        match charged_destination(s, f) {
            Some(d) => {
                let n = error_count(bump_count(s.errors.counts, d), d);
                if n >= error_threshold() && find_group(s.subs, d) is Some {
                    ids_of_destination(s.subs, d)
                } else {
                    Seq::empty()
                }
            },
            None => Seq::empty(),
        }
    }
}

/// The state after the connection handled frame `f`.
pub open spec fn inbound_state(s: SpecConnState, f: SpecFrame) -> SpecConnState {
    if f.command == "MESSAGE"@ {
        SpecConnState {
            subs: s.subs,
            pending: message_pending(s.subs, s.pending, f),
            ..s
        }
    } else if f.command == "ERROR"@ {
        error_state(s, f)
    } else {
        s
    }
}

/// The plan for frame `f`.
pub open spec fn inbound_plan(s: SpecConnState, f: SpecFrame) -> SpecPlan {
    if f.command == "MESSAGE"@ {
        SpecPlan {
            delivery: message_delivery(s.subs, f),
            receipt: None,
            notice: None,
            forward: message_delivery(s.subs, f) is Nobody,
            dropped: Seq::empty(),
        }
    } else if f.command == "RECEIPT"@ {
        SpecPlan {
            delivery: SpecDelivery::Nobody,
            receipt: match lookup_header(f.headers, "receipt-id"@) {
                Some(r) => Some((r, None)),
                None => None,
            },
            notice: None,
            forward: false,
            dropped: Seq::empty(),
        }
    } else if f.command == "ERROR"@ {
        SpecPlan {
            delivery: SpecDelivery::Nobody,
            receipt: match lookup_header(f.headers, "receipt-id"@) {
                Some(r) => Some((r, Some(server_error_of(f)))),
                None => None,
            },
            notice: error_notice(s, f),
            forward: !about_abandoned(s, f),
            dropped: error_dropped(s, f),
        }
    } else {
        SpecPlan {
            delivery: SpecDelivery::Nobody,
            receipt: None,
            notice: None,
            forward: true,
            dropped: Seq::empty(),
        }
    }
}


/// The value of the last header of `f` whose key equals `name` up to ASCII
/// case.
fn last_header_value(f: &Frame, name: &str) -> (r: Option<String>)
    ensures
        opt_chars(r) == last_header(f@.headers, name@),
{
    let ghost h = f@.headers;
    let mut found: Option<String> = None;
    let mut i: usize = 0;
    while i < f.headers.len()
        invariant
            i <= f.headers@.len(),
            h == text_headers(f.headers@),
            opt_chars(found) == last_header(h.subrange(0, i as int), name@),
        decreases f.headers@.len() - i,
    {
        proof {
            let t = h.subrange(0, i + 1);
            assert(t.drop_last() =~= h.subrange(0, i as int));
            assert(t.last() == h[i as int]);
        }
        if eq_ignore_ascii_case(f.headers[i].0.as_str(), name) {
            found = Some(f.headers[i].1.clone());
        }
        i += 1;
    }
    assert(h.subrange(0, h.len() as int) =~= h);
    found
}

/// The notice that a destination's subscriptions were given up after `n`
/// errors.
pub fn abandon_notice_frame(n: u32, d: &str) -> (f: Frame)
    ensures
        f@ == abandon_notice(n, d@),
{
    let mut msg = String::new();
    push_str(&mut msg, "Subscription abandoned: ");
    push_decimal(&mut msg, n as u64);
    push_str(&mut msg, " errors for ");
    push_str(&mut msg, d);
    let f = Frame::new("ERROR").header("message", msg.as_str()).header("destination", d).header(
        "x-abandoned",
        "true",
    );
    assert(f@.headers =~= abandon_notice(n, d@).headers);
    f
}

impl ConnectionState {
    /// Whether the parts keep their invariants.
    pub closed spec fn wf(&self) -> bool {
        self.subscriptions.wf() && self.pending.wf() && self.backlog.wf()
    }

    /// A fresh connection: no subscriptions, nothing pending, no errors.
    pub fn new() -> (s: ConnectionState)
        ensures
            s.wf(),
            s@.subs == SpecRegistry::empty(),
            s@.pending == SpecPending::empty(),
            s@.errors.counts == Seq::<(Seq<char>, u32)>::empty(),
            s@.errors.abandoned == Seq::<Seq<char>>::empty(),
            s@.parked == SpecBacklog::empty(),
            s@.next_sub == 1,
            s@.next_receipt == 1,
    {
        ConnectionState {
            subscriptions: Subscriptions::new(),
            pending: PendingAcks::new(),
            errors: ErrorTracker::new(),
            backlog: Backlog::new(),
            next_subscription: 1,
            next_receipt: 1,
        }
    }

    /// Records MESSAGE frame `f` as pending for each of subscriptions `ids`.
    fn push_each(&mut self, ids: &Vec<String>, m: &str, f: &Frame)
        requires
            old(self).wf(),
        ensures
            final(self).wf(),
            final(self)@.subs == old(self)@.subs,
            final(self)@.errors == old(self)@.errors,
            final(self)@.parked == old(self)@.parked,
            final(self)@.next_sub == old(self)@.next_sub,
            final(self)@.next_receipt == old(self)@.next_receipt,
            final(self)@.next_sub == old(self)@.next_sub,
            final(self)@.next_receipt == old(self)@.next_receipt,
            final(self)@.pending == push_for_ids(
                old(self)@.pending,
                ids@.map_values(|x: String| x@),
                m@,
                f@,
            ),
    {
        let ghost iv = ids@.map_values(|x: String| x@);
        let mut i: usize = 0;
        while i < ids.len()
            invariant
                i <= ids@.len(),
                iv == ids@.map_values(|x: String| x@),
                self.wf(),
                self@.subs == old(self)@.subs,
                self@.errors == old(self)@.errors,
                self@.parked == old(self)@.parked,
                self@.next_sub == old(self)@.next_sub,
                self@.next_receipt == old(self)@.next_receipt,
                self@.pending == push_for_ids(old(self)@.pending, iv.subrange(0, i as int), m@, f@),
            decreases ids@.len() - i,
        {
            proof {
                let t = iv.subrange(0, i + 1);
                assert(t.drop_last() =~= iv.subrange(0, i as int));
                assert(t.last() == iv[i as int]);
            }
            self.pending.push(ids[i].as_str(), m, f.duplicate());
            i += 1;
        }
        assert(iv.subrange(0, ids@.len() as int) =~= iv);
    }

    /// Handles a MESSAGE frame: records it as pending where acknowledgement
    /// is needed, and says where it goes.
    fn on_message(&mut self, f: &Frame) -> (d: Delivery)
        requires
            old(self).wf(),
            f@.command == "MESSAGE"@,
        ensures
            final(self).wf(),
            final(self)@ == inbound_state(old(self)@, f@),
            inbound_plan(old(self)@, f@).delivery == (match d {
                Delivery::Nobody => SpecDelivery::Nobody,
                Delivery::Subscription(s) => SpecDelivery::Subscription(s@),
                Delivery::Destination(x) => SpecDelivery::Destination(x@),
            }),
    {
        let dest = last_header_value(f, "destination");
        let sub = last_header_value(f, "subscription");
        let msg = last_header_value(f, "message-id");
        let need = match &sub {
            Some(s) => self.subscriptions.id_needs_ack(s.as_str()),
            None => match &dest {
                Some(d) => self.subscriptions.destination_needs_ack(d.as_str()),
                None => false,
            },
        };
        if need {
            match &msg {
                Some(m) => match &sub {
                    Some(s) => {
                        self.pending.push(s.as_str(), m.as_str(), f.duplicate());
                    },
                    None => match &dest {
                        Some(d) => {
                            let ids = self.subscriptions.ids_of(d.as_str());
                            self.push_each(&ids, m.as_str(), f);
                        },
                        None => {},
                    },
                },
                None => {},
            }
        }
        match sub {
            Some(s) => if self.subscriptions.destination_of(s.as_str()).is_some() {
                Delivery::Subscription(s)
            } else {
                Delivery::Nobody
            },
            None => match dest {
                Some(d) => if self.subscriptions.ids_of(d.as_str()).len() > 0 {
                    Delivery::Destination(d)
                } else {
                    Delivery::Nobody
                },
                None => Delivery::Nobody,
            },
        }
    }

    /// Handles an ERROR frame's bookkeeping: returns the notice to hand over
    /// and whether the frame itself goes on.
    fn on_error(&mut self, f: &Frame) -> (r: (Option<Frame>, bool, Vec<String>))
        requires
            old(self).wf(),
            f@.command == "ERROR"@,
        ensures
            final(self).wf(),
            final(self)@ == inbound_state(old(self)@, f@),
            match (r.0, error_notice(old(self)@, f@)) {
                (Some(x), Some(y)) => x@ == y,
                (None, None) => true,
                _ => false,
            },
            r.1 == !about_abandoned(old(self)@, f@),
            r.2@.map_values(|x: String| x@) == error_dropped(old(self)@, f@),
    {
        proof {
            reveal_strlit("MESSAGE");
            reveal_strlit("ERROR");
            assert("MESSAGE"@.len() == 7);
            assert("ERROR"@.len() == 5);
        }
        let sid = extract_subscription_id_from_error(f);
        if let Some(id) = &sid {
            if self.errors.is_abandoned(id.as_str()) {
                let none: Vec<String> = Vec::new();
                assert(none@.map_values(|x: String| x@) =~= Seq::<Seq<char>>::empty());
                return (None, false, none);
            }
        }
        let dest = match extract_destination_from_error(f) {
            Some(d) => Some(d),
            None => match &sid {
                Some(id) => self.subscriptions.destination_of(id.as_str()),
                None => None,
            },
        };
        let none: Vec<String> = Vec::new();
        assert(none@.map_values(|x: String| x@) =~= Seq::<Seq<char>>::empty());
        match dest {
            Some(d) => {
                let n = self.errors.record(d.as_str());
                if n >= 3 {
                    let ids = self.subscriptions.ids_of(d.as_str());
                    if self.subscriptions.remove_destination(d.as_str()) {
                        if let Some(id) = &sid {
                            self.errors.mark_abandoned(id.as_str());
                        }
                        self.backlog.close_all(&ids);
                        return (Some(abandon_notice_frame(n, d.as_str())), true, ids);
                    }
                }
                (None, true, none)
            },
            None => (None, true, none),
        }
    }

    /// Decides what to do with frame `frame` from the broker, updating the
    /// subscriptions, pending messages and error counts.
    pub fn on_frame(&mut self, frame: &Frame) -> (plan: InboundPlan)
        requires
            old(self).wf(),
        ensures
            final(self).wf(),
            final(self)@ == inbound_state(old(self)@, frame@),
            plan@ == inbound_plan(old(self)@, frame@),
    {
        proof {
            reveal_strlit("MESSAGE");
            reveal_strlit("RECEIPT");
            reveal_strlit("ERROR");
            assert("MESSAGE"@.len() == 7);
            assert("RECEIPT"@.len() == 7);
            assert("ERROR"@.len() == 5);
            assert("MESSAGE"@[0] != "RECEIPT"@[0]);
        }
        let none: Vec<String> = Vec::new();
        assert(none@.map_values(|x: String| x@) =~= Seq::<Seq<char>>::empty());
        if chars_equal(frame.command.as_str(), "MESSAGE") {
            let delivery = self.on_message(frame);
            let forward = match delivery {
                Delivery::Nobody => true,
                _ => false,
            };
            InboundPlan { delivery, receipt: None, notice: None, forward, dropped: none }
        } else if chars_equal(frame.command.as_str(), "RECEIPT") {
            let receipt = match frame.get_header("receipt-id") {
                Some(r) => Some(ReceiptOutcome::Confirmed(r.to_owned())),
                None => None,
            };
            InboundPlan {
                delivery: Delivery::Nobody,
                receipt,
                notice: None,
                forward: false,
                dropped: none,
            }
        } else if chars_equal(frame.command.as_str(), "ERROR") {
            let receipt = match frame.get_header("receipt-id") {
                Some(r) => Some(
                    ReceiptOutcome::Rejected(r.to_owned(), ServerError::from_frame(frame.duplicate())),
                ),
                None => None,
            };
            let (notice, forward, dropped) = self.on_error(frame);
            InboundPlan { delivery: Delivery::Nobody, receipt, notice, forward, dropped }
        } else {
            InboundPlan {
                delivery: Delivery::Nobody,
                receipt: None,
                notice: None,
                forward: true,
                dropped: none,
            }
        }
    }

    /// Remembers a new subscription, with room for `overflow_limit` frames
    /// parked behind its full channel, and returns its SUBSCRIBE frame.
    pub fn subscribe_with_limit(
        &mut self,
        destination: &str,
        id: &str,
        ack: AckMode,
        extra_headers: &Vec<(String, String)>,
        overflow_limit: usize,
    ) -> (f: Frame)
        requires
            old(self).wf(),
        ensures
            final(self).wf(),
            final(self)@.subs == registry_add(
                old(self)@.subs,
                destination@,
                SpecEntry { id: id@, ack: ack_mode_text(ack), headers: text_headers(extra_headers@) },
            ),
            final(self)@.pending == old(self)@.pending,
            final(self)@.errors == old(self)@.errors,
            final(self)@.parked == backlog_open(old(self)@.parked, id@, overflow_limit),
            final(self)@.next_sub == old(self)@.next_sub,
            final(self)@.next_receipt == old(self)@.next_receipt,
            f@ == subscribe_frame_spec(id@, destination@, ack_mode_text(ack), text_headers(extra_headers@)),
    {
        self.subscriptions.add(destination, id, ack.as_str(), extra_headers);
        self.backlog.open(id, overflow_limit);
        subscribe_frame(id, destination, ack.as_str(), extra_headers)
    }

    /// Hands out a new subscription id, the decimal number after the last one
    /// handed out, remembers the subscription with room for
    /// `overflow_limit` parked frames, and returns the id with its SUBSCRIBE
    /// frame. Fails only when the ids are used up.
    pub fn subscribe_next(
        &mut self,
        destination: &str,
        ack: AckMode,
        extra_headers: &Vec<(String, String)>,
        overflow_limit: usize,
    ) -> (r: Result<(String, Frame), ConnError>)
        requires
            old(self).wf(),
        ensures
            final(self).wf(),
            old(self)@.next_sub == u64::MAX <==> r is Err,
            r matches Err(e) ==> (e matches ConnError::Protocol(m) && m@
                == "subscription ids exhausted"@ && *final(self) == *old(self)),
            r matches Ok((id, f)) ==> {
                &&& id@ == decimal_chars(old(self)@.next_sub as nat)
                &&& forall|k: u64| k < old(self)@.next_sub ==> decimal_chars(k as nat) != id@
                &&& final(self)@ == (SpecConnState {
                    subs: registry_add(
                        old(self)@.subs,
                        destination@,
                        SpecEntry {
                            id: id@,
                            ack: ack_mode_text(ack),
                            headers: text_headers(extra_headers@),
                        },
                    ),
                    parked: backlog_open(old(self)@.parked, id@, overflow_limit),
                    next_sub: (old(self)@.next_sub + 1) as u64,
                    ..old(self)@
                })
                &&& f@ == subscribe_frame_spec(
                    id@,
                    destination@,
                    ack_mode_text(ack),
                    text_headers(extra_headers@),
                )
            },
    {
        if self.next_subscription == u64::MAX {
            return Err(ConnError::Protocol("subscription ids exhausted".to_owned()));
        }
        let n = self.next_subscription;
        let mut id = String::new();
        push_decimal(&mut id, n);
        proof {
            assert forall|k: u64| k < n implies decimal_chars(k as nat) != id@ by {
                if decimal_chars(k as nat) == id@ {
                    lemma_decimal_injective(k as nat, n as nat);
                }
            }
        }
        let f = self.subscribe_with_limit(destination, id.as_str(), ack, extra_headers, overflow_limit);
        self.next_subscription = n + 1;
        Ok((id, f))
    }

    /// Asks for a receipt on `frame`: hands out a new receipt id (`rcpt-`
    /// and the number after the last one handed out) and returns it with
    /// the frame, whose earlier `receipt` headers give way to it. Fails only
    /// when the ids are used up.
    pub fn request_receipt(&mut self, frame: Frame) -> (r: Result<(String, Frame), ConnError>)
        requires
            old(self).wf(),
        ensures
            final(self).wf(),
            old(self)@.next_receipt == u64::MAX <==> r is Err,
            r matches Err(e) ==> (e matches ConnError::Protocol(m) && m@
                == "receipt ids exhausted"@ && *final(self) == *old(self)),
            r matches Ok((id, f)) ==> {
                &&& id@ == receipt_id_text(old(self)@.next_receipt as nat)
                &&& forall|k: u64| k < old(self)@.next_receipt ==> receipt_id_text(k as nat) != id@
                &&& final(self)@ == (SpecConnState {
                    next_receipt: (old(self)@.next_receipt + 1) as u64,
                    ..old(self)@
                })
                &&& f@ == with_receipt_spec(frame@, id@)
            },
    {
        if self.next_receipt == u64::MAX {
            return Err(ConnError::Protocol("receipt ids exhausted".to_owned()));
        }
        let n = self.next_receipt;
        let id = receipt_id(n);
        proof {
            assert forall|k: u64| k < n implies receipt_id_text(k as nat) != id@ by {
                if receipt_id_text(k as nat) == id@ {
                    lemma_receipt_id_injective(k as nat, n as nat);
                }
            }
        }
        self.next_receipt = n + 1;
        let f = with_receipt(frame, id.as_str());
        Ok((id, f))
    }

    /// Remembers a new subscription with the default overflow limit and
    /// returns its SUBSCRIBE frame.
    pub fn subscribe(
        &mut self,
        destination: &str,
        id: &str,
        ack: AckMode,
        extra_headers: &Vec<(String, String)>,
    ) -> (f: Frame)
        requires
            old(self).wf(),
        ensures
            final(self).wf(),
            final(self)@.subs == registry_add(
                old(self)@.subs,
                destination@,
                SpecEntry { id: id@, ack: ack_mode_text(ack), headers: text_headers(extra_headers@) },
            ),
            final(self)@.pending == old(self)@.pending,
            final(self)@.errors == old(self)@.errors,
            final(self)@.parked == backlog_open(
                old(self)@.parked,
                id@,
                SubscriptionOptions::DEFAULT_OVERFLOW_LIMIT,
            ),
            final(self)@.next_sub == old(self)@.next_sub,
            final(self)@.next_receipt == old(self)@.next_receipt,
            f@ == subscribe_frame_spec(id@, destination@, ack_mode_text(ack), text_headers(extra_headers@)),
    {
        self.subscribe_with_limit(
            destination,
            id,
            ack,
            extra_headers,
            SubscriptionOptions::DEFAULT_OVERFLOW_LIMIT,
        )
    }

    /// Forgets subscription `id` and returns its UNSUBSCRIBE frame, or fails
    /// when no subscription has that id.
    pub fn unsubscribe(&mut self, id: &str) -> (r: Result<Frame, ConnError>)
        requires
            old(self).wf(),
        ensures
            final(self).wf(),
            final(self)@.subs == registry_unsubscribe(old(self)@.subs, id@),
            final(self)@.pending == old(self)@.pending,
            final(self)@.errors == old(self)@.errors,
            final(self)@.parked == backlog_close(old(self)@.parked, id@),
            final(self)@.next_sub == old(self)@.next_sub,
            final(self)@.next_receipt == old(self)@.next_receipt,
            group_with_id(old(self)@.subs, id@) is Some ==> (r matches Ok(f) && f@ == spec_frame(
                "UNSUBSCRIBE"@,
                seq![("id"@, id@)],
                Seq::empty(),
            )),
            group_with_id(old(self)@.subs, id@) is None ==> (r matches Err(ConnError::Protocol(m))
                && m@ == "subscription id not found"@),
    {
        self.backlog.close(id);
        if self.subscriptions.remove_id(id) {
            Ok(unsubscribe_frame(id))
        } else {
            Err(ConnError::Protocol("subscription id not found".to_owned()))
        }
    }

    /// Settles the message that `id` names (by its `message-id` or its
    /// `ack` header) for an ACK or NACK of subscription `subscription_id`:
    /// cumulatively unless the subscription is known to be in another mode
    /// than `client`. Returns the id the ACK or NACK frame carries.
    pub fn settle(&mut self, subscription_id: &str, id: &str) -> (wire: String)
        requires
            old(self).wf(),
        ensures
            final(self).wf(),
            final(self)@.subs == old(self)@.subs,
            final(self)@.errors == old(self)@.errors,
            final(self)@.parked == old(self)@.parked,
            final(self)@.next_sub == old(self)@.next_sub,
            final(self)@.next_receipt == old(self)@.next_receipt,
            final(self)@.pending == pending_settle(
                old(self)@.pending,
                subscription_id@,
                settle_key(old(self)@.pending, subscription_id@, id@),
                settles_cumulatively(old(self)@.subs, subscription_id@),
            ),
            wire@ == wire_ack_id(old(self)@.pending, subscription_id@, id@),
    {
        let cumulative = match self.subscriptions.ack_of(subscription_id) {
            Some(a) => chars_equal(a.as_str(), "client"),
            None => true,
        };
        let (key, wire) = self.pending.resolve(subscription_id, id);
        self.pending.settle(subscription_id, key.as_str(), cumulative);
        wire
    }

    /// Acknowledges (or, with `negative`, negatively acknowledges) the
    /// message that `id` names for subscription `subscription_id`: settles
    /// it as `settle` does and returns the ACK or NACK frame, which carries
    /// the id `settle` gives.
    pub fn acknowledge(&mut self, negative: bool, subscription_id: &str, id: &str) -> (f: Frame)
        requires
            old(self).wf(),
        ensures
            final(self).wf(),
            final(self)@ == settle_state(old(self)@, subscription_id@, id@),
            f@ == ack_frame_spec(
                negative,
                wire_ack_id(old(self)@.pending, subscription_id@, id@),
                subscription_id@,
            ),
    {
        let wire = self.settle(subscription_id, id);
        ack_frame(negative, wire.as_str(), subscription_id)
    }

    /// Forgets every pending message, as after a reconnect.
    pub fn reset_pending(&mut self)
        requires
            old(self).wf(),
        ensures
            final(self).wf(),
            final(self)@.subs == old(self)@.subs,
            final(self)@.errors == old(self)@.errors,
            final(self)@.parked == old(self)@.parked,
            final(self)@.next_sub == old(self)@.next_sub,
            final(self)@.next_receipt == old(self)@.next_receipt,
            final(self)@.pending == SpecPending::empty(),
    {
        self.pending.clear();
    }

    /// Prepares for a new session after a reconnect: nothing is pending any
    /// more (the broker redelivers what was not acknowledged), and parked
    /// frames stay only for subscriptions in `auto` mode.
    pub fn after_reconnect(&mut self)
        requires
            old(self).wf(),
        ensures
            final(self).wf(),
            final(self)@ == reconnect_state(old(self)@),
    {
        self.pending.clear();
        self.backlog.after_reconnect(&self.subscriptions);
    }

    /// Whether frames for subscription `id` must queue behind frames parked
    /// before them, rather than go to its channel.
    pub fn must_park(&self, id: &str) -> (b: bool)
        ensures
            b == (parked_of(self@.parked, id@).len() > 0),
    {
        match self.backlog.occupancy(id) {
            Some((_, n)) => n > 0,
            None => {
                assert(parked_of(self@.parked, id@) =~= Seq::<SpecFrame>::empty());
                false
            },
        }
    }

    /// Parks MESSAGE frame `f` for subscription `id`, whose channel is full
    /// or has frames queued before it. When `id` already has as many frames
    /// parked as its limit allows, the subscription is failed instead: it is
    /// forgotten with its parked frames, and the result carries its
    /// UNSUBSCRIBE frame and the notice for the application.
    pub fn park(&mut self, id: &str, f: Frame) -> (r: ParkOutcome)
        requires
            old(self).wf(),
        ensures
            final(self).wf(),
            final(self)@ == park_state(old(self)@, id@, f@),
            r@ == park_outcome(old(self)@, id@),
    {
        match self.backlog.occupancy(id) {
            Some((limit, n)) => {
                if n < limit {
                    self.backlog.park(id, f);
                    ParkOutcome::Parked
                } else {
                    let dest = self.subscriptions.destination_of(id);
                    self.subscriptions.remove_id(id);
                    self.backlog.close(id);
                    let notice = overflow_notice_frame(limit, &dest, id);
                    ParkOutcome::Overflowed { unsubscribe: unsubscribe_frame(id), notice, limit }
                }
            },
            None => ParkOutcome::Unknown,
        }
    }

    /// Takes the oldest frame parked for subscription `id`, now that its
    /// channel has room.
    pub fn take_parked(&mut self, id: &str) -> (r: Option<Frame>)
        requires
            old(self).wf(),
        ensures
            final(self).wf(),
            final(self)@ == (SpecConnState {
                parked: backlog_take(old(self)@.parked, id@),
                ..old(self)@
            }),
            parked_of(old(self)@.parked, id@).len() > 0 ==> (r matches Some(f) && f@ == parked_of(
                old(self)@.parked,
                id@,
            )[0]),
            parked_of(old(self)@.parked, id@).len() == 0 ==> r is None,
    {
        self.backlog.take(id)
    }

    /// The subscriptions with parked frames.
    pub fn waiting_ids(&self) -> (ids: Vec<String>)
        ensures
            ids@.map_values(|s: String| s@) == backlog_waiting(self@.parked),
    {
        self.backlog.waiting_ids()
    }

    /// Forgets subscription `id`, whose consumer is gone, with its parked
    /// frames; nothing is sent for it.
    pub fn prune(&mut self, id: &str)
        requires
            old(self).wf(),
        ensures
            final(self).wf(),
            final(self)@ == (SpecConnState {
                subs: registry_unsubscribe(old(self)@.subs, id@),
                parked: backlog_close(old(self)@.parked, id@),
                ..old(self)@
            }),
    {
        self.subscriptions.remove_id(id);
        self.backlog.close(id);
    }
}

/// The state after the message that `id` names for subscription `sub` was
/// acknowledged or negatively acknowledged.
pub open spec fn settle_state(s: SpecConnState, sub: Seq<char>, id: Seq<char>) -> SpecConnState {
    SpecConnState {
        pending: pending_settle(
            s.pending,
            sub,
            settle_key(s.pending, sub, id),
            settles_cumulatively(s.subs, sub),
        ),
        ..s
    }
}

/// The state after a reconnect.
pub open spec fn reconnect_state(s: SpecConnState) -> SpecConnState {
    SpecConnState {
        subs: s.subs,
        pending: SpecPending::empty(),
        parked: backlog_after_reconnect(s.parked, s.subs),
        ..s
    }
}

/// What became of a frame offered for parking.
pub enum ParkOutcome {
    /// It waits behind the frames parked before it.
    Parked,
    /// The subscription had reached its limit and was failed.
    Overflowed {
        /// The UNSUBSCRIBE frame to send the broker.
        unsubscribe: Frame,
        /// The notice for the application.
        notice: Frame,
        /// The limit that was reached.
        limit: usize,
    },
    /// The subscription is not known; the frame goes nowhere.
    Unknown,
}

/// The abstract outcome of parking.
pub enum SpecParkOutcome {
    Parked,
    Overflowed(SpecFrame, SpecFrame, usize),
    Unknown,
}

impl View for ParkOutcome {
    type V = SpecParkOutcome;

    open spec fn view(&self) -> SpecParkOutcome {
        match self {
            ParkOutcome::Parked => SpecParkOutcome::Parked,
            ParkOutcome::Overflowed { unsubscribe, notice, limit } => SpecParkOutcome::Overflowed(
                unsubscribe@,
                notice@,
                *limit,
            ),
            ParkOutcome::Unknown => SpecParkOutcome::Unknown,
        }
    }
}

/// The notice that subscription `id` (to destination `d`, when known) was
/// failed after `limit` frames were parked for it.
pub open spec fn overflow_notice(limit: usize, d: Option<Seq<char>>, id: Seq<char>) -> SpecFrame {
    let message = (
        "message"@,
        "Subscription "@ + id + " overflowed: more than "@ + decimal_chars(limit as nat)
            + " frames parked"@,
    );
    spec_frame(
        "ERROR"@,
        match d {
            Some(x) => seq![
                message,
                ("destination"@, x),
                ("subscription"@, id),
                ("x-overflow"@, "true"@),
            ],
            None => seq![message, ("subscription"@, id), ("x-overflow"@, "true"@)],
        },
        Seq::empty(),
    )
}

/// The state after frame `f` was offered for parking for subscription
/// `id`: parked when fewer than its limit wait, else the subscription is
/// forgotten with its parked frames.
pub open spec fn park_state(s: SpecConnState, id: Seq<char>, f: SpecFrame) -> SpecConnState {
    match limit_of(s.parked, id) {
        Some(l) => if parked_of(s.parked, id).len() < l {
            SpecConnState { parked: backlog_park(s.parked, id, f), ..s }
        } else {
            SpecConnState {
                subs: registry_unsubscribe(s.subs, id),
                parked: backlog_close(s.parked, id),
                ..s
            }
        },
        None => s,
    }
}

/// What offering a frame for parking for subscription `id` comes to.
pub open spec fn park_outcome(s: SpecConnState, id: Seq<char>) -> SpecParkOutcome {
    match limit_of(s.parked, id) {
        Some(l) => if parked_of(s.parked, id).len() < l {
            SpecParkOutcome::Parked
        } else {
            SpecParkOutcome::Overflowed(
                spec_frame("UNSUBSCRIBE"@, seq![("id"@, id)], Seq::empty()),
                overflow_notice(l, destination_of_id(s.subs, id), id),
                l,
            )
        },
        None => SpecParkOutcome::Unknown,
    }
}

/// The notice that subscription `id` was failed at its overflow limit.
pub fn overflow_notice_frame(limit: usize, destination: &Option<String>, id: &str) -> (f: Frame)
    ensures
        f@ == overflow_notice(
            limit,
            match destination {
                Some(d) => Some(d@),
                None => None,
            },
            id@,
        ),
{
    let mut msg = String::new();
    push_str(&mut msg, "Subscription ");
    push_str(&mut msg, id);
    push_str(&mut msg, " overflowed: more than ");
    push_decimal(&mut msg, limit as u64);
    push_str(&mut msg, " frames parked");
    let f = Frame::new("ERROR").header("message", msg.as_str());
    let f = match destination {
        Some(d) => f.header("destination", d.as_str()),
        None => f,
    };
    let f = f.header("subscription", id).header("x-overflow", "true");
    proof {
        let dv = match destination {
            Some(d) => Some(d@),
            None => None,
        };
        assert(f@.headers =~= overflow_notice(limit, dv, id@).headers);
    }
    f
}

/// Whether an ACK for subscription `id` is cumulative: its mode is `client`,
/// or it is not known (then `client` is assumed).
pub open spec fn settles_cumulatively(r: SpecRegistry, id: Seq<char>) -> bool {
    match ack_of_id(r, id) {
        Some(a) => a == "client"@,
        None => true,
    }
}


/// The SUBSCRIBE frames that re-establish every remembered subscription
/// after a reconnect, group by group.
pub open spec fn resubscribe_spec(r: SpecRegistry) -> Seq<SpecFrame> {
    registry_snapshot(r).map_values(
        |x: (Seq<char>, SpecEntry)| subscribe_frame_spec(x.1.id, x.0, x.1.ack, x.1.headers),
    )
}

impl ConnectionState {
    /// The SUBSCRIBE frames to send again after a reconnect.
    pub fn resubscribe_frames(&self) -> (v: Vec<Frame>)
        ensures
            v@.map_values(|f: Frame| f@) == resubscribe_spec(self@.subs),
    {
        let snap = self.subscriptions.snapshot();
        let ghost sv = snap@.map_values(
            |x: (String, String, String, Vec<(String, String)>)|
                (x.0@, SpecEntry { id: x.1@, ack: x.2@, headers: text_headers(x.3@) }),
        );
        let mut v: Vec<Frame> = Vec::new();
        let mut i: usize = 0;
        while i < snap.len()
            invariant
                i <= snap@.len(),
                sv == snap@.map_values(
                    |x: (String, String, String, Vec<(String, String)>)|
                        (x.0@, SpecEntry { id: x.1@, ack: x.2@, headers: text_headers(x.3@) }),
                ),
                sv == registry_snapshot(self@.subs),
                v@.map_values(|f: Frame| f@) == resubscribe_spec(self@.subs).subrange(0, i as int),
            decreases snap@.len() - i,
        {
            let item = &snap[i];
            let f = subscribe_frame(item.1.as_str(), item.0.as_str(), item.2.as_str(), &item.3);
            let ghost before = v@;
            v.push(f);
            assert(v@.map_values(|f: Frame| f@) =~= before.map_values(|f: Frame| f@).push(f@));
            assert(resubscribe_spec(self@.subs).subrange(0, i + 1) =~= resubscribe_spec(
                self@.subs,
            ).subrange(0, i as int).push(resubscribe_spec(self@.subs)[i as int]));
            i += 1;
        }
        assert(resubscribe_spec(self@.subs).subrange(0, snap@.len() as int) =~= resubscribe_spec(
            self@.subs,
        ));
        v
    }
}


/// The id a MESSAGE frame is acknowledged by: its `ack` header (STOMP 1.2),
/// else its `message-id` header (STOMP 1.0 and 1.1).
pub open spec fn ack_id_spec(f: SpecFrame) -> Option<Seq<char>> {
    match lookup_header(f.headers, "ack"@) {
        Some(a) => Some(a),
        None => lookup_header(f.headers, "message-id"@),
    }
}

/// The id to acknowledge MESSAGE frame `frame` by, or `MissingAckId` when
/// it has neither header.
pub fn message_ack_id(frame: &Frame) -> (r: Result<String, ConnError>)
    ensures
        match ack_id_spec(frame@) {
            Some(id) => r matches Ok(s) && s@ == id,
            None => r matches Err(ConnError::MissingAckId),
        },
{
    match frame.get_header("ack") {
        Some(a) => Ok(a.to_owned()),
        None => match frame.get_header("message-id") {
            Some(m) => Ok(m.to_owned()),
            None => Err(ConnError::MissingAckId),
        },
    }
}

} // verus!
