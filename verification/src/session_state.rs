//! The command-line client's session state: counters, the message and
//! error buffers, and the command history.
use vstd::prelude::*;
use crate::frame::{chars_equal, text_headers, SpecTextHeader};
use std::time::Duration;
use crate::connection::duration_as_millis;
use crate::text::{decimal_chars, push_decimal, push_str, str_chars, string_push, trim_chars, trim_ws};

verus! {

/// Most messages kept for display.
pub const MAX_MESSAGES: usize = 1000;

/// Most broker errors kept for display.
pub const MAX_ERRORS: usize = 100;

/// Statistics of one subscribed destination.
#[derive(Debug, Clone, Copy)]
pub struct SubStats {
    /// Messages received on the destination.
    pub message_count: u64,
}

impl Default for SubStats {
    /// No messages yet.
    fn default() -> (s: SubStats)
        ensures
            s.message_count == 0,
    {
        SubStats { message_count: 0 }
    }
}

/// A message kept for display.
#[derive(Debug, Clone)]
pub struct DisplayMessage {
    /// When it arrived, in milliseconds since the Unix epoch.
    pub timestamp_ms: i64,
    /// Where it came from, or the kind of event (`SENT`, `ERROR`, ...).
    pub destination: String,
    /// Its body as text.
    pub body: String,
    /// Its headers.
    pub headers: Vec<(String, String)>,
}

/// The abstract value of a displayed message.
pub struct SpecMessage {
    pub timestamp_ms: i64,
    pub destination: Seq<char>,
    pub body: Seq<char>,
    pub headers: Seq<SpecTextHeader>,
}

impl View for DisplayMessage {
    type V = SpecMessage;

    open spec fn view(&self) -> SpecMessage {
        SpecMessage {
            timestamp_ms: self.timestamp_ms,
            destination: self.destination@,
            body: self.body@,
            headers: text_headers(self.headers@),
        }
    }
}

/// The state of a client session.
#[derive(Debug)]
pub struct AppState {
    /// When the session started, in milliseconds since the Unix epoch.
    pub start_time_ms: i64,
    /// Broker address.
    pub host: String,
    /// Login.
    pub user: String,
    /// Expected interval between broker heartbeats, in milliseconds.
    pub heartbeat_interval_ms: u32,
    /// Statistics per destination, in the order destinations were first
    /// seen.
    pub subscriptions: Vec<(String, SubStats)>,
    /// Heartbeats received.
    pub heartbeat_count: u64,
    /// When the last heartbeat arrived, on the caller's monotonic clock in
    /// milliseconds.
    pub last_heartbeat_ms: Option<u64>,
    /// Messages sent.
    pub sent_count: u64,
    /// Errors seen.
    pub error_count: u64,
    /// Warnings shown.
    pub warning_count: u64,
    /// Notices shown.
    pub info_count: u64,
    /// The newest messages, oldest first, at most `MAX_MESSAGES`.
    pub messages: Vec<DisplayMessage>,
    /// The newest broker errors, oldest first, at most `MAX_ERRORS`.
    pub errors: Vec<DisplayMessage>,
    /// Whether headers are shown.
    pub show_headers: bool,
    /// Scroll position of the message pane.
    pub scroll_offset: usize,
    /// Scroll position of the error pane.
    pub error_scroll_offset: usize,
    /// The command being typed.
    pub input: String,
    /// Cursor position in the input, in bytes.
    pub cursor_pos: usize,
    /// Commands entered, oldest first.
    pub command_history: Vec<String>,
    /// The history entry being shown, when browsing.
    pub history_index: Option<usize>,
    /// The input that was being typed when browsing began.
    pub saved_input: String,
}

/// The abstract value of destination statistics.
pub open spec fn stats_view(s: Seq<(String, SubStats)>) -> Seq<(Seq<char>, u64)> {
    s.map_values(|x: (String, SubStats)| (x.0@, x.1.message_count))
}

/// The index of destination `d`'s statistics, searching from `i`.
pub open spec fn stats_index_from(s: Seq<(Seq<char>, u64)>, d: Seq<char>, i: int) -> Option<int>
    decreases s.len() - i,
{
    if i < 0 || i >= s.len() {
        None
    } else if s[i].0 == d {
        Some(i)
    } else {
        stats_index_from(s, d, i + 1)
    }
}

/// The statistics after registering destination `d` (with no messages yet
/// when it is new).
pub open spec fn stats_register(s: Seq<(Seq<char>, u64)>, d: Seq<char>) -> Seq<(Seq<char>, u64)> {
    match stats_index_from(s, d, 0) {
        Some(_) => s,
        None => s.push((d, 0u64)),
    }
}

/// The statistics after one more message on destination `d`.
pub open spec fn stats_count(s: Seq<(Seq<char>, u64)>, d: Seq<char>) -> Seq<(Seq<char>, u64)> {
    match stats_index_from(s, d, 0) {
        Some(i) => s.update(i, (d, (s[i].1 + 1) as u64)),
        None => s.push((d, 1u64)),
    }
}

/// The sum of the message counts.
pub open spec fn stats_total(s: Seq<(Seq<char>, u64)>) -> nat
    decreases s.len(),
{
    if s.len() == 0 {
        0
    } else {
        stats_total(s.drop_last()) + s.last().1 as nat
    }
}

/// `buf` with `m` appended, keeping only the newest `max` entries.
pub open spec fn ring_push(buf: Seq<SpecMessage>, m: SpecMessage, max: nat) -> Seq<SpecMessage> {
    let b = buf.push(m);
    if b.len() > max {
        b.subrange(b.len() - max, b.len() as int)
    } else {
        b
    }
}

/// The display buffers keep at most their limit: the newest entry is the
/// one just added, and the entries before it are the newest of the old ones,
/// in order.
pub proof fn ring_keeps_the_newest(buf: Seq<SpecMessage>, m: SpecMessage, max: nat)
    requires
        max > 0,
        buf.len() <= max,
    ensures
        ring_push(buf, m, max).len() <= max,
        ring_push(buf, m, max).last() == m,
        ring_push(buf, m, max).drop_last() == buf.subrange(
            buf.len() + 1 - ring_push(buf, m, max).len(),
            buf.len() as int,
        ),
{
    let b = buf.push(m);
    let r = ring_push(buf, m, max);
    assert(r.drop_last() =~= buf.subrange(buf.len() + 1 - r.len(), buf.len() as int));
}

proof fn lemma_stats_index_from(s: Seq<(Seq<char>, u64)>, d: Seq<char>, i: int)
    requires
        0 <= i,
    ensures
        match stats_index_from(s, d, i) {
            Some(k) => i <= k < s.len() && s[k].0 == d,
            None => forall|m: int| i <= m < s.len() ==> s[m].0 != d,
        },
    decreases s.len() - i,
{
    if i < s.len() && s[i].0 != d {
        lemma_stats_index_from(s, d, i + 1);
    }
}

/// The index of destination `d`'s statistics.
fn find_stats(s: &Vec<(String, SubStats)>, d: &str) -> (r: Option<usize>)
    ensures
        match (r, stats_index_from(stats_view(s@), d@, 0)) {
            (Some(k), Some(j)) => k == j,
            (None, None) => true,
            _ => false,
        },
{
    let ghost v = stats_view(s@);
    let mut i: usize = 0;
    while i < s.len()
        invariant
            i <= s@.len(),
            v == stats_view(s@),
            stats_index_from(v, d@, 0) == stats_index_from(v, d@, i as int),
        decreases s@.len() - i,
    {
        if chars_equal(s[i].0.as_str(), d) {
            return Some(i);
        }
        i += 1;
    }
    None
}

/// Appends `m` to `buf`, dropping the oldest entries beyond `max`.
fn push_bounded(buf: &mut Vec<DisplayMessage>, m: DisplayMessage, max: usize)
    requires
        max > 0,
    ensures
        final(buf)@.map_values(|x: DisplayMessage| x@) == ring_push(
            old(buf)@.map_values(|x: DisplayMessage| x@),
            m@,
            max as nat,
        ),
{
    let ghost b = old(buf)@.map_values(|x: DisplayMessage| x@).push(m@);
    buf.push(m);
    assert(buf@.map_values(|x: DisplayMessage| x@) =~= b);
    while buf.len() > max
        invariant
            max > 0,
            b.len() >= buf@.len(),
            buf@.map_values(|x: DisplayMessage| x@) == b.subrange(
                b.len() - buf@.len(),
                b.len() as int,
            ),
            buf@.len() >= max || buf@.len() == b.len(),
        decreases buf@.len(),
    {
        let ghost before = buf@;
        buf.remove(0);
        assert(buf@.map_values(|x: DisplayMessage| x@) =~= b.subrange(
            b.len() - buf@.len(),
            b.len() as int,
        )) by {
            assert forall|j: int| 0 <= j < buf@.len() implies buf@[j]@ == b[b.len() - buf@.len()
                + j] by {
                assert(buf@[j] == before[j + 1]);
                assert(before.map_values(|x: DisplayMessage| x@)[j + 1] == b.subrange(
                    b.len() - before.len(),
                    b.len() as int,
                )[j + 1]);
            }
        }
    }
    proof {
        if b.len() > max {
            assert(buf@.len() == max);
        } else {
            assert(b.subrange(0, b.len() as int) =~= b);
        }
    }
}

/// The indicator for the heartbeat state, `(symbol, pulsing)`: a star for a
/// second after a heartbeat, a diamond while heartbeats are on time, `!`
/// once one is late, a circle before the first.
pub open spec fn indicator_spec(last: Option<u64>, now_ms: u64, interval_ms: u32) -> (Seq<char>, bool) {
    match last {
        Some(t) => {
            let elapsed = (if now_ms >= t {
                now_ms - t
            } else {
                0
            }) as u32;
            if elapsed < 1000 {
                ("✦"@, true)
            } else if elapsed < interval_ms * 2 {
                ("◇"@, false)
            } else {
                ("!"@, false)
            }
        },
        None => ("○"@, false),
    }
}

impl AppState {
    /// A session with `host`, `user` and heartbeat interval, started at
    /// `now_ms` (milliseconds since the Unix epoch).
    pub fn new_at(host: String, user: String, heartbeat_interval_ms: u32, now_ms: i64) -> (s: AppState)
        ensures
            s.start_time_ms == now_ms,
            s.host == host,
            s.user == user,
            s.heartbeat_interval_ms == heartbeat_interval_ms,
            s.subscriptions@.len() == 0,
            s.heartbeat_count == 0,
            s.last_heartbeat_ms is None,
            s.sent_count == 0 && s.error_count == 0 && s.warning_count == 0 && s.info_count == 0,
            s.messages@.len() == 0 && s.errors@.len() == 0,
            !s.show_headers,
            s.scroll_offset == 0 && s.error_scroll_offset == 0,
            s.input@ == Seq::<char>::empty(),
            s.cursor_pos == 0,
            s.command_history@.len() == 0,
            s.history_index is None,
            s.saved_input@ == Seq::<char>::empty(),
    {
        AppState {
            start_time_ms: now_ms,
            host,
            user,
            heartbeat_interval_ms,
            subscriptions: Vec::new(),
            heartbeat_count: 0,
            last_heartbeat_ms: None,
            sent_count: 0,
            error_count: 0,
            warning_count: 0,
            info_count: 0,
            messages: Vec::new(),
            errors: Vec::new(),
            show_headers: false,
            scroll_offset: 0,
            error_scroll_offset: 0,
            input: String::new(),
            cursor_pos: 0,
            command_history: Vec::new(),
            history_index: None,
            saved_input: String::new(),
        }
    }

    /// Records a heartbeat received at `now_ms`.
    pub fn record_heartbeat(&mut self, now_ms: u64)
        requires
            old(self).heartbeat_count < u64::MAX,
        ensures
            *final(self) == (AppState {
                heartbeat_count: (old(self).heartbeat_count + 1) as u64,
                last_heartbeat_ms: Some(now_ms),
                ..*old(self)
            }),
    {
        self.heartbeat_count = self.heartbeat_count + 1;
        self.last_heartbeat_ms = Some(now_ms);
    }

    /// The heartbeat indicator at `now_ms`.
    pub fn heartbeat_indicator(&self, now_ms: u64) -> (r: (&'static str, bool))
        ensures
            (r.0@, r.1) == indicator_spec(self.last_heartbeat_ms, now_ms, self.heartbeat_interval_ms),
    {
        match self.last_heartbeat_ms {
            Some(t) => {
                let elapsed = now_ms.saturating_sub(t) as u32;
                if elapsed < 1000 {
                    ("✦", true)
                } else if (elapsed as u64) < (self.heartbeat_interval_ms as u64) * 2 {
                    ("◇", false)
                } else {
                    ("!", false)
                }
            },
            None => ("○", false),
        }
    }

    /// Registers destination `d` (with no messages yet when it is new).
    pub fn register_subscription(&mut self, d: &str)
        ensures
            stats_view(final(self).subscriptions@) == stats_register(
                stats_view(old(self).subscriptions@),
                d@,
            ),
            *final(self) == (AppState { subscriptions: final(self).subscriptions, ..*old(self) }),
    {
        let ghost s = stats_view(self.subscriptions@);
        match find_stats(&self.subscriptions, d) {
            Some(_) => {},
            None => {
                self.subscriptions.push((d.to_owned(), SubStats::default()));
                assert(stats_view(self.subscriptions@) =~= s.push((d@, 0u64)));
            },
        }
    }

    /// Whether the one counter that recording a message for `d` advances is
    /// below its maximum: the `SENT`, `ERROR` (also for `BROKER ERROR`),
    /// `WARN` or `INFO` counter, or else the message count of destination
    /// `d` when it is already known.
    pub open spec fn room_to_count(&self, d: Seq<char>) -> bool {
        if d == "SENT"@ {
            self.sent_count < u64::MAX
        } else if d == "ERROR"@ || d == "BROKER ERROR"@ {
            self.error_count < u64::MAX
        } else if d == "WARN"@ {
            self.warning_count < u64::MAX
        } else if d == "INFO"@ {
            self.info_count < u64::MAX
        } else {
            match stats_index_from(stats_view(self.subscriptions@), d, 0) {
                Some(i) => stats_view(self.subscriptions@)[i].1 < u64::MAX,
                None => true,
            }
        }
    }

    /// Whether a message for `destination` can be recorded without a
    /// counter overflowing.
    pub fn can_record(&self, destination: &str) -> (b: bool)
        ensures
            b == self.room_to_count(destination@),
    {
        if chars_equal(destination, "SENT") {
            self.sent_count < u64::MAX
        } else if chars_equal(destination, "ERROR") || chars_equal(destination, "BROKER ERROR") {
            self.error_count < u64::MAX
        } else if chars_equal(destination, "WARN") {
            self.warning_count < u64::MAX
        } else if chars_equal(destination, "INFO") {
            self.info_count < u64::MAX
        } else {
            proof {
                lemma_stats_index_from(stats_view(self.subscriptions@), destination@, 0);
            }
            match find_stats(&self.subscriptions, destination) {
                Some(i) => {
                    assert(stats_view(self.subscriptions@)[i as int].1
                        == self.subscriptions@[i as int].1.message_count);
                    self.subscriptions[i].1.message_count < u64::MAX
                },
                None => true,
            }
        }
    }

    /// Records a broker error received at `now_ms`.
    pub fn record_error_at(&mut self, body: String, headers: Vec<(String, String)>, now_ms: i64)
        requires
            old(self).error_count < u64::MAX,
        ensures
            final(self).error_count == old(self).error_count + 1,
            final(self).errors@.map_values(|x: DisplayMessage| x@) == ring_push(
                old(self).errors@.map_values(|x: DisplayMessage| x@),
                SpecMessage {
                    timestamp_ms: now_ms,
                    destination: "BROKER ERROR"@,
                    body: body@,
                    headers: text_headers(headers@),
                },
                MAX_ERRORS as nat,
            ),
            *final(self) == (AppState {
                error_count: final(self).error_count,
                errors: final(self).errors,
                ..*old(self)
            }),
    {
        self.error_count = self.error_count + 1;
        let m = DisplayMessage {
            timestamp_ms: now_ms,
            destination: "BROKER ERROR".to_owned(),
            body,
            headers,
        };
        push_bounded(&mut self.errors, m, MAX_ERRORS);
    }
}


/// What `record_message` counts a message as, by its destination.
pub open spec fn is_plain_destination(d: Seq<char>) -> bool {
    d != "SENT"@ && d != "ERROR"@ && d != "BROKER ERROR"@ && d != "WARN"@ && d != "INFO"@
}

/// What recording message `body` with `headers` for `destination` at
/// `now_ms` does to session `o`, giving `n`: `SENT`, `ERROR`, `WARN` and
/// `INFO` advance their counters, `BROKER ERROR` goes to the error buffer
/// instead, and any other destination counts one more message for it. Only
/// the newest messages are kept.
pub open spec fn message_recorded(
    o: &AppState,
    n: &AppState,
    destination: Seq<char>,
    body: Seq<char>,
    headers: Seq<SpecTextHeader>,
    now_ms: i64,
) -> bool {
    let m = SpecMessage { timestamp_ms: now_ms, destination, body, headers };
    let e = SpecMessage { timestamp_ms: now_ms, destination: "BROKER ERROR"@, body, headers };
    if destination == "BROKER ERROR"@ {
        &&& n.error_count == o.error_count + 1
        &&& n.errors@.map_values(|x: DisplayMessage| x@) == ring_push(
            o.errors@.map_values(|x: DisplayMessage| x@),
            e,
            MAX_ERRORS as nat,
        )
        &&& n.messages == o.messages
        &&& n.subscriptions == o.subscriptions
        &&& n.sent_count == o.sent_count
        &&& n.warning_count == o.warning_count
        &&& n.info_count == o.info_count
    } else {
        &&& n.messages@.map_values(|x: DisplayMessage| x@) == ring_push(
            o.messages@.map_values(|x: DisplayMessage| x@),
            m,
            MAX_MESSAGES as nat,
        )
        &&& n.errors == o.errors
        &&& n.sent_count == o.sent_count + (if destination == "SENT"@ {
            1int
        } else {
            0
        })
        &&& n.error_count == o.error_count + (if destination == "ERROR"@ {
            1int
        } else {
            0
        })
        &&& n.warning_count == o.warning_count + (if destination == "WARN"@ {
            1int
        } else {
            0
        })
        &&& n.info_count == o.info_count + (if destination == "INFO"@ {
            1int
        } else {
            0
        })
        &&& stats_view(n.subscriptions@) == (if is_plain_destination(destination) {
            stats_count(stats_view(o.subscriptions@), destination)
        } else {
            stats_view(o.subscriptions@)
        })
    }
}

/// A broker error as kept for display.
pub open spec fn error_message(body: Seq<char>, headers: Seq<SpecTextHeader>, now_ms: i64) -> SpecMessage {
    SpecMessage { timestamp_ms: now_ms, destination: "BROKER ERROR"@, body, headers }
}

/// Whether the history position is inside the history.
pub open spec fn history_ok(s: &AppState) -> bool {
    s.history_index matches Some(i) ==> i < s.command_history@.len()
}

/// The length in bytes of text `t` encoded as UTF-8.
pub open spec fn byte_len(t: Seq<char>) -> nat {
    vstd::utf8::encode_utf8(t).len()
}

/// The history texts.
pub open spec fn history_view(h: Seq<String>) -> Seq<Seq<char>> {
    h.map_values(|x: String| x@)
}

/// The history after entering command `cmd`: its trimmed text is added,
/// unless it is empty or repeats the last entry.
pub open spec fn history_add(h: Seq<Seq<char>>, cmd: Seq<char>) -> Seq<Seq<char>> {
    let t = trim_ws(cmd);
    if t.len() > 0 && (h.len() == 0 || h.last() != t) {
        h.push(t)
    } else {
        h
    }
}

impl AppState {
    /// Records a message (or event) for `destination` received at `now_ms`.
    /// `SENT`, `ERROR`, `WARN` and `INFO` advance their counters, `BROKER
    /// ERROR` goes to the error buffer instead, and any other destination
    /// counts one more message for it. Only the newest messages are kept.
    pub fn record_message_at(
        &mut self,
        destination: &str,
        body: String,
        headers: Vec<(String, String)>,
        now_ms: i64,
    )
        requires
            old(self).room_to_count(destination@),
        ensures
            message_recorded(
                old(self),
                final(self),
                destination@,
                body@,
                text_headers(headers@),
                now_ms,
            ),
            *final(self) == (AppState {
                subscriptions: final(self).subscriptions,
                sent_count: final(self).sent_count,
                error_count: final(self).error_count,
                warning_count: final(self).warning_count,
                info_count: final(self).info_count,
                messages: final(self).messages,
                errors: final(self).errors,
                ..*old(self)
            }),
    {
        proof {
            reveal_strlit("SENT");
            reveal_strlit("ERROR");
            reveal_strlit("BROKER ERROR");
            reveal_strlit("WARN");
            reveal_strlit("INFO");
            assert("SENT"@.len() == 4);
            assert("ERROR"@.len() == 5);
            assert("BROKER ERROR"@.len() == 12);
            assert("WARN"@.len() == 4);
            assert("INFO"@.len() == 4);
            assert("SENT"@[0] != "WARN"@[0] && "SENT"@[0] != "INFO"@[0] && "WARN"@[0] != "INFO"@[0]);
        }
        if chars_equal(destination, "BROKER ERROR") {
            self.record_error_at(body, headers, now_ms);
            return;
        }
        if chars_equal(destination, "SENT") {
            self.sent_count = self.sent_count + 1;
        } else if chars_equal(destination, "ERROR") {
            self.error_count = self.error_count + 1;
        } else if chars_equal(destination, "WARN") {
            self.warning_count = self.warning_count + 1;
        } else if chars_equal(destination, "INFO") {
            self.info_count = self.info_count + 1;
        } else {
            let ghost st = stats_view(self.subscriptions@);
            proof {
                lemma_stats_index_from(st, destination@, 0);
            }
            match find_stats(&self.subscriptions, destination) {
                Some(i) => {
                    let (d, mut stats) = self.subscriptions.remove(i);
                    assert(stats.message_count < u64::MAX) by {
                        assert(old(self).subscriptions@[i as int].1 == stats);
                    }
                    stats.message_count = stats.message_count + 1;
                    self.subscriptions.insert(i, (d, stats));
                    assert(stats_view(self.subscriptions@) =~= st.update(
                        i as int,
                        (destination@, (st[i as int].1 + 1) as u64),
                    ));
                },
                None => {
                    self.subscriptions.push((destination.to_owned(), SubStats { message_count: 1 }));
                    assert(stats_view(self.subscriptions@) =~= st.push((destination@, 1u64)));
                },
            }
        }
        let m = DisplayMessage {
            timestamp_ms: now_ms,
            destination: destination.to_owned(),
            body,
            headers,
        };
        push_bounded(&mut self.messages, m, MAX_MESSAGES);
    }

    /// Messages received over all destinations.
    pub fn total_message_count(&self) -> (n: u64)
        requires
            stats_total(stats_view(self.subscriptions@)) <= u64::MAX,
        ensures
            n == stats_total(stats_view(self.subscriptions@)),
    {
        let ghost st = stats_view(self.subscriptions@);
        let mut total: u64 = 0;
        let mut i: usize = 0;
        while i < self.subscriptions.len()
            invariant
                i <= self.subscriptions@.len(),
                st == stats_view(self.subscriptions@),
                stats_total(st) <= u64::MAX,
                total == stats_total(st.subrange(0, i as int)),
            decreases self.subscriptions@.len() - i,
        {
            proof {
                let t = st.subrange(0, i + 1);
                assert(t.drop_last() =~= st.subrange(0, i as int));
                lemma_total_prefix(st, i + 1);
            }
            total = total + self.subscriptions[i].1.message_count;
            i += 1;
        }
        assert(st.subrange(0, st.len() as int) =~= st);
        total
    }

    /// Whether the message counts add up without overflowing, as the report
    /// and `total_message_count` need.
    pub fn total_fits(&self) -> (b: bool)
        ensures
            b == (stats_total(stats_view(self.subscriptions@)) <= u64::MAX),
    {
        let ghost st = stats_view(self.subscriptions@);
        let mut total: u64 = 0;
        let mut i: usize = 0;
        while i < self.subscriptions.len()
            invariant
                i <= self.subscriptions@.len(),
                st == stats_view(self.subscriptions@),
                total == stats_total(st.subrange(0, i as int)),
            decreases self.subscriptions@.len() - i,
        {
            proof {
                let t = st.subrange(0, i + 1);
                assert(t.drop_last() =~= st.subrange(0, i as int));
                lemma_total_prefix(st, i + 1);
            }
            let c = self.subscriptions[i].1.message_count;
            if c > u64::MAX - total {
                return false;
            }
            total = total + c;
            i += 1;
        }
        assert(st.subrange(0, st.len() as int) =~= st);
        true
    }

    /// Shows or hides headers.
    pub fn toggle_headers(&mut self)
        ensures
            *final(self) == (AppState { show_headers: !old(self).show_headers, ..*old(self) }),
    {
        self.show_headers = !self.show_headers;
    }

    /// Forgets the displayed messages and scrolls back to the top.
    pub fn clear_messages(&mut self)
        ensures
            final(self).messages@.len() == 0,
            *final(self) == (AppState {
                messages: final(self).messages,
                scroll_offset: 0,
                ..*old(self)
            }),
    {
        self.messages.clear();
        self.scroll_offset = 0;
    }

    /// Enters command `cmd` in the history (trimmed; not when empty or the
    /// same as the last one) and stops browsing.
    pub fn add_to_history(&mut self, cmd: &str)
        ensures
            history_view(final(self).command_history@) == history_add(
                history_view(old(self).command_history@),
                cmd@,
            ),
            final(self).history_index is None,
            final(self).saved_input@ == Seq::<char>::empty(),
            *final(self) == (AppState {
                command_history: final(self).command_history,
                history_index: None,
                saved_input: final(self).saved_input,
                ..*old(self)
            }),
    {
        let v = str_chars(cmd);
        let t = trim_chars(v.as_slice());
        let ghost h = history_view(self.command_history@);
        if t.len() > 0 {
            let text = crate::text::string_from_chars(t.as_slice());
            let n = self.command_history.len();
            let repeat = n > 0 && chars_equal(self.command_history[n - 1].as_str(), text.as_str());
            if !repeat {
                self.command_history.push(text);
                assert(history_view(self.command_history@) =~= h.push(t@));
            }
        }
        self.history_index = None;
        self.saved_input = String::new();
    }

    /// Shows the previous history entry: when not browsing yet, the newest
    /// one (keeping the input being typed); else the one before, if any.
    pub fn history_prev(&mut self)
        requires
            history_ok(old(self)),
        ensures
            history_ok(final(self)),
            browse_of(final(self)) == browse_prev(browse_of(old(self))),
            *final(self) == (AppState {
                history_index: final(self).history_index,
                input: final(self).input,
                saved_input: final(self).saved_input,
                cursor_pos: final(self).cursor_pos,
                ..*old(self)
            }),
            browse_of(final(self)) == browse_of(old(self)) ==> final(self).cursor_pos == old(
                self,
            ).cursor_pos,
            browse_of(final(self)) != browse_of(old(self)) ==> final(self).cursor_pos == byte_len(
                final(self).input@,
            ) as usize,
    {
        let n = self.command_history.len();
        if n == 0 {
            return;
        }
        let ghost b = browse_of(self);
        let idx = match self.history_index {
            None => {
                self.saved_input = self.input.clone();
                n - 1
            },
            Some(i) => {
                if i > 0 {
                    i - 1
                } else {
                    return;
                }
            },
        };
        self.history_index = Some(idx);
        self.input = self.command_history[idx].clone();
        self.cursor_pos = self.input.as_str().len();
        proof {
            if browse_of(self) == b {
                assert(self.history_index == old(self).history_index);
            }
        }
    }

    /// Shows the next history entry, or, past the newest, the input that was
    /// being typed when browsing began. Does nothing when not browsing.
    pub fn history_next(&mut self)
        requires
            history_ok(old(self)),
        ensures
            history_ok(final(self)),
            browse_of(final(self)) == browse_next(browse_of(old(self))),
            *final(self) == (AppState {
                history_index: final(self).history_index,
                input: final(self).input,
                cursor_pos: final(self).cursor_pos,
                ..*old(self)
            }),
            old(self).history_index is None ==> final(self).cursor_pos == old(self).cursor_pos,
            old(self).history_index is Some ==> final(self).cursor_pos == byte_len(
                final(self).input@,
            ) as usize,
    {
        match self.history_index {
            None => {},
            Some(idx) => {
                assert(idx < self.command_history@.len());
                if idx < self.command_history.len() - 1 {
                    self.history_index = Some(idx + 1);
                    self.input = self.command_history[idx + 1].clone();
                    self.cursor_pos = self.input.as_str().len();
                } else {
                    self.history_index = None;
                    self.input = self.saved_input.clone();
                    self.cursor_pos = self.input.as_str().len();
                }
            },
        }
    }
}

/// The history browsing state: the entries, the entry shown, the input and
/// the input saved when browsing began.
pub struct SpecBrowse {
    pub history: Seq<Seq<char>>,
    pub index: Option<nat>,
    pub input: Seq<char>,
    pub saved: Seq<char>,
}

/// The browsing state of a session.
pub open spec fn browse_of(s: &AppState) -> SpecBrowse {
    SpecBrowse {
        history: history_view(s.command_history@),
        index: match s.history_index {
            Some(i) => Some(i as nat),
            None => None,
        },
        input: s.input@,
        saved: s.saved_input@,
    }
}

/// One step back in the history.
pub open spec fn browse_prev(b: SpecBrowse) -> SpecBrowse {
    if b.history.len() == 0 {
        b
    } else {
        match b.index {
            None => SpecBrowse {
                history: b.history,
                index: Some((b.history.len() - 1) as nat),
                input: b.history.last(),
                saved: b.input,
            },
            Some(i) => if i > 0 {
                SpecBrowse {
                    history: b.history,
                    index: Some((i - 1) as nat),
                    input: b.history[i - 1],
                    saved: b.saved,
                }
            } else {
                b
            },
        }
    }
}

/// One step forward in the history.
pub open spec fn browse_next(b: SpecBrowse) -> SpecBrowse {
    match b.index {
        None => b,
        Some(i) => if i + 1 < b.history.len() {
            SpecBrowse {
                history: b.history,
                index: Some(i + 1),
                input: b.history[i + 1int],
                saved: b.saved,
            }
        } else {
            SpecBrowse { history: b.history, index: None, input: b.saved, saved: b.saved }
        },
    }
}

/// Stepping back from the input being typed and forward again brings that
/// input back and stops browsing.
pub proof fn history_back_and_forth_restores_input(b: SpecBrowse)
    requires
        b.index is None,
        b.history.len() > 0,
    ensures
        browse_next(browse_prev(b)).input == b.input,
        browse_next(browse_prev(b)).index is None,
{
}

/// Stepping back `k` entries from the newest one shown and then forward `k`
/// entries shows the newest entry again.
pub proof fn history_back_then_forward(b: SpecBrowse, k: nat)
    requires
        b.index == Some((b.history.len() - 1) as nat),
        b.input == b.history.last(),
        b.history.len() > k,
    ensures
        browse_steps_forward(browse_steps_back(b, k), k).index == b.index,
        browse_steps_forward(browse_steps_back(b, k), k).input == b.history.last(),
    decreases k,
{
    if k > 0 {
        history_back_then_forward_from(b, k, (b.history.len() - 1) as nat);
    }
}

proof fn history_back_then_forward_from(b: SpecBrowse, k: nat, i: nat)
    requires
        b.index == Some(i),
        i < b.history.len(),
        i >= k,
    ensures
        browse_steps_back(b, k).index == Some((i - k) as nat),
        browse_steps_back(b, k).history == b.history,
        browse_steps_back(b, k).saved == b.saved,
        k > 0 ==> browse_steps_back(b, k).input == b.history[i - k],
        browse_steps_forward(browse_steps_back(b, k), k).index == Some(i),
        k > 0 ==> browse_steps_forward(browse_steps_back(b, k), k).input == b.history[i as int],
        k == 0 ==> browse_steps_forward(browse_steps_back(b, k), k) == b,
    decreases k,
{
    if k > 0 {
        let p = browse_prev(b);
        history_back_then_forward_from(p, (k - 1) as nat, (i - 1) as nat);
        lemma_forward_steps(browse_steps_back(b, k), k);
    }
}

/// `k` steps back.
pub open spec fn browse_steps_back(b: SpecBrowse, k: nat) -> SpecBrowse
    decreases k,
{
    if k == 0 {
        b
    } else {
        browse_steps_back(browse_prev(b), (k - 1) as nat)
    }
}

/// `k` steps forward.
pub open spec fn browse_steps_forward(b: SpecBrowse, k: nat) -> SpecBrowse
    decreases k,
{
    if k == 0 {
        b
    } else {
        browse_steps_forward(browse_next(b), (k - 1) as nat)
    }
}

proof fn lemma_forward_steps(b: SpecBrowse, k: nat)
    requires
        b.index matches Some(j) && j + k < b.history.len(),
    ensures
        browse_steps_forward(b, k).index == Some((b.index->0 + k) as nat),
        k > 0 ==> browse_steps_forward(b, k).input == b.history[b.index->0 + k as int],
        browse_steps_forward(b, k).history == b.history,
    decreases k,
{
    if k > 0 {
        lemma_forward_steps(browse_next(b), (k - 1) as nat);
    }
}

proof fn lemma_total_prefix(st: Seq<(Seq<char>, u64)>, i: int)
    requires
        0 < i <= st.len(),
    ensures
        stats_total(st.subrange(0, i)) == stats_total(st.subrange(0, i - 1)) + st[i - 1].1,
        stats_total(st.subrange(0, i)) <= stats_total(st),
    decreases st.len() - i,
{
    let t = st.subrange(0, i);
    assert(t.drop_last() =~= st.subrange(0, i - 1));
    if i < st.len() {
        lemma_total_prefix(st, i + 1);
    } else {
        assert(t =~= st);
    }
}


// ---------------------------------------------------------------------------
// Durations and the session report
// ---------------------------------------------------------------------------

/// A clock field: two digits at least, zero-padded, with a minus sign for a
/// negative duration.
pub open spec fn clock_field(c: nat, negative: bool) -> Seq<char> {
    if negative && c > 0 {
        "-"@ + decimal_chars(c)
    } else if c < 10 {
        "0"@ + decimal_chars(c)
    } else {
        decimal_chars(c)
    }
}

/// Whole seconds from `start_ms` to `now_ms`, rounded toward zero, as a
/// magnitude and a sign.
pub open spec fn elapsed_secs(start_ms: i64, now_ms: i64) -> (nat, bool) {
    let d = now_ms - start_ms;
    if d < 0 {
        ((-d / 1000) as nat, true)
    } else {
        ((d / 1000) as nat, false)
    }
}

/// `HH:MM:SS` of the time from `start_ms` to `now_ms`.
pub open spec fn clock_text(start_ms: i64, now_ms: i64) -> Seq<char> {
    let (a, neg) = elapsed_secs(start_ms, now_ms);
    clock_field(a / 3600, neg) + ":"@ + clock_field((a % 3600) / 60, neg) + ":"@ + clock_field(
        a % 60,
        neg,
    )
}

/// Appends a clock field to `s`.
fn push_clock_field(s: &mut String, c: u64, negative: bool)
    ensures
        final(s)@ == old(s)@ + clock_field(c as nat, negative),
{
    if negative && c > 0 {
        push_str(s, "-");
    } else if c < 10 {
        push_str(s, "0");
    }
    push_decimal(s, c);
}

/// The magnitude and sign of the whole seconds between two instants.
fn elapsed(start_ms: i64, now_ms: i64) -> (r: (u64, bool))
    ensures
        (r.0 as nat, r.1) == elapsed_secs(start_ms, now_ms),
{
    let d: i128 = now_ms as i128 - start_ms as i128;
    if d < 0 {
        let m: i128 = -d;
        ((m / 1000) as u64, true)
    } else {
        ((d / 1000) as u64, false)
    }
}

impl AppState {
    /// How long the session has run at `now_ms`, as `HH:MM:SS`.
    pub fn session_duration_at(&self, now_ms: i64) -> (t: String)
        ensures
            t@ == clock_text(self.start_time_ms, now_ms),
    {
        let (a, neg) = elapsed(self.start_time_ms, now_ms);
        let mut t = String::new();
        push_clock_field(&mut t, a / 3600, neg);
        push_str(&mut t, ":");
        push_clock_field(&mut t, (a % 3600) / 60, neg);
        push_str(&mut t, ":");
        push_clock_field(&mut t, a % 60, neg);
        t
    }
}

/// The number of leading entries of `s`, from `i`, whose count is at least
/// `c`: where an entry with count `c` goes so that counts stay descending
/// and equal counts keep their order.
pub open spec fn first_below(s: Seq<(Seq<char>, u64)>, c: u64, i: int) -> int
    decreases s.len() - i,
{
    if i < 0 || i >= s.len() {
        s.len() as int
    } else if s[i].1 < c {
        i
    } else {
        first_below(s, c, i + 1)
    }
}

/// The destinations by descending message count; equal counts keep their
/// order (a stable sort).
pub open spec fn by_count_desc(s: Seq<(Seq<char>, u64)>) -> Seq<(Seq<char>, u64)>
    decreases s.len(),
{
    if s.len() == 0 {
        s
    } else {
        let r = by_count_desc(s.drop_last());
        r.insert(first_below(r, s.last().1, 0), s.last())
    }
}

proof fn lemma_first_below(s: Seq<(Seq<char>, u64)>, c: u64, i: int)
    requires
        0 <= i <= s.len(),
    ensures
        i <= first_below(s, c, i) <= s.len(),
    decreases s.len() - i,
{
    if i < s.len() && s[i].1 >= c {
        lemma_first_below(s, c, i + 1);
    }
}

/// Sorts destination statistics by descending count, stably.
fn sort_by_count(v: &Vec<(String, SubStats)>) -> (r: Vec<(String, u64)>)
    ensures
        r@.map_values(|x: (String, u64)| (x.0@, x.1)) == by_count_desc(stats_view(v@)),
{
    let ghost sv = stats_view(v@);
    let mut r: Vec<(String, u64)> = Vec::new();
    let mut i: usize = 0;
    assert(r@.map_values(|x: (String, u64)| (x.0@, x.1)) =~= by_count_desc(sv.subrange(0, 0)));
    while i < v.len()
        invariant
            i <= v@.len(),
            sv == stats_view(v@),
            r@.map_values(|x: (String, u64)| (x.0@, x.1)) == by_count_desc(sv.subrange(0, i as int)),
        decreases v@.len() - i,
    {
        let c = v[i].1.message_count;
        let ghost rv = r@.map_values(|x: (String, u64)| (x.0@, x.1));
        let mut k: usize = 0;
        while k < r.len() && r[k].1 >= c
            invariant
                k <= r@.len(),
                rv == r@.map_values(|x: (String, u64)| (x.0@, x.1)),
                first_below(rv, c, 0) == first_below(rv, c, k as int),
            decreases r@.len() - k,
        {
            k += 1;
        }
        assert(first_below(rv, c, 0) == k);
        let ghost before = r@;
        r.insert(k, (v[i].0.clone(), c));
        proof {
            let t = sv.subrange(0, i + 1);
            assert(t.drop_last() =~= sv.subrange(0, i as int));
            assert(t.last() == sv[i as int]);
            assert(r@.map_values(|x: (String, u64)| (x.0@, x.1)) =~= rv.insert(
                k as int,
                sv[i as int],
            ));
        }
        i += 1;
    }
    assert(sv.subrange(0, v@.len() as int) =~= sv);
    r
}

/// `n` copies of `c`.
pub open spec fn repeat_char(c: char, n: nat) -> Seq<char> {
    Seq::new(n, |i: int| c)
}

/// Appends `n` copies of `c` to `s`.
fn push_repeat(s: &mut String, c: char, n: usize)
    ensures
        final(s)@ == old(s)@ + repeat_char(c, n as nat),
{
    let mut i: usize = 0;
    while i < n
        invariant
            i <= n,
            s@ == old(s)@ + repeat_char(c, i as nat),
        decreases n - i,
    {
        string_push(s, c);
        assert(old(s)@ + repeat_char(c, (i + 1) as nat) =~= (old(s)@ + repeat_char(c, i as nat)).push(c));
        i += 1;
    }
}

/// `t` padded with spaces on the right to `w` characters.
pub open spec fn pad_right(t: Seq<char>, w: nat) -> Seq<char> {
    if t.len() >= w {
        t
    } else {
        t + repeat_char(' ', (w - t.len()) as nat)
    }
}

/// `t` padded with spaces on the left to `w` characters.
pub open spec fn pad_left(t: Seq<char>, w: nat) -> Seq<char> {
    if t.len() >= w {
        t
    } else {
        repeat_char(' ', (w - t.len()) as nat) + t
    }
}

/// The width of the destination column: the longest destination in bytes,
/// or 20 without any, at most 40.
pub open spec fn column_width(s: Seq<(Seq<char>, u64)>) -> nat {
    let m = if s.len() == 0 {
        20
    } else {
        max_byte_len(s)
    };
    if m <= 40 {
        m
    } else {
        40
    }
}

/// The longest destination of `s`, in bytes.
pub open spec fn max_byte_len(s: Seq<(Seq<char>, u64)>) -> nat
    decreases s.len(),
{
    if s.len() == 0 {
        0
    } else {
        let m = max_byte_len(s.drop_last());
        let l = byte_len(s.last().0) as usize as nat;
        if l >= m {
            l
        } else {
            m
        }
    }
}

/// A row of the subscription table.
pub open spec fn table_row(label: Seq<char>, count: nat, w: nat) -> Seq<char> {
    "    "@ + pad_right(label, w) + " "@ + pad_left(decimal_chars(count), 6)
}

/// A line of the message history: `  <time> [<destination>] <body>`, the
/// body cut to what is left of `max_width` bytes.
pub open spec fn history_line(time: Seq<char>, m: SpecMessage, max_width: nat) -> Seq<char> {
    let prefix = "  "@ + time + " ["@ + m.destination + "] "@;
    let plen = byte_len(prefix) as usize as nat;
    let room = if max_width >= plen {
        (max_width - plen) as nat
    } else {
        0
    };
    prefix + crate::cli::truncated(m.body, room)
}

/// The heavy rule of the report.
pub open spec fn heavy_rule() -> Seq<char> {
    repeat_char('═', 79)
}

/// The light rule of the report.
pub open spec fn light_rule() -> Seq<char> {
    repeat_char('─', 79)
}

/// The lines joined with line feeds.
pub open spec fn join_lines(lines: Seq<Seq<char>>) -> Seq<char>
    decreases lines.len(),
{
    if lines.len() == 0 {
        Seq::empty()
    } else if lines.len() == 1 {
        lines[0]
    } else {
        join_lines(lines.drop_last()) + "\n"@ + lines.last()
    }
}

/// The first lines of the report, up to the subscription table.
pub open spec fn report_head(
    host: Seq<char>,
    user: Seq<char>,
    started: Seq<char>,
    ended: Seq<char>,
    start_ms: i64,
    now_ms: i64,
) -> Seq<Seq<char>> {
    let (a, neg) = elapsed_secs(start_ms, now_ms);
    let mins = if neg && a / 60 > 0 {
        "-"@ + decimal_chars(a / 60)
    } else {
        decimal_chars(a / 60)
    };
    let secs = if neg && a % 60 > 0 {
        "-"@ + decimal_chars(a % 60)
    } else {
        decimal_chars(a % 60)
    };
    seq![
        heavy_rule(),
        "  iridium-stomp Session Report"@,
        heavy_rule(),
        "  Host:       "@ + host,
        "  User:       "@ + user,
        "  Started:    "@ + started,
        "  Ended:      "@ + ended,
        "  Duration:   "@ + mins + "m "@ + secs + "s"@,
        Seq::empty(),
        "  Subscriptions:"@,
    ]
}

/// The rows of the subscription table.
pub open spec fn table_rows(s: Seq<(Seq<char>, u64)>, w: nat) -> Seq<Seq<char>> {
    s.map_values(|x: (Seq<char>, u64)| table_row(crate::cli::truncated(x.0, w), x.1 as nat, w))
}

/// The message history section.
pub open spec fn history_section(
    times: Seq<Seq<char>>,
    msgs: Seq<SpecMessage>,
    max_width: nat,
) -> Seq<Seq<char>> {
    seq![Seq::empty(), light_rule(), "  Message History"@, light_rule()] + Seq::new(
        msgs.len(),
        |i: int| history_line(times[i], msgs[i], max_width),
    )
}


/// The whole report as lines: the head, the subscription table sorted by
/// message count, the total, the heartbeat count, the message history when
/// asked for and there is any, and a closing rule. `times` are the arrival
/// times of the messages as shown.
pub open spec fn report_lines(
    s: &AppState,
    include_messages: bool,
    max_width: nat,
    started: Seq<char>,
    ended: Seq<char>,
    now_ms: i64,
    times: Seq<Seq<char>>,
) -> Seq<Seq<char>> {
    let sorted = by_count_desc(stats_view(s.subscriptions@));
    let w = column_width(sorted);
    let msgs = s.messages@.map_values(|x: DisplayMessage| x@);
    report_head(s.host@, s.user@, started, ended, s.start_time_ms, now_ms) + table_rows(sorted, w)
        + seq![
        "    "@ + repeat_char('─', w + 7),
        table_row("Total"@, stats_total(stats_view(s.subscriptions@)), w),
        Seq::empty(),
        "  Heartbeats received: "@ + decimal_chars(s.heartbeat_count as nat),
    ] + (if include_messages && msgs.len() > 0 {
        history_section(times, msgs, max_width)
    } else {
        Seq::empty()
    }) + seq![heavy_rule()]
}

/// Appends `t` padded with spaces on the right to `w` characters.
fn push_padded_right(s: &mut String, t: &str, w: usize)
    ensures
        final(s)@ == old(s)@ + pad_right(t@, w as nat),
{
    push_str(s, t);
    let n = str_chars(t).len();
    if n < w {
        push_repeat(s, ' ', w - n);
    }
}

/// Appends the decimal `n` padded with spaces on the left to `w`
/// characters.
fn push_padded_left_decimal(s: &mut String, n: u64, w: usize)
    ensures
        final(s)@ == old(s)@ + pad_left(decimal_chars(n as nat), w as nat),
{
    let mut d = String::new();
    push_decimal(&mut d, n);
    let k = str_chars(d.as_str()).len();
    if k < w {
        push_repeat(s, ' ', w - k);
    }
    push_str(s, d.as_str());
}

/// A row of the subscription table.
fn table_row_text(label: &str, count: u64, w: usize) -> (r: String)
    ensures
        r@ == table_row(label@, count as nat, w as nat),
{
    let mut r = String::new();
    push_str(&mut r, "    ");
    push_padded_right(&mut r, label, w);
    push_str(&mut r, " ");
    push_padded_left_decimal(&mut r, count, 6);
    r
}

/// A line made of a literal and `t`.
fn line2(a: &str, t: &str) -> (r: String)
    ensures
        r@ == a@ + t@,
{
    let mut r = String::new();
    push_str(&mut r, a);
    push_str(&mut r, t);
    r
}

/// The lines joined with line feeds.
fn join_with_newlines(lines: &Vec<String>) -> (r: String)
    ensures
        r@ == join_lines(lines@.map_values(|x: String| x@)),
{
    let ghost lv = lines@.map_values(|x: String| x@);
    let mut r = String::new();
    let mut i: usize = 0;
    while i < lines.len()
        invariant
            i <= lines@.len(),
            lv == lines@.map_values(|x: String| x@),
            r@ == join_lines(lv.subrange(0, i as int)),
        decreases lines@.len() - i,
    {
        proof {
            let t = lv.subrange(0, i + 1);
            assert(t.drop_last() =~= lv.subrange(0, i as int));
            assert(t.last() == lv[i as int]);
        }
        if i > 0 {
            push_str(&mut r, "\n");
        } else {
            assert(lv.subrange(0, 0) =~= Seq::<Seq<char>>::empty());
        }
        push_str(&mut r, lines[i].as_str());
        i += 1;
    }
    assert(lv.subrange(0, lines@.len() as int) =~= lv);
    r
}

/// Appends `line` to `lines`.
fn add_line(lines: &mut Vec<String>, line: String)
    ensures
        final(lines)@.map_values(|x: String| x@) == old(lines)@.map_values(|x: String| x@).push(
            line@,
        ),
{
    lines.push(line);
    assert(lines@.map_values(|x: String| x@) =~= old(lines)@.map_values(|x: String| x@).push(
        line@,
    ));
}

/// The heavy rule.
fn heavy_rule_text() -> (r: String)
    ensures
        r@ == heavy_rule(),
{
    let mut r = String::new();
    push_repeat(&mut r, '═', 79);
    r
}

/// The light rule.
fn light_rule_text() -> (r: String)
    ensures
        r@ == light_rule(),
{
    let mut r = String::new();
    push_repeat(&mut r, '─', 79);
    r
}

impl AppState {
    /// The session report, given how the start and end times read
    /// (`started`, `ended`), the end instant `now_ms`, and how each message's
    /// arrival time reads (`times`).
    pub fn summary_report(
        &self,
        include_messages: bool,
        max_width: usize,
        started: &str,
        ended: &str,
        now_ms: i64,
        times: &Vec<String>,
    ) -> (r: String)
        requires
            times@.len() == self.messages@.len(),
            stats_total(stats_view(self.subscriptions@)) <= u64::MAX,
        ensures
            r@ == join_lines(
                report_lines(
                    self,
                    include_messages,
                    max_width as nat,
                    started@,
                    ended@,
                    now_ms,
                    times@.map_values(|x: String| x@),
                ),
            ),
    {
        let ghost tv = times@.map_values(|x: String| x@);
        let ghost msgs = self.messages@.map_values(|x: DisplayMessage| x@);
        let mut lines: Vec<String> = Vec::new();
        // Head.
        let (a, neg) = elapsed(self.start_time_ms, now_ms);
        add_line(&mut lines, heavy_rule_text());
        add_line(&mut lines, "  iridium-stomp Session Report".to_owned());
        add_line(&mut lines, heavy_rule_text());
        add_line(&mut lines, line2("  Host:       ", self.host.as_str()));
        add_line(&mut lines, line2("  User:       ", self.user.as_str()));
        add_line(&mut lines, line2("  Started:    ", started));
        add_line(&mut lines, line2("  Ended:      ", ended));
        let mut d = String::new();
        push_str(&mut d, "  Duration:   ");
        if neg && a / 60 > 0 {
            push_str(&mut d, "-");
        }
        push_decimal(&mut d, a / 60);
        push_str(&mut d, "m ");
        if neg && a % 60 > 0 {
            push_str(&mut d, "-");
        }
        push_decimal(&mut d, a % 60);
        push_str(&mut d, "s");
        proof {
            let mins = if neg && a / 60 > 0 {
                "-"@ + decimal_chars((a / 60) as nat)
            } else {
                decimal_chars((a / 60) as nat)
            };
            let secs = if neg && a % 60 > 0 {
                "-"@ + decimal_chars((a % 60) as nat)
            } else {
                decimal_chars((a % 60) as nat)
            };
            assert(d@ =~= "  Duration:   "@ + mins + "m "@ + secs + "s"@);
        }
        add_line(&mut lines, d);
        add_line(&mut lines, String::new());
        add_line(&mut lines, "  Subscriptions:".to_owned());
        let ghost head = report_head(
            self.host@,
            self.user@,
            started@,
            ended@,
            self.start_time_ms,
            now_ms,
        );
        assert(lines@.map_values(|x: String| x@) =~= head);
        // The table.
        let sorted = sort_by_count(&self.subscriptions);
        let ghost sv = sorted@.map_values(|x: (String, u64)| (x.0@, x.1));
        let mut m: usize = 0;
        let mut j: usize = 0;
        while j < sorted.len()
            invariant
                j <= sorted@.len(),
                sv == sorted@.map_values(|x: (String, u64)| (x.0@, x.1)),
                m as nat == max_byte_len(sv.subrange(0, j as int)),
            decreases sorted@.len() - j,
        {
            proof {
                let t = sv.subrange(0, j + 1);
                assert(t.drop_last() =~= sv.subrange(0, j as int));
                assert(t.last() == sv[j as int]);
            }
            let l = sorted[j].0.as_str().len();
            if l >= m {
                m = l;
            }
            j += 1;
        }
        assert(sv.subrange(0, sv.len() as int) =~= sv);
        let w: usize = if sorted.len() == 0 {
            20
        } else if m <= 40 {
            m
        } else {
            40
        };
        assert(w as nat == column_width(sv));
        let ghost rows = table_rows(sv, w as nat);
        let mut k: usize = 0;
        while k < sorted.len()
            invariant
                k <= sorted@.len(),
                sv == sorted@.map_values(|x: (String, u64)| (x.0@, x.1)),
                rows == table_rows(sv, w as nat),
                lines@.map_values(|x: String| x@) == head + rows.subrange(0, k as int),
            decreases sorted@.len() - k,
        {
            let shown = crate::cli::truncate_str(sorted[k].0.as_str(), w);
            let row = table_row_text(shown.as_str(), sorted[k].1, w);
            let ghost before = lines@.map_values(|x: String| x@);
            add_line(&mut lines, row);
            assert(rows.subrange(0, k + 1) =~= rows.subrange(0, k as int).push(rows[k as int]));
            k += 1;
        }
        assert(rows.subrange(0, sorted@.len() as int) =~= rows);
        let mut sep = String::new();
        push_str(&mut sep, "    ");
        push_repeat(&mut sep, '─', w + 7);
        add_line(&mut lines, sep);
        let total = self.total_message_count();
        add_line(&mut lines, table_row_text("Total", total, w));
        add_line(&mut lines, String::new());
        let mut hb = String::new();
        push_str(&mut hb, "  Heartbeats received: ");
        push_decimal(&mut hb, self.heartbeat_count);
        add_line(&mut lines, hb);
        let ghost mid = head + rows + seq![
            "    "@ + repeat_char('─', (w + 7) as nat),
            table_row("Total"@, stats_total(stats_view(self.subscriptions@)), w as nat),
            Seq::empty(),
            "  Heartbeats received: "@ + decimal_chars(self.heartbeat_count as nat),
        ];
        assert(lines@.map_values(|x: String| x@) =~= mid);
        // The history.
        if include_messages && self.messages.len() > 0 {
            add_line(&mut lines, String::new());
            add_line(&mut lines, light_rule_text());
            add_line(&mut lines, "  Message History".to_owned());
            add_line(&mut lines, light_rule_text());
            let ghost hist = history_section(tv, msgs, max_width as nat);
            assert(lines@.map_values(|x: String| x@) =~= mid + hist.subrange(0, 4));
            let mut i: usize = 0;
            while i < self.messages.len()
                invariant
                    i <= self.messages@.len(),
                    times@.len() == self.messages@.len(),
                    tv == times@.map_values(|x: String| x@),
                    msgs == self.messages@.map_values(|x: DisplayMessage| x@),
                    hist == history_section(tv, msgs, max_width as nat),
                    lines@.map_values(|x: String| x@) == mid + hist.subrange(0, 4 + i),
                decreases self.messages@.len() - i,
            {
                let msg = &self.messages[i];
                let mut prefix = String::new();
                push_str(&mut prefix, "  ");
                push_str(&mut prefix, times[i].as_str());
                push_str(&mut prefix, " [");
                push_str(&mut prefix, msg.destination.as_str());
                push_str(&mut prefix, "] ");
                let room = max_width.saturating_sub(prefix.as_str().len());
                let body = crate::cli::truncate_str(msg.body.as_str(), room);
                push_str(&mut prefix, body.as_str());
                assert(prefix@ == history_line(tv[i as int], msgs[i as int], max_width as nat));
                add_line(&mut lines, prefix);
                assert(hist.subrange(0, 4 + i + 1) =~= hist.subrange(0, 4 + i).push(hist[4 + i]));
                i += 1;
            }
            assert(hist.subrange(0, 4 + self.messages@.len() as int) =~= hist);
        }
        add_line(&mut lines, heavy_rule_text());
        proof {
            let expected = report_lines(
                self,
                include_messages,
                max_width as nat,
                started@,
                ended@,
                now_ms,
                tv,
            );
            assert(by_count_desc(stats_view(self.subscriptions@)) == sv);
            if include_messages && msgs.len() > 0 {
                assert(lines@.map_values(|x: String| x@) =~= mid + history_section(
                    tv,
                    msgs,
                    max_width as nat,
                ) + seq![heavy_rule()]);
            } else {
                assert(lines@.map_values(|x: String| x@) =~= mid + Seq::<Seq<char>>::empty() + seq![
                    heavy_rule(),
                ]);
            }
            assert(lines@.map_values(|x: String| x@) =~= expected);
        }
        join_with_newlines(&lines)
    }
}


#[verifier::external_type_specification]
#[verifier::external_body]
pub struct ExSystemTime(std::time::SystemTime);

/// The system clock's reading.
///
/// Trusted: `SystemTime::now`. Nothing is stated of the value: it is the
/// time.
#[verifier::external_body]
fn system_now() -> std::time::SystemTime {
    std::time::SystemTime::now()
}

/// How far `t` lies from the Unix epoch: `Ok` with the distance when it is
/// not before it, `Err` with the distance back when it is.
///
/// Trusted: `SystemTime::duration_since(UNIX_EPOCH)`, its error converted
/// to the distance it carries (`SystemTimeError::duration`). Nothing is
/// stated of the value: it depends on the clock.
#[verifier::external_body]
fn since_epoch(t: &std::time::SystemTime) -> Result<Duration, Duration> {
    match t.duration_since(std::time::UNIX_EPOCH) {
        Ok(d) => Ok(d),
        Err(e) => Err(e.duration()),
    }
}

/// The current time, in milliseconds since the Unix epoch, held to the
/// range of `i64`. A clock set before the epoch gives a negative time (whole
/// milliseconds, rounded toward the epoch), not a failure.
pub(crate) fn local_now_ms() -> i64 {
    let t = system_now();
    match since_epoch(&t) {
        Ok(d) => {
            let m = duration_as_millis(&d);
            if m > i64::MAX as u128 {
                i64::MAX
            } else {
                m as i64
            }
        },
        Err(d) => {
            let m = duration_as_millis(&d);
            if m > i64::MAX as u128 {
                -i64::MAX
            } else {
                -(m as i64)
            }
        },
    }
}

/// The strftime patterns the session report writes instants with: date and
/// time of day, or time of day alone.
pub open spec fn report_time_pattern(p: Seq<char>) -> bool {
    p == "%Y-%m-%d %H:%M:%S"@ || p == "%H:%M:%S"@
}

/// How instant `ms` reads in the machine's time zone, formatted with
/// `pattern`, or `None` when chrono cannot place the instant in that time
/// zone.
///
/// Trusted: `TimeZone::timestamp_millis_opt` on `Local` (its single
/// result, if any), formatted with `DateTime::format` and `pattern`. The
/// `requires` admits only the report's two patterns, which chrono accepts,
/// so formatting cannot fail. The text depends on the time zone, so
/// nothing is stated of it.
#[verifier::external_body]
fn local_time_text(ms: i64, pattern: &str) -> Option<String>
    requires
        report_time_pattern(pattern@),
{
    match chrono::TimeZone::timestamp_millis_opt(&chrono::Local, ms).single() {
        Some(t) => Some(t.format(pattern).to_string()),
        None => None,
    }
}

/// How instant `ms` reads in the machine's time zone with `pattern`; an
/// instant that cannot be placed reads as nothing.
pub(crate) fn format_local_ms(ms: i64, pattern: &str) -> String
    requires
        report_time_pattern(pattern@),
{
    match local_time_text(ms, pattern) {
        Some(t) => t,
        None => String::new(),
    }
}

impl AppState {
    /// A session with `host`, `user` and heartbeat interval, starting now.
    pub fn new(host: String, user: String, heartbeat_interval_ms: u32) -> (s: AppState)
        ensures
            s.host == host,
            s.user == user,
            s.heartbeat_interval_ms == heartbeat_interval_ms,
            s.subscriptions@.len() == 0,
            s.heartbeat_count == 0,
            s.last_heartbeat_ms is None,
            s.sent_count == 0 && s.error_count == 0 && s.warning_count == 0 && s.info_count == 0,
            s.messages@.len() == 0 && s.errors@.len() == 0,
            s.command_history@.len() == 0,
            s.history_index is None,
    {
        AppState::new_at(host, user, heartbeat_interval_ms, local_now_ms())
    }

    /// Records a message (or event) for `destination`, received now; see
    /// `record_message_at`.
    pub fn record_message(&mut self, destination: &str, body: String, headers: Vec<(String, String)>)
        requires
            old(self).room_to_count(destination@),
        ensures
            exists|now: i64|
                #[trigger] message_recorded(
                    old(self),
                    final(self),
                    destination@,
                    body@,
                    text_headers(headers@),
                    now,
                ),
            *final(self) == (AppState {
                subscriptions: final(self).subscriptions,
                sent_count: final(self).sent_count,
                error_count: final(self).error_count,
                warning_count: final(self).warning_count,
                info_count: final(self).info_count,
                messages: final(self).messages,
                errors: final(self).errors,
                ..*old(self)
            }),
    {
        let now = local_now_ms();
        self.record_message_at(destination, body, headers, now);
    }

    /// Records a broker error received now; see `record_error_at`.
    pub fn record_error(&mut self, body: String, headers: Vec<(String, String)>)
        requires
            old(self).error_count < u64::MAX,
        ensures
            final(self).error_count == old(self).error_count + 1,
            *final(self) == (AppState {
                error_count: final(self).error_count,
                errors: final(self).errors,
                ..*old(self)
            }),
            exists|now: i64|
                final(self).errors@.map_values(|x: DisplayMessage| x@) == ring_push(
                    old(self).errors@.map_values(|x: DisplayMessage| x@),
                    #[trigger] error_message(body@, text_headers(headers@), now),
                    MAX_ERRORS as nat,
                ),
    {
        let now = local_now_ms();
        self.record_error_at(body, headers, now);
        assert(error_message(body@, text_headers(headers@), now) == SpecMessage {
            timestamp_ms: now,
            destination: "BROKER ERROR"@,
            body: body@,
            headers: text_headers(headers@),
        });
    }

    /// How long the session has run, as `HH:MM:SS`.
    pub fn session_duration(&self) -> (t: String)
        ensures
            exists|now: i64| t@ == #[trigger] clock_text(self.start_time_ms, now),
    {
        let now = local_now_ms();
        self.session_duration_at(now)
    }

    /// The session report, with the message history when
    /// `include_messages`, message lines cut to `max_width` bytes; times
    /// read in the machine's time zone.
    pub fn generate_summary_with_options(&self, include_messages: bool, max_width: usize) -> (r:
        String)
        requires
            stats_total(stats_view(self.subscriptions@)) <= u64::MAX,
        ensures
            exists|started: Seq<char>, ended: Seq<char>, now: i64, times: Seq<Seq<char>>|
                times.len() == self.messages@.len() && r@ == #[trigger] join_lines(
                    report_lines(self, include_messages, max_width as nat, started, ended, now, times),
                ),
    {
        let now = local_now_ms();
        let started = format_local_ms(self.start_time_ms, "%Y-%m-%d %H:%M:%S");
        let ended = format_local_ms(now, "%Y-%m-%d %H:%M:%S");
        let mut times: Vec<String> = Vec::new();
        let mut i: usize = 0;
        while i < self.messages.len()
            invariant
                i <= self.messages@.len(),
                times@.len() == i,
            decreases self.messages@.len() - i,
        {
            times.push(format_local_ms(self.messages[i].timestamp_ms, "%H:%M:%S"));
            i += 1;
        }
        let r = self.summary_report(include_messages, max_width, started.as_str(), ended.as_str(), now, &times);
        assert(times@.map_values(|x: String| x@).len() == self.messages@.len());
        r
    }

    /// The session report without the message history, for 80 columns.
    pub fn generate_summary(&self) -> (r: String)
        requires
            stats_total(stats_view(self.subscriptions@)) <= u64::MAX,
        ensures
            exists|started: Seq<char>, ended: Seq<char>, now: i64, times: Seq<Seq<char>>|
                times.len() == self.messages@.len() && r@ == #[trigger] join_lines(
                    report_lines(self, false, 80, started, ended, now, times),
                ),
    {
        self.generate_summary_with_options(false, 80)
    }
}

} // verus!
