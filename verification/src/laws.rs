//! Properties of the connection's bookkeeping that hold across operations.
use vstd::prelude::*;
use crate::backlog::{
    SpecBacklog, backlog_close, backlog_park, backlog_take, distinct_ids, find_parked,
    find_parked_from, keeps_parked, lemma_find_parked_from, limit_of, parked_of,
};
use crate::dispatch::{
    SpecConnState, SpecDelivery, SpecParkOutcome, about_abandoned, abandon_notice, bump_count,
    error_count, inbound_plan, inbound_state, lemma_bump_count, park_outcome, park_state,
    reconnect_state, settle_state,
};
use crate::session::{ack_frame_spec, spec_frame};
use crate::error_tracking::error_destination;
use crate::frame::SpecFrame;
use crate::registry::{
    SpecEntry, SpecPending, SpecRegistry, ack_of_id, destination_of_id, distinct_destinations,
    distinct_queues, entry_index, entry_index_from, find_group, find_group_from, find_queue,
    find_queue_from, group_with_id, group_with_id_from, is_pending, lemma_entry_index_from,
    lemma_find_group_from, lemma_find_queue_from, lemma_group_with_id_from,
    lemma_message_index_from, message_index, pending_ids, pending_settle, registry_add,
    registry_unsubscribe, remove_first_entry, settled_queue, named_index_from, names_message,
    settle_key, wire_ack_id,
};
use crate::frame::lookup_header;

verus! {

// ---------------------------------------------------------------------------
// Characterising the first-match searches
// ---------------------------------------------------------------------------

proof fn lemma_entry_index_is(es: Seq<SpecEntry>, id: Seq<char>, i: int, k: int)
    requires
        0 <= i <= k < es.len(),
        es[k].id == id,
        forall|m: int| i <= m < k ==> es[m].id != id,
    ensures
        entry_index_from(es, id, i) == Some(k),
    decreases k - i,
{
    if i < k {
        lemma_entry_index_is(es, id, i + 1, k);
    }
}

proof fn lemma_group_with_id_is(r: SpecRegistry, id: Seq<char>, i: int, k: int)
    requires
        0 <= i <= k < r.len(),
        entry_index(r[k].1, id) is Some,
        forall|m: int| i <= m < k ==> entry_index(r[m].1, id) is None,
    ensures
        group_with_id_from(r, id, i) == Some(k),
    decreases k - i,
{
    if i < k {
        lemma_group_with_id_is(r, id, i + 1, k);
    }
}

proof fn lemma_no_group_with_id(r: SpecRegistry, id: Seq<char>, i: int)
    requires
        0 <= i,
        forall|m: int| i <= m < r.len() ==> entry_index(r[m].1, id) is None,
    ensures
        group_with_id_from(r, id, i) is None,
    decreases r.len() - i,
{
    if i < r.len() {
        lemma_no_group_with_id(r, id, i + 1);
    }
}

proof fn lemma_queue_is(p: SpecPending, s: Seq<char>, i: int, k: int)
    requires
        0 <= i <= k < p.len(),
        p[k].0 == s,
        forall|m: int| i <= m < k ==> p[m].0 != s,
    ensures
        find_queue_from(p, s, i) == Some(k),
    decreases k - i,
{
    if i < k {
        lemma_queue_is(p, s, i + 1, k);
    }
}

proof fn lemma_no_queue(p: SpecPending, s: Seq<char>, i: int)
    requires
        0 <= i,
        forall|m: int| i <= m < p.len() ==> p[m].0 != s,
    ensures
        find_queue_from(p, s, i) is None,
    decreases p.len() - i,
{
    if i < p.len() {
        lemma_no_queue(p, s, i + 1);
    }
}

// ---------------------------------------------------------------------------
// Subscriptions
// ---------------------------------------------------------------------------

/// A subscription just added under a new id is found again by that id: at
/// the destination it was made for, with the mode it was made with.
pub proof fn added_subscription_is_found(r: SpecRegistry, d: Seq<char>, e: SpecEntry)
    requires
        distinct_destinations(r),
        group_with_id(r, e.id) is None,
    ensures
        destination_of_id(registry_add(r, d, e), e.id) == Some(d),
        ack_of_id(registry_add(r, d, e), e.id) == Some(e.ack),
{
    let id = e.id;
    let r2 = registry_add(r, d, e);
    lemma_group_with_id_from(r, id, 0);
    lemma_find_group_from(r, d, 0);
    match find_group(r, d) {
        Some(gi) => {
            let es = r[gi].1;
            lemma_entry_index_from(es, id, 0);
            assert(es.push(e)[es.len() as int] == e);
            lemma_entry_index_is(es.push(e), id, 0, es.len() as int);
            assert forall|m: int| 0 <= m < gi implies entry_index(#[trigger] r2[m].1, id) is None by {
                assert(r2[m] == r[m]);
            }
            lemma_group_with_id_is(r2, id, 0, gi);
        },
        None => {
            let k = r.len() as int;
            assert(r2[k].1 == seq![e]);
            lemma_entry_index_is(seq![e], id, 0, 0);
            assert forall|m: int| 0 <= m < k implies entry_index(#[trigger] r2[m].1, id) is None by {
                assert(r2[m] == r[m]);
            }
            lemma_group_with_id_is(r2, id, 0, k);
        },
    }
}

proof fn lemma_group_with_id_push(p: SpecRegistry, g: (Seq<char>, Seq<SpecEntry>), y: Seq<char>)
    ensures
        group_with_id(p.push(g), y) == match group_with_id(p, y) {
            Some(i) => Some(i),
            None => if entry_index(g.1, y) is Some {
                Some(p.len() as int)
            } else {
                None
            },
        },
{
    let q = p.push(g);
    lemma_group_with_id_from(p, y, 0);
    match group_with_id(p, y) {
        Some(i) => {
            assert forall|m: int| 0 <= m < i implies entry_index(#[trigger] q[m].1, y) is None by {
                assert(q[m] == p[m]);
            }
            assert(q[i] == p[i]);
            lemma_group_with_id_is(q, y, 0, i);
        },
        None => {
            assert forall|m: int| 0 <= m < p.len() implies entry_index(#[trigger] q[m].1, y) is None by {
                assert(q[m] == p[m]);
            }
            assert(q[p.len() as int] == g);
            if entry_index(g.1, y) is Some {
                lemma_group_with_id_is(q, y, 0, p.len() as int);
            } else {
                lemma_no_group_with_id(q, y, 0);
            }
        },
    }
}

/// Removing the first entry with id `x` keeps the first entry of every other
/// id `y`: it is found exactly when it was, with the same value.
proof fn lemma_remove_keeps_other(es: Seq<SpecEntry>, x: Seq<char>, y: Seq<char>)
    requires
        x != y,
    ensures
        (entry_index(remove_first_entry(es, x), y) is Some) == (entry_index(es, y) is Some),
        entry_index(es, y) matches Some(k) ==> remove_first_entry(es, x)[entry_index(
            remove_first_entry(es, x),
            y,
        )->0] == es[k],
        entry_index(es, y) is Some ==> remove_first_entry(es, x).len() > 0,
{
    let out = remove_first_entry(es, x);
    lemma_entry_index_from(es, x, 0);
    lemma_entry_index_from(es, y, 0);
    match entry_index(es, x) {
        None => {},
        Some(j) => {
            match entry_index(es, y) {
                Some(k) => {
                    assert(k != j);
                    if k < j {
                        assert forall|m: int| 0 <= m < k implies out[m].id != y by {
                            assert(out[m] == es[m]);
                        }
                        assert(out[k] == es[k]);
                        lemma_entry_index_is(out, y, 0, k);
                    } else {
                        assert forall|m: int| 0 <= m < k - 1 implies out[m].id != y by {
                            if m < j {
                                assert(out[m] == es[m]);
                            } else {
                                assert(out[m] == es[m + 1]);
                            }
                        }
                        assert(out[k - 1] == es[k]);
                        lemma_entry_index_is(out, y, 0, k - 1);
                    }
                },
                None => {
                    assert forall|m: int| 0 <= m < out.len() implies out[m].id != y by {
                        if m < j {
                            assert(out[m] == es[m]);
                        } else {
                            assert(out[m] == es[m + 1]);
                        }
                    }
                    lemma_entry_index_from(out, y, 0);
                },
            }
        },
    }
}

/// Unsubscribing id `x` leaves every other subscription as it was: for
/// every other id `y`, the destination it is found under and its ack mode
/// are the same after the unsubscribe as before. So the other subscriptions
/// of the same destination go on receiving messages and are made again
/// after a reconnect.
pub proof fn unsubscribing_leaves_the_others(r: SpecRegistry, x: Seq<char>, y: Seq<char>)
    requires
        x != y,
    ensures
        destination_of_id(registry_unsubscribe(r, x), y) == destination_of_id(r, y),
        ack_of_id(registry_unsubscribe(r, x), y) == ack_of_id(r, y),
    decreases r.len(),
{
    if r.len() > 0 {
        let p = r.drop_last();
        let g = r.last();
        assert(r =~= p.push(g));
        unsubscribing_leaves_the_others(p, x, y);
        let rest = registry_unsubscribe(p, x);
        let es = remove_first_entry(g.1, x);
        let u = registry_unsubscribe(r, x);
        lemma_remove_keeps_other(g.1, x, y);
        lemma_group_with_id_push(p, g, y);
        lemma_group_with_id_push(rest, (g.0, es), y);
        lemma_group_with_id_from(p, y, 0);
        lemma_group_with_id_from(rest, y, 0);
        if es.len() == 0 {
            assert(u == rest);
        } else {
            assert(u == rest.push((g.0, es)));
        }
        match group_with_id(p, y) {
            Some(i) => {
                let i2 = group_with_id(rest, y)->0;
                assert(u[i2] == rest[i2]);
                assert(r[i] == p[i]);
            },
            None => {
                if entry_index(g.1, y) is Some {
                    assert(u[rest.len() as int] == (g.0, es));
                    assert(r[p.len() as int] == g);
                }
            },
        }
    }
}

/// No group holds two subscriptions with id `id`.
pub open spec fn id_at_most_once(r: SpecRegistry, id: Seq<char>) -> bool {
    forall|i: int, a: int, b: int|
        0 <= i < r.len() && 0 <= a < b < r[i].1.len() ==> !(r[i].1[a].id == id && r[i].1[b].id
            == id)
}

proof fn lemma_removed_entry_gone(es: Seq<SpecEntry>, id: Seq<char>)
    requires
        forall|a: int, b: int| 0 <= a < b < es.len() ==> !(es[a].id == id && es[b].id == id),
    ensures
        entry_index(remove_first_entry(es, id), id) is None,
{
    lemma_entry_index_from(es, id, 0);
    let out = remove_first_entry(es, id);
    assert forall|k: int| 0 <= k < out.len() implies out[k].id != id by {
        match entry_index(es, id) {
            Some(j) => {
                if k < j {
                    assert(out[k] == es[k]);
                } else {
                    assert(out[k] == es[k + 1]);
                }
            },
            None => {},
        }
    }
    lemma_entry_index_from(out, id, 0);
}

/// After unsubscribing an id that no group holds twice, no subscription
/// with that id is left.
pub proof fn unsubscribed_id_is_gone(r: SpecRegistry, id: Seq<char>)
    requires
        id_at_most_once(r, id),
    ensures
        group_with_id(registry_unsubscribe(r, id), id) is None,
    decreases r.len(),
{
    let u = registry_unsubscribe(r, id);
    if r.len() > 0 {
        let p = r.drop_last();
        assert(id_at_most_once(p, id)) by {
            assert forall|i: int, a: int, b: int|
                0 <= i < p.len() && 0 <= a < b < p[i].1.len() implies !(p[i].1[a].id == id
                && p[i].1[b].id == id) by {
                assert(p[i] == r[i]);
            }
        }
        unsubscribed_id_is_gone(p, id);
        let rest = registry_unsubscribe(p, id);
        lemma_group_with_id_from(rest, id, 0);
        let last = r[r.len() - 1];
        assert(last == r.last());
        lemma_removed_entry_gone(last.1, id);
        assert forall|m: int| 0 <= m < u.len() implies entry_index(#[trigger] u[m].1, id) is None by {
            if m < rest.len() {
                assert(u[m] == rest[m]);
            }
        }
    }
    lemma_no_group_with_id(u, id, 0);
}

// ---------------------------------------------------------------------------
// Acknowledgements
// ---------------------------------------------------------------------------

/// Settling a message touches no other subscription's queue.
proof fn lemma_settle_others(p: SpecPending, s: Seq<char>, m: Seq<char>, cumulative: bool, s2: Seq<char>)
    requires
        distinct_queues(p),
        s2 != s,
    ensures
        pending_ids(pending_settle(p, s, m, cumulative), s2) == pending_ids(p, s2),
{
    lemma_find_queue_from(p, s, 0);
    lemma_find_queue_from(p, s2, 0);
    let out = pending_settle(p, s, m, cumulative);
    match find_queue(p, s) {
        Some(i) => match message_index(p[i].1, m) {
            Some(k) => {
                let q = settled_queue(p[i].1, k, cumulative);
                match find_queue(p, s2) {
                    Some(j) => {
                        if q.len() == 0 {
                            let jj = if j < i { j } else { j - 1 };
                            assert(out[jj] == p[j]);
                            assert forall|x: int| 0 <= x < jj implies out[x].0 != s2 by {
                                if x < i {
                                    assert(out[x] == p[x]);
                                } else {
                                    assert(out[x] == p[x + 1]);
                                }
                            }
                            lemma_queue_is(out, s2, 0, jj);
                        } else {
                            assert(out[j] == p[j]);
                            lemma_queue_is(out, s2, 0, j);
                        }
                    },
                    None => {
                        assert forall|x: int| 0 <= x < out.len() implies out[x].0 != s2 by {
                            if q.len() == 0 {
                                if x < i {
                                    assert(out[x] == p[x]);
                                } else {
                                    assert(out[x] == p[x + 1]);
                                }
                            } else if x != i {
                                assert(out[x] == p[x]);
                            }
                        }
                        lemma_no_queue(out, s2, 0);
                    },
                }
            },
            None => {},
        },
        None => {},
    }
}

/// The queue of `s` after settling message `m` in it.
proof fn lemma_settle_own(p: SpecPending, s: Seq<char>, m: Seq<char>, cumulative: bool)
    requires
        distinct_queues(p),
        is_pending(p, s, m),
    ensures
        ({
            let i = find_queue(p, s)->0;
            let k = message_index(p[i].1, m)->0;
            pending_ids(pending_settle(p, s, m, cumulative), s) == settled_queue(
                p[i].1,
                k,
                cumulative,
            ).map_values(|x: (Seq<char>, SpecFrame)| x.0)
        }),
{
    lemma_find_queue_from(p, s, 0);
    let i = find_queue(p, s)->0;
    lemma_message_index_from(p[i].1, m, 0);
    let k = message_index(p[i].1, m)->0;
    let q = settled_queue(p[i].1, k, cumulative);
    let out = pending_settle(p, s, m, cumulative);
    if q.len() == 0 {
        assert forall|x: int| 0 <= x < out.len() implies out[x].0 != s by {
            if x < i {
                assert(out[x] == p[x]);
            } else {
                assert(out[x] == p[x + 1]);
            }
        }
        lemma_no_queue(out, s, 0);
        assert(q.map_values(|x: (Seq<char>, SpecFrame)| x.0) =~= Seq::<Seq<char>>::empty());
    } else {
        assert(out[i] == (s, q));
        assert forall|x: int| 0 <= x < i implies out[x].0 != s by {
            assert(out[x] == p[x]);
        }
        lemma_queue_is(out, s, 0, i);
    }
}

/// An ACK in `client` mode is cumulative: the message and every message
/// delivered before it to the same subscription stop waiting, later ones
/// keep waiting in order, and no other subscription is affected.
pub proof fn client_ack_settles_prefix(p: SpecPending, s: Seq<char>, m: Seq<char>, s2: Seq<char>)
    requires
        distinct_queues(p),
        is_pending(p, s, m),
    ensures
        ({
            let k = message_index(p[find_queue(p, s)->0].1, m)->0;
            pending_ids(pending_settle(p, s, m, true), s) == pending_ids(p, s).subrange(
                k + 1,
                pending_ids(p, s).len() as int,
            )
        }),
        s2 != s ==> pending_ids(pending_settle(p, s, m, true), s2) == pending_ids(p, s2),
{
    lemma_settle_own(p, s, m, true);
    lemma_find_queue_from(p, s, 0);
    let i = find_queue(p, s)->0;
    lemma_message_index_from(p[i].1, m, 0);
    let k = message_index(p[i].1, m)->0;
    assert(p[i].1.subrange(k + 1, p[i].1.len() as int).map_values(
        |x: (Seq<char>, SpecFrame)| x.0,
    ) =~= p[i].1.map_values(|x: (Seq<char>, SpecFrame)| x.0).subrange(
        k + 1,
        p[i].1.len() as int,
    ));
    if s2 != s {
        lemma_settle_others(p, s, m, true, s2);
    }
}

/// An ACK in `client-individual` mode settles only that message: the
/// subscription's other messages keep waiting in order, and no other
/// subscription is affected.
pub proof fn individual_ack_settles_one(p: SpecPending, s: Seq<char>, m: Seq<char>, s2: Seq<char>)
    requires
        distinct_queues(p),
        is_pending(p, s, m),
    ensures
        ({
            let k = message_index(p[find_queue(p, s)->0].1, m)->0;
            pending_ids(pending_settle(p, s, m, false), s) == pending_ids(p, s).remove(k)
        }),
        s2 != s ==> pending_ids(pending_settle(p, s, m, false), s2) == pending_ids(p, s2),
{
    lemma_settle_own(p, s, m, false);
    lemma_find_queue_from(p, s, 0);
    let i = find_queue(p, s)->0;
    lemma_message_index_from(p[i].1, m, 0);
    let k = message_index(p[i].1, m)->0;
    assert(p[i].1.remove(k).map_values(|x: (Seq<char>, SpecFrame)| x.0) =~= p[i].1.map_values(
        |x: (Seq<char>, SpecFrame)| x.0,
    ).remove(k));
    if s2 != s {
        lemma_settle_others(p, s, m, false, s2);
    }
}

// ---------------------------------------------------------------------------
// Repeated broker errors
// ---------------------------------------------------------------------------

/// The third ERROR charged to a subscribed destination gives its
/// subscriptions up: the destination is forgotten (so it is not subscribed
/// again on reconnect), the application gets the abandonment notice, and
/// the ERROR itself is still passed on.
pub proof fn third_error_abandons_destination(s: SpecConnState, f: SpecFrame, d: Seq<char>)
    requires
        distinct_destinations(s.subs),
        f.command == "ERROR"@,
        error_destination(f) == Some(d),
        !about_abandoned(s, f),
        error_count(s.errors.counts, d) == 2,
        find_group(s.subs, d) is Some,
    ensures
        find_group(inbound_state(s, f).subs, d) is None,
        inbound_plan(s, f).notice == Some(abandon_notice(3, d)),
        inbound_plan(s, f).forward,
{
    reveal_strlit("ERROR");
    reveal_strlit("MESSAGE");
    reveal_strlit("RECEIPT");
    assert("ERROR"@.len() == 5);
    assert("MESSAGE"@.len() == 7);
    assert("RECEIPT"@.len() == 7);
    lemma_bump_count(s.errors.counts, d);
    lemma_find_group_from(s.subs, d, 0);
    let gi = find_group(s.subs, d)->0;
    let out = s.subs.remove(gi);
    assert forall|x: int| 0 <= x < out.len() implies out[x].0 != d by {
        if x < gi {
            assert(out[x] == s.subs[x]);
        } else {
            assert(out[x] == s.subs[x + 1]);
        }
    }
    lemma_find_group_from(out, d, 0);
}

/// An ERROR that leaves its destination's count below three keeps the
/// subscriptions.
pub proof fn early_errors_keep_subscriptions(s: SpecConnState, f: SpecFrame, d: Seq<char>)
    requires
        f.command == "ERROR"@,
        error_destination(f) == Some(d),
        error_count(s.errors.counts, d) < 2,
    ensures
        inbound_state(s, f).subs == s.subs,
        inbound_plan(s, f).notice is None,
{
    reveal_strlit("ERROR");
    reveal_strlit("MESSAGE");
    reveal_strlit("RECEIPT");
    assert("ERROR"@.len() == 5);
    assert("MESSAGE"@.len() == 7);
    assert("RECEIPT"@.len() == 7);
    lemma_bump_count(s.errors.counts, d);
}


/// A RECEIPT frame settles the receipt it names and goes no further: the
/// application never sees it and nothing the connection remembers changes.
pub proof fn receipts_are_not_forwarded(s: SpecConnState, f: SpecFrame)
    requires
        f.command == "RECEIPT"@,
    ensures
        !inbound_plan(s, f).forward,
        inbound_state(s, f) == s,
        inbound_plan(s, f).notice is None,
{
    reveal_strlit("ERROR");
    reveal_strlit("MESSAGE");
    reveal_strlit("RECEIPT");
    assert("ERROR"@.len() == 5);
    assert("MESSAGE"@.len() == 7);
    assert("RECEIPT"@.len() == 7);
    assert("MESSAGE"@[0] != "RECEIPT"@[0]);
}

/// An ERROR about a subscription already given up on is dropped: the
/// application does not see it again and nothing the connection remembers
/// changes.
pub proof fn errors_after_abandonment_are_dropped(s: SpecConnState, f: SpecFrame)
    requires
        f.command == "ERROR"@,
        about_abandoned(s, f),
    ensures
        !inbound_plan(s, f).forward,
        inbound_state(s, f) == s,
        inbound_plan(s, f).notice is None,
{
    reveal_strlit("ERROR");
    reveal_strlit("MESSAGE");
    reveal_strlit("RECEIPT");
    assert("ERROR"@.len() == 5);
    assert("MESSAGE"@.len() == 7);
    assert("RECEIPT"@.len() == 7);
}

// ---------------------------------------------------------------------------
// Acknowledgement ids
// ---------------------------------------------------------------------------

proof fn lemma_named_index_is(q: Seq<(Seq<char>, SpecFrame)>, id: Seq<char>, i: int, k: int)
    requires
        0 <= i <= k < q.len(),
        names_message(q[k], id),
        forall|m: int| i <= m < k ==> !names_message(q[m], id),
    ensures
        named_index_from(q, id, i) == Some(k),
    decreases k - i,
{
    if i < k {
        lemma_named_index_is(q, id, i + 1, k);
    }
}

/// An ACK or NACK names a pending message by its `message-id` or by its
/// `ack` header, and either way the same message is settled and the frame
/// sent carries the `ack` header.
pub proof fn ack_by_either_id_carries_the_ack_header(p: SpecPending, sub: Seq<char>, k: int)
    requires
        find_queue(p, sub) is Some,
        0 <= k < p[find_queue(p, sub)->0].1.len(),
        lookup_header(p[find_queue(p, sub)->0].1[k].1.headers, "ack"@) is Some,
        forall|m: int|
            0 <= m < k ==> !names_message(
                #[trigger] p[find_queue(p, sub)->0].1[m],
                p[find_queue(p, sub)->0].1[k].0,
            ) && !names_message(
                p[find_queue(p, sub)->0].1[m],
                lookup_header(p[find_queue(p, sub)->0].1[k].1.headers, "ack"@)->0,
            ),
    ensures
        ({
            let x = p[find_queue(p, sub)->0].1[k];
            let a = lookup_header(x.1.headers, "ack"@)->0;
            &&& wire_ack_id(p, sub, x.0) == a
            &&& wire_ack_id(p, sub, a) == a
            &&& settle_key(p, sub, x.0) == x.0
            &&& settle_key(p, sub, a) == x.0
        }),
{
    let q = p[find_queue(p, sub)->0].1;
    let x = q[k];
    let a = lookup_header(x.1.headers, "ack"@)->0;
    lemma_named_index_is(q, x.0, 0, k);
    lemma_named_index_is(q, a, 0, k);
}

/// An ACK or NACK with an id that names no pending message of the
/// subscription settles nothing and carries that id as given.
pub proof fn unknown_ack_id_is_sent_as_given(p: SpecPending, sub: Seq<char>, id: Seq<char>, c: bool)
    requires
        distinct_queues(p),
        !is_pending(p, sub, id),
        forall|m: int|
            #![trigger p[find_queue(p, sub)->0].1[m]]
            find_queue(p, sub) is Some && 0 <= m < p[find_queue(p, sub)->0].1.len()
                ==> !names_message(p[find_queue(p, sub)->0].1[m], id),
    ensures
        wire_ack_id(p, sub, id) == id,
        pending_settle(p, sub, settle_key(p, sub, id), c) == p,
{
    match find_queue(p, sub) {
        Some(i) => {
            lemma_named_none(p[i].1, id, 0);
        },
        None => {},
    }
}

proof fn lemma_named_none(q: Seq<(Seq<char>, SpecFrame)>, id: Seq<char>, i: int)
    requires
        0 <= i,
        forall|m: int| #![trigger q[m]] 0 <= m < q.len() ==> !names_message(q[m], id),
    ensures
        named_index_from(q, id, i) is None,
    decreases q.len() - i,
{
    if i < q.len() {
        assert(!names_message(q[i], id));
        lemma_named_none(q, id, i + 1);
    }
}

// ---------------------------------------------------------------------------
// Delivery and parking
// ---------------------------------------------------------------------------

/// A MESSAGE frame reaches the application's own inbound stream exactly
/// when no subscription takes it.
pub proof fn messages_go_to_subscriptions_or_the_application(s: SpecConnState, f: SpecFrame)
    requires
        f.command == "MESSAGE"@,
    ensures
        inbound_plan(s, f).forward <==> inbound_plan(s, f).delivery is Nobody,
        inbound_state(s, f).subs == s.subs,
        inbound_state(s, f).parked == s.parked,
{
}

/// The entry of `id` is found at the same place after an update that keeps
/// its id.
proof fn lemma_find_parked_update(b: SpecBacklog, id: Seq<char>, e: (Seq<char>, usize, Seq<SpecFrame>))
    requires
        find_parked(b, id) is Some,
        e.0 == id,
    ensures
        find_parked(b.update(find_parked(b, id)->0, e), id) == find_parked(b, id),
{
    let i = find_parked(b, id)->0;
    let u = b.update(i, e);
    lemma_find_parked_from(b, id, 0);
    lemma_find_parked_from(u, id, 0);
    assert(u[i].0 == id);
    assert forall|m: int| 0 <= m < i implies u[m].0 != id by {
        assert(u[m] == b[m]);
    }
}

/// Parked frames leave in the order they came: a frame is parked behind
/// those already waiting, and the oldest is the one taken.
pub proof fn parked_frames_leave_in_order(b: SpecBacklog, id: Seq<char>, f: SpecFrame)
    requires
        limit_of(b, id) is Some,
    ensures
        parked_of(backlog_park(b, id, f), id) == parked_of(b, id).push(f),
        parked_of(b, id).len() > 0 ==> parked_of(backlog_take(b, id), id) == parked_of(
            b,
            id,
        ).drop_first(),
{
    let i = find_parked(b, id)->0;
    lemma_find_parked_from(b, id, 0);
    lemma_find_parked_update(b, id, (id, b[i].1, b[i].2.push(f)));
    if b[i].2.len() > 0 {
        lemma_find_parked_update(b, id, (id, b[i].1, b[i].2.drop_first()));
    }
}

/// A consumer that falls behind loses nothing while fewer frames than its
/// limit are parked: the frame waits behind the others and the
/// subscription stays.
pub proof fn nothing_is_lost_below_the_limit(s: SpecConnState, id: Seq<char>, f: SpecFrame)
    requires
        limit_of(s.parked, id) is Some,
        parked_of(s.parked, id).len() < limit_of(s.parked, id)->0,
    ensures
        park_outcome(s, id) is Parked,
        park_state(s, id, f).subs == s.subs,
        park_state(s, id, f).pending == s.pending,
        parked_of(park_state(s, id, f).parked, id) == parked_of(s.parked, id).push(f),
{
    parked_frames_leave_in_order(s.parked, id, f);
}

/// At its limit a subscription is failed: the frame is not parked, the
/// subscription's parked frames are dropped, it is told to the broker with
/// an UNSUBSCRIBE and to the application with a notice, and no frame is
/// parked for it afterwards.
pub proof fn overflow_fails_the_subscription(s: SpecConnState, id: Seq<char>, f: SpecFrame)
    requires
        distinct_ids(s.parked),
        limit_of(s.parked, id) is Some,
        parked_of(s.parked, id).len() >= limit_of(s.parked, id)->0,
    ensures
        park_outcome(s, id) matches SpecParkOutcome::Overflowed(u, n, l) && l == limit_of(
            s.parked,
            id,
        )->0 && u.command == "UNSUBSCRIBE"@ && n.command == "ERROR"@,
        park_state(s, id, f).subs == registry_unsubscribe(s.subs, id),
        limit_of(park_state(s, id, f).parked, id) is None,
        parked_of(park_state(s, id, f).parked, id).len() == 0,
        park_outcome(park_state(s, id, f), id) is Unknown,
{
    let b = s.parked;
    let i = find_parked(b, id)->0;
    lemma_find_parked_from(b, id, 0);
    let c = b.remove(i);
    assert forall|m: int| 0 <= m < c.len() implies c[m].0 != id by {
        if m < i {
            assert(c[m] == b[m]);
        } else {
            assert(c[m] == b[m + 1]);
        }
    }
    lemma_find_parked_from(c, id, 0);
    assert(backlog_close(b, id) == c);
}

/// After a reconnect nothing is pending, the subscriptions are the same,
/// and a subscription keeps its parked frames only in `auto` mode: in the
/// other modes the broker sends the unacknowledged frames again.
pub proof fn reconnect_keeps_parked_frames_only_in_auto_mode(s: SpecConnState, id: Seq<char>)
    requires
        distinct_ids(s.parked),
    ensures
        reconnect_state(s).subs == s.subs,
        reconnect_state(s).pending == SpecPending::empty(),
        limit_of(reconnect_state(s).parked, id) == limit_of(s.parked, id),
        parked_of(reconnect_state(s).parked, id) == if keeps_parked(ack_of_id(s.subs, id)) {
            parked_of(s.parked, id)
        } else {
            Seq::<SpecFrame>::empty()
        },
{
    let b = s.parked;
    let r = reconnect_state(s).parked;
    assert(r.len() == b.len());
    assert forall|m: int| 0 <= m < r.len() implies r[m].0 == b[m].0 by {}
    lemma_find_parked_from(b, id, 0);
    lemma_find_parked_from(r, id, 0);
    match find_parked(b, id) {
        Some(i) => {
            assert(r[i].0 == id);
            assert(find_parked(r, id) == Some(i));
        },
        None => {
            assert(find_parked(r, id) is None);
        },
    }
}

/// A NACK settles exactly what an ACK of the same id settles (the state
/// `acknowledge` leaves does not depend on which it is), and the two frames
/// carry the same headers: the id the message is acknowledged by, and the
/// subscription. Only the command differs.
pub proof fn nack_settles_what_ack_settles(s: SpecConnState, sub: Seq<char>, id: Seq<char>)
    ensures
        ({
            let w = wire_ack_id(s.pending, sub, id);
            &&& ack_frame_spec(false, w, sub) == spec_frame(
                "ACK"@,
                seq![("id"@, w), ("subscription"@, sub)],
                Seq::empty(),
            )
            &&& ack_frame_spec(true, w, sub) == spec_frame(
                "NACK"@,
                seq![("id"@, w), ("subscription"@, sub)],
                Seq::empty(),
            )
            &&& settle_state(s, sub, id).pending == pending_settle(
                s.pending,
                sub,
                settle_key(s.pending, sub, id),
                crate::dispatch::settles_cumulatively(s.subs, sub),
            )
            &&& settle_state(s, sub, id).subs == s.subs
            &&& settle_state(s, sub, id).parked == s.parked
        }),
{
}

} // verus!
