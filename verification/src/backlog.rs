//! Frames parked for subscriptions whose channel is full, oldest first,
//! until the consumer makes room.
use vstd::prelude::*;
use crate::frame::{Frame, SpecFrame, chars_equal};
use crate::registry::{Subscriptions, ack_of_id};

verus! {

/// For each subscription: its id, how many frames may be parked for it, and
/// the parked frames, oldest first.
pub type SpecBacklog = Seq<(Seq<char>, usize, Seq<SpecFrame>)>;

/// The index of the entry of subscription `id`, searching from `i`.
pub open spec fn find_parked_from(b: SpecBacklog, id: Seq<char>, i: int) -> Option<int>
    decreases b.len() - i,
{
    if i < 0 || i >= b.len() {
        None
    } else if b[i].0 == id {
        Some(i)
    } else {
        find_parked_from(b, id, i + 1)
    }
}

/// The index of the entry of subscription `id`.
pub open spec fn find_parked(b: SpecBacklog, id: Seq<char>) -> Option<int> {
    find_parked_from(b, id, 0)
}

/// The frames parked for `id`, oldest first.
pub open spec fn parked_of(b: SpecBacklog, id: Seq<char>) -> Seq<SpecFrame> {
    match find_parked(b, id) {
        Some(i) => b[i].2,
        None => Seq::empty(),
    }
}

/// How many frames may be parked for `id`, when it has an entry.
pub open spec fn limit_of(b: SpecBacklog, id: Seq<char>) -> Option<usize> {
    match find_parked(b, id) {
        Some(i) => Some(b[i].1),
        None => None,
    }
}

/// Whether no two entries share an id.
pub open spec fn distinct_ids(b: SpecBacklog) -> bool {
    forall|i: int, j: int| 0 <= i < j < b.len() ==> b[i].0 != b[j].0
}

/// The backlog with an empty entry for `id` allowing `limit` parked frames.
pub open spec fn backlog_open(b: SpecBacklog, id: Seq<char>, limit: usize) -> SpecBacklog {
    match find_parked(b, id) {
        Some(i) => b.update(i, (id, limit, Seq::empty())),
        None => b.push((id, limit, Seq::empty())),
    }
}

/// The backlog without the entry of `id` and its parked frames.
pub open spec fn backlog_close(b: SpecBacklog, id: Seq<char>) -> SpecBacklog {
    match find_parked(b, id) {
        Some(i) => b.remove(i),
        None => b,
    }
}

/// The backlog without the entries of every id of `ids`.
pub open spec fn backlog_close_all(b: SpecBacklog, ids: Seq<Seq<char>>) -> SpecBacklog
    decreases ids.len(),
{
    if ids.len() == 0 {
        b
    } else {
        backlog_close(backlog_close_all(b, ids.drop_last()), ids.last())
    }
}

/// The backlog with frame `f` parked behind the frames of `id`.
pub open spec fn backlog_park(b: SpecBacklog, id: Seq<char>, f: SpecFrame) -> SpecBacklog {
    match find_parked(b, id) {
        Some(i) => b.update(i, (id, b[i].1, b[i].2.push(f))),
        None => b,
    }
}

/// The backlog after the oldest frame parked for `id` left it.
pub open spec fn backlog_take(b: SpecBacklog, id: Seq<char>) -> SpecBacklog {
    match find_parked(b, id) {
        Some(i) => if b[i].2.len() > 0 {
            b.update(i, (id, b[i].1, b[i].2.drop_first()))
        } else {
            b
        },
        None => b,
    }
}

/// The ids with parked frames, in entry order.
pub open spec fn backlog_waiting(b: SpecBacklog) -> Seq<Seq<char>>
    decreases b.len(),
{
    if b.len() == 0 {
        Seq::empty()
    } else if b.last().2.len() > 0 {
        backlog_waiting(b.drop_last()).push(b.last().0)
    } else {
        backlog_waiting(b.drop_last())
    }
}

/// Whether the frames parked for a subscription in ack mode `ack` survive a
/// reconnect: only in `auto` mode, where the broker counts them delivered
/// and never sends them again. In the other modes it redelivers them.
pub open spec fn keeps_parked(ack: Option<Seq<char>>) -> bool {
    ack == Some("auto"@)
}

/// The backlog after a reconnect: entries stay, and the parked frames stay
/// only for subscriptions in `auto` mode.
pub open spec fn backlog_after_reconnect(
    b: SpecBacklog,
    r: crate::registry::SpecRegistry,
) -> SpecBacklog {
    b.map_values(
        |x: (Seq<char>, usize, Seq<SpecFrame>)|
            if keeps_parked(ack_of_id(r, x.0)) {
                x
            } else {
                (x.0, x.1, Seq::<SpecFrame>::empty())
            },
    )
}

pub proof fn lemma_find_parked_from(b: SpecBacklog, id: Seq<char>, i: int)
    requires
        0 <= i,
    ensures
        match find_parked_from(b, id, i) {
            Some(k) => i <= k < b.len() && b[k].0 == id && forall|m: int|
                i <= m < k ==> b[m].0 != id,
            None => forall|m: int| i <= m < b.len() ==> b[m].0 != id,
        },
    decreases b.len() - i,
{
    if i < b.len() && b[i].0 != id {
        lemma_find_parked_from(b, id, i + 1);
    }
}

/// In a backlog without repeated ids, the entry found for `b[k].0` is `k`.
pub proof fn lemma_find_parked_at(b: SpecBacklog, k: int)
    requires
        distinct_ids(b),
        0 <= k < b.len(),
    ensures
        find_parked(b, b[k].0) == Some(k),
{
    lemma_find_parked_from(b, b[k].0, 0);
}

/// The parked frames of one entry, as values.
pub open spec fn entry_view(e: (String, usize, Vec<Frame>)) -> (Seq<char>, usize, Seq<SpecFrame>) {
    (e.0@, e.1, e.2@.map_values(|f: Frame| f@))
}

/// Frames waiting for room in their subscription's channel.
pub struct Backlog {
    entries: Vec<(String, usize, Vec<Frame>)>,
}

impl View for Backlog {
    type V = SpecBacklog;

    closed spec fn view(&self) -> SpecBacklog {
        self.entries@.map_values(|e: (String, usize, Vec<Frame>)| entry_view(e))
    }
}

impl Backlog {
    /// Whether no two entries share an id.
    pub closed spec fn wf(&self) -> bool {
        distinct_ids(self@)
    }

    /// No entries.
    pub fn new() -> (b: Backlog)
        ensures
            b.wf(),
            b@ == SpecBacklog::empty(),
    {
        let b = Backlog { entries: Vec::new() };
        assert(b@ =~= SpecBacklog::empty());
        b
    }

    /// The index of the entry of `id`.
    fn index(&self, id: &str) -> (r: Option<usize>)
        ensures
            match (r, find_parked(self@, id@)) {
                (Some(k), Some(j)) => k == j,
                (None, None) => true,
                _ => false,
            },
            r matches Some(k) ==> k < self.entries@.len() && self@[k as int] == entry_view(
                self.entries@[k as int],
            ) && self@[k as int].0 == id@,
    {
        proof {
            lemma_find_parked_from(self@, id@, 0);
        }
        let mut i: usize = 0;
        while i < self.entries.len()
            invariant
                i <= self.entries@.len(),
                find_parked(self@, id@) == find_parked_from(self@, id@, i as int),
            decreases self.entries@.len() - i,
        {
            if chars_equal(self.entries[i].0.as_str(), id) {
                return Some(i);
            }
            i += 1;
        }
        None
    }

    /// Makes an empty entry for `id` allowing `limit` parked frames; an
    /// earlier entry of `id` is replaced.
    pub fn open(&mut self, id: &str, limit: usize)
        requires
            old(self).wf(),
        ensures
            final(self).wf(),
            final(self)@ == backlog_open(old(self)@, id@, limit),
    {
        let ghost b = self@;
        proof {
            lemma_find_parked_from(b, id@, 0);
        }
        let fresh: Vec<Frame> = Vec::new();
        assert(fresh@.map_values(|f: Frame| f@) =~= Seq::<SpecFrame>::empty());
        match self.index(id) {
            Some(i) => {
                self.entries.remove(i);
                self.entries.insert(i, (id.to_owned(), limit, fresh));
                assert(self@ =~= b.update(i as int, (id@, limit, Seq::<SpecFrame>::empty())));
            },
            None => {
                self.entries.push((id.to_owned(), limit, fresh));
                assert(self@ =~= b.push((id@, limit, Seq::<SpecFrame>::empty())));
            },
        }
    }

    /// Drops the entry of `id` with its parked frames.
    pub fn close(&mut self, id: &str)
        requires
            old(self).wf(),
        ensures
            final(self).wf(),
            final(self)@ == backlog_close(old(self)@, id@),
    {
        let ghost b = self@;
        match self.index(id) {
            Some(i) => {
                self.entries.remove(i);
                assert(self@ =~= b.remove(i as int));
            },
            None => {},
        }
    }

    /// Drops the entries of every id of `ids`.
    pub fn close_all(&mut self, ids: &Vec<String>)
        requires
            old(self).wf(),
        ensures
            final(self).wf(),
            final(self)@ == backlog_close_all(old(self)@, ids@.map_values(|s: String| s@)),
    {
        let ghost b = self@;
        let ghost iv = ids@.map_values(|s: String| s@);
        let mut i: usize = 0;
        while i < ids.len()
            invariant
                i <= ids@.len(),
                iv == ids@.map_values(|s: String| s@),
                self.wf(),
                self@ == backlog_close_all(b, iv.subrange(0, i as int)),
            decreases ids@.len() - i,
        {
            proof {
                let t = iv.subrange(0, i + 1);
                assert(t.drop_last() =~= iv.subrange(0, i as int));
                assert(t.last() == iv[i as int]);
            }
            self.close(ids[i].as_str());
            i += 1;
        }
        assert(iv.subrange(0, ids@.len() as int) =~= iv);
    }

    /// The limit of `id` and how many frames are parked for it, when it has
    /// an entry.
    pub fn occupancy(&self, id: &str) -> (r: Option<(usize, usize)>)
        ensures
            match (r, limit_of(self@, id@)) {
                (Some((l, n)), Some(m)) => l == m && n == parked_of(self@, id@).len(),
                (None, None) => true,
                _ => false,
            },
    {
        match self.index(id) {
            Some(i) => {
                assert(self@[i as int] == entry_view(self.entries@[i as int]));
                Some((self.entries[i].1, self.entries[i].2.len()))
            },
            None => None,
        }
    }

    /// Parks frame `f` behind the frames of `id`; nothing happens when `id`
    /// has no entry.
    pub fn park(&mut self, id: &str, f: Frame)
        requires
            old(self).wf(),
        ensures
            final(self).wf(),
            final(self)@ == backlog_park(old(self)@, id@, f@),
    {
        let ghost b = self@;
        match self.index(id) {
            Some(i) => {
                let (k, l, mut q) = self.entries.remove(i);
                let ghost oq = q@;
                q.push(f);
                assert(q@.map_values(|x: Frame| x@) =~= oq.map_values(|x: Frame| x@).push(f@));
                self.entries.insert(i, (k, l, q));
                assert(self@ =~= b.update(i as int, (id@, b[i as int].1, b[i as int].2.push(f@))));
            },
            None => {},
        }
    }

    /// Takes the oldest frame parked for `id`.
    pub fn take(&mut self, id: &str) -> (r: Option<Frame>)
        requires
            old(self).wf(),
        ensures
            final(self).wf(),
            final(self)@ == backlog_take(old(self)@, id@),
            parked_of(old(self)@, id@).len() > 0 ==> (r matches Some(f) && f@ == parked_of(
                old(self)@,
                id@,
            )[0]),
            parked_of(old(self)@, id@).len() == 0 ==> r is None,
    {
        let ghost b = self@;
        match self.index(id) {
            Some(i) => {
                if self.entries[i].2.len() == 0 {
                    assert(self@[i as int] == entry_view(self.entries@[i as int]));
                    return None;
                }
                let (k, l, mut q) = self.entries.remove(i);
                let ghost oq = q@;
                let f = q.remove(0);
                assert(q@.map_values(|x: Frame| x@) =~= oq.map_values(|x: Frame| x@).drop_first());
                self.entries.insert(i, (k, l, q));
                assert(self@ =~= b.update(
                    i as int,
                    (id@, b[i as int].1, b[i as int].2.drop_first()),
                ));
                Some(f)
            },
            None => None,
        }
    }

    /// The ids with parked frames, in entry order.
    pub fn waiting_ids(&self) -> (ids: Vec<String>)
        ensures
            ids@.map_values(|s: String| s@) == backlog_waiting(self@),
    {
        let mut ids: Vec<String> = Vec::new();
        let mut i: usize = 0;
        while i < self.entries.len()
            invariant
                i <= self.entries@.len(),
                ids@.map_values(|s: String| s@) == backlog_waiting(self@.subrange(0, i as int)),
            decreases self.entries@.len() - i,
        {
            let ghost before = ids@;
            let ghost t = self@.subrange(0, i + 1);
            assert(t.drop_last() =~= self@.subrange(0, i as int));
            assert(t.last() == entry_view(self.entries@[i as int]));
            if self.entries[i].2.len() > 0 {
                ids.push(self.entries[i].0.clone());
                assert(ids@.map_values(|s: String| s@) =~= before.map_values(|s: String| s@).push(
                    self.entries@[i as int].0@,
                ));
            }
            i += 1;
        }
        assert(self@.subrange(0, self@.len() as int) =~= self@);
        ids
    }

    /// Empties the parked frames of every subscription that is not in
    /// `auto` mode, as after a reconnect.
    pub fn after_reconnect(&mut self, subs: &Subscriptions)
        requires
            old(self).wf(),
        ensures
            final(self).wf(),
            final(self)@ == backlog_after_reconnect(old(self)@, subs@),
    {
        let ghost b = self@;
        let ghost target = backlog_after_reconnect(b, subs@);
        let mut i: usize = 0;
        while i < self.entries.len()
            invariant
                i <= self.entries@.len(),
                self@.len() == b.len(),
                target == backlog_after_reconnect(b, subs@),
                forall|k: int| 0 <= k < i ==> self@[k] == target[k],
                forall|k: int| i <= k < self@.len() ==> self@[k] == b[k],
                distinct_ids(b),
            decreases self.entries@.len() - i,
        {
            let keep = match subs.ack_of(self.entries[i].0.as_str()) {
                Some(a) => chars_equal(a.as_str(), "auto"),
                None => false,
            };
            proof {
                reveal_strlit("auto");
            }
            assert(self@[i as int] == entry_view(self.entries@[i as int]));
            if !keep {
                let ghost before = self@;
                let (k, l, _) = self.entries.remove(i);
                let fresh: Vec<Frame> = Vec::new();
                assert(fresh@.map_values(|f: Frame| f@) =~= Seq::<SpecFrame>::empty());
                self.entries.insert(i, (k, l, fresh));
                assert(self@ =~= before.update(
                    i as int,
                    (b[i as int].0, b[i as int].1, Seq::<SpecFrame>::empty()),
                ));
            }
            i += 1;
        }
        assert(self@ =~= target);
        assert(distinct_ids(self@)) by {
            assert forall|x: int, y: int| 0 <= x < y < self@.len() implies self@[x].0 != self@[y].0 by {
                assert(self@[x].0 == b[x].0 && self@[y].0 == b[y].0);
            }
        }
    }
}

} // verus!
