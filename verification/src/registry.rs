//! What a connection remembers between frames: its subscriptions, grouped
//! by destination, and the messages still waiting for ACK or NACK.
use vstd::prelude::*;
use crate::frame::{Frame, SpecFrame, SpecTextHeader, chars_equal, lookup_header, text_headers};

verus! {

// ---------------------------------------------------------------------------
// Subscriptions
// ---------------------------------------------------------------------------

/// A subscription as the connection remembers it, to route MESSAGE frames
/// and to subscribe again after a reconnect.
#[derive(Debug)]
pub struct SubscriptionEntry {
    /// The subscription id.
    pub id: String,
    /// The `ack` header value it was made with.
    pub ack: String,
    /// The extra headers of its SUBSCRIBE frame.
    pub headers: Vec<(String, String)>,
}

/// The abstract value of a subscription entry.
pub struct SpecEntry {
    pub id: Seq<char>,
    pub ack: Seq<char>,
    pub headers: Seq<SpecTextHeader>,
}

impl View for SubscriptionEntry {
    type V = SpecEntry;

    open spec fn view(&self) -> SpecEntry {
        SpecEntry { id: self.id@, ack: self.ack@, headers: text_headers(self.headers@) }
    }
}

/// Subscriptions grouped by destination, destinations in the order they
/// were first subscribed to, entries in the order they were added.
pub type SpecRegistry = Seq<(Seq<char>, Seq<SpecEntry>)>;

/// The index of the group for destination `d`, searching from `i`.
pub open spec fn find_group_from(r: SpecRegistry, d: Seq<char>, i: int) -> Option<int>
    decreases r.len() - i,
{
    if i < 0 || i >= r.len() {
        None
    } else if r[i].0 == d {
        Some(i)
    } else {
        find_group_from(r, d, i + 1)
    }
}

/// The index of the group for destination `d`.
pub open spec fn find_group(r: SpecRegistry, d: Seq<char>) -> Option<int> {
    find_group_from(r, d, 0)
}

/// The index of the first entry with id `id`, searching from `i`.
pub open spec fn entry_index_from(es: Seq<SpecEntry>, id: Seq<char>, i: int) -> Option<int>
    decreases es.len() - i,
{
    if i < 0 || i >= es.len() {
        None
    } else if es[i].id == id {
        Some(i)
    } else {
        entry_index_from(es, id, i + 1)
    }
}

/// The index of the first entry with id `id`.
pub open spec fn entry_index(es: Seq<SpecEntry>, id: Seq<char>) -> Option<int> {
    entry_index_from(es, id, 0)
}

/// The index of the first group holding an entry with id `id`, from `i`.
pub open spec fn group_with_id_from(r: SpecRegistry, id: Seq<char>, i: int) -> Option<int>
    decreases r.len() - i,
{
    if i < 0 || i >= r.len() {
        None
    } else if entry_index(r[i].1, id) is Some {
        Some(i)
    } else {
        group_with_id_from(r, id, i + 1)
    }
}

/// The index of the first group holding an entry with id `id`.
pub open spec fn group_with_id(r: SpecRegistry, id: Seq<char>) -> Option<int> {
    group_with_id_from(r, id, 0)
}

/// Whether no two groups share a destination.
pub open spec fn distinct_destinations(r: SpecRegistry) -> bool {
    forall|i: int, j: int| 0 <= i < j < r.len() ==> r[i].0 != r[j].0
}

/// The registry after adding entry `e` for destination `d`.
pub open spec fn registry_add(r: SpecRegistry, d: Seq<char>, e: SpecEntry) -> SpecRegistry {
    match find_group(r, d) {
        Some(i) => r.update(i, (d, r[i].1.push(e))),
        None => r.push((d, seq![e])),
    }
}

/// `es` without its first entry with id `id`.
pub open spec fn remove_first_entry(es: Seq<SpecEntry>, id: Seq<char>) -> Seq<SpecEntry> {
    match entry_index(es, id) {
        Some(j) => es.remove(j),
        None => es,
    }
}

/// Each group without its first entry with id `id`, and without the groups
/// left empty.
pub open spec fn registry_unsubscribe(r: SpecRegistry, id: Seq<char>) -> SpecRegistry
    decreases r.len(),
{
    if r.len() == 0 {
        r
    } else {
        let rest = registry_unsubscribe(r.drop_last(), id);
        let es = remove_first_entry(r.last().1, id);
        if es.len() == 0 {
            rest
        } else {
            rest.push((r.last().0, es))
        }
    }
}

/// The destination whose group first holds subscription `id`.
pub open spec fn destination_of_id(r: SpecRegistry, id: Seq<char>) -> Option<Seq<char>> {
    match group_with_id(r, id) {
        Some(i) => Some(r[i].0),
        None => None,
    }
}

/// The `ack` mode of the first entry with id `id`.
pub open spec fn ack_of_id(r: SpecRegistry, id: Seq<char>) -> Option<Seq<char>> {
    match group_with_id(r, id) {
        Some(i) => match entry_index(r[i].1, id) {
            Some(j) => Some(r[i].1[j].ack),
            None => None,
        },
        None => None,
    }
}

/// Whether some entry with id `id` is in a mode that needs acknowledgement.
pub open spec fn id_needs_ack(r: SpecRegistry, id: Seq<char>) -> bool {
    exists|i: int, j: int|
        0 <= i < r.len() && 0 <= j < r[i].1.len() && r[i].1[j].id == id && r[i].1[j].ack
            != "auto"@
}

/// Whether some entry of `es` is in a mode that needs acknowledgement.
pub open spec fn any_needs_ack(es: Seq<SpecEntry>) -> bool {
    exists|j: int| 0 <= j < es.len() && (#[trigger] es[j]).ack != "auto"@
}

/// Whether some subscription to destination `d` needs acknowledgement.
pub open spec fn destination_needs_ack(r: SpecRegistry, d: Seq<char>) -> bool {
    match find_group(r, d) {
        Some(i) => any_needs_ack(r[i].1),
        None => false,
    }
}

/// The registry without the group for destination `d`.
pub open spec fn registry_remove_destination(r: SpecRegistry, d: Seq<char>) -> SpecRegistry {
    match find_group(r, d) {
        Some(i) => r.remove(i),
        None => r,
    }
}

/// The ids of the subscriptions to destination `d`, in order.
pub open spec fn ids_of_destination(r: SpecRegistry, d: Seq<char>) -> Seq<Seq<char>> {
    match find_group(r, d) {
        Some(i) => r[i].1.map_values(|e: SpecEntry| e.id),
        None => Seq::empty(),
    }
}

/// The registry with the first entry `id` of destination `d` dropped; the
/// group stays even when it is left empty.
pub open spec fn registry_drop_entry(r: SpecRegistry, d: Seq<char>, id: Seq<char>) -> SpecRegistry {
    match find_group(r, d) {
        Some(i) => r.update(i, (d, remove_first_entry(r[i].1, id))),
        None => r,
    }
}

/// Every subscription as `(destination, entry)`, group by group.
pub open spec fn registry_snapshot(r: SpecRegistry) -> Seq<(Seq<char>, SpecEntry)>
    decreases r.len(),
{
    if r.len() == 0 {
        Seq::empty()
    } else {
        registry_snapshot(r.drop_last()) + r.last().1.map_values(
            |e: SpecEntry| (r.last().0, e),
        )
    }
}

/// Every destination of `registry_unsubscribe(r, id)` is one of `r`.
proof fn lemma_unsubscribe_dests(r: SpecRegistry, id: Seq<char>)
    ensures
        forall|k: int|
            0 <= k < registry_unsubscribe(r, id).len() ==> exists|m: int|
                0 <= m < r.len() && r[m].0 == #[trigger] registry_unsubscribe(r, id)[k].0,
        distinct_destinations(r) ==> distinct_destinations(registry_unsubscribe(r, id)),
    decreases r.len(),
{
    if r.len() > 0 {
        let p = r.drop_last();
        lemma_unsubscribe_dests(p, id);
        let rest = registry_unsubscribe(p, id);
        let u = registry_unsubscribe(r, id);
        assert forall|k: int| 0 <= k < u.len() implies exists|m: int|
            0 <= m < r.len() && r[m].0 == #[trigger] u[k].0 by {
            if k < rest.len() {
                assert(u[k] == rest[k]);
                let m = choose|m: int| 0 <= m < p.len() && p[m].0 == rest[k].0;
                assert(r[m] == p[m]);
            } else {
                assert(u[k].0 == r[r.len() - 1].0);
            }
        }
        if distinct_destinations(r) {
            assert(distinct_destinations(p)) by {
                assert forall|i: int, j: int| 0 <= i < j < p.len() implies p[i].0 != p[j].0 by {
                    assert(p[i] == r[i] && p[j] == r[j]);
                }
            }
            assert forall|i: int, j: int| 0 <= i < j < u.len() implies u[i].0 != u[j].0 by {
                if j < rest.len() {
                    assert(u[i] == rest[i] && u[j] == rest[j]);
                } else {
                    assert(u[i] == rest[i]);
                    let m = choose|m: int| 0 <= m < p.len() && p[m].0 == rest[i].0;
                    assert(r[m] == p[m]);
                    assert(u[j].0 == r[r.len() - 1].0);
                }
            }
        }
    }
}

/// What a connection remembers of its subscriptions.
#[derive(Debug)]
pub struct Subscriptions {
    groups: Vec<(String, Vec<SubscriptionEntry>)>,
}

/// The abstract value of one destination group.
pub open spec fn group_view(g: (String, Vec<SubscriptionEntry>)) -> (Seq<char>, Seq<SpecEntry>) {
    (g.0@, g.1@.map_values(|e: SubscriptionEntry| e@))
}

impl View for Subscriptions {
    type V = SpecRegistry;

    closed spec fn view(&self) -> SpecRegistry {
        self.groups@.map_values(|g: (String, Vec<SubscriptionEntry>)| group_view(g))
    }
}

pub proof fn lemma_find_group_from(r: SpecRegistry, d: Seq<char>, i: int)
    requires
        0 <= i,
    ensures
        match find_group_from(r, d, i) {
            Some(k) => i <= k < r.len() && r[k].0 == d && forall|m: int| i <= m < k ==> r[m].0 != d,
            None => forall|m: int| i <= m < r.len() ==> r[m].0 != d,
        },
    decreases r.len() - i,
{
    if i < r.len() && r[i].0 != d {
        lemma_find_group_from(r, d, i + 1);
    }
}

pub proof fn lemma_entry_index_from(es: Seq<SpecEntry>, id: Seq<char>, i: int)
    requires
        0 <= i,
    ensures
        match entry_index_from(es, id, i) {
            Some(k) => i <= k < es.len() && es[k].id == id && forall|m: int|
                i <= m < k ==> es[m].id != id,
            None => forall|m: int| i <= m < es.len() ==> es[m].id != id,
        },
    decreases es.len() - i,
{
    if i < es.len() && es[i].id != id {
        lemma_entry_index_from(es, id, i + 1);
    }
}

pub proof fn lemma_group_with_id_from(r: SpecRegistry, id: Seq<char>, i: int)
    requires
        0 <= i,
    ensures
        match group_with_id_from(r, id, i) {
            Some(k) => i <= k < r.len() && entry_index(r[k].1, id) is Some && forall|m: int|
                i <= m < k ==> entry_index(r[m].1, id) is None,
            None => forall|m: int| i <= m < r.len() ==> entry_index(r[m].1, id) is None,
        },
    decreases r.len() - i,
{
    if i < r.len() && entry_index(r[i].1, id) is None {
        lemma_group_with_id_from(r, id, i + 1);
    }
}

/// The index of the first entry of `es` with id `id`.
fn find_entry(es: &Vec<SubscriptionEntry>, id: &str) -> (r: Option<usize>)
    ensures
        match (r, entry_index(es@.map_values(|e: SubscriptionEntry| e@), id@)) {
            (Some(k), Some(j)) => k == j,
            (None, None) => true,
            _ => false,
        },
{
    let ghost v = es@.map_values(|e: SubscriptionEntry| e@);
    let mut i: usize = 0;
    while i < es.len()
        invariant
            i <= es@.len(),
            v == es@.map_values(|e: SubscriptionEntry| e@),
            entry_index(v, id@) == entry_index_from(v, id@, i as int),
        decreases es@.len() - i,
    {
        assert(v[i as int] == es@[i as int]@);
        if chars_equal(es[i].id.as_str(), id) {
            return Some(i);
        }
        i += 1;
    }
    None
}

/// A copy of a header list.
pub fn copy_headers(h: &Vec<(String, String)>) -> (r: Vec<(String, String)>)
    ensures
        text_headers(r@) == text_headers(h@),
{
    let mut r: Vec<(String, String)> = Vec::new();
    let mut i: usize = 0;
    while i < h.len()
        invariant
            i <= h@.len(),
            text_headers(r@) == text_headers(h@).subrange(0, i as int),
        decreases h@.len() - i,
    {
        let k = h[i].0.clone();
        let v = h[i].1.clone();
        let ghost before = r@;
        r.push((k, v));
        assert(text_headers(r@) =~= text_headers(before).push((k@, v@)));
        assert(text_headers(h@).subrange(0, i + 1) =~= text_headers(h@).subrange(0, i as int).push(
            (k@, v@),
        ));
        i += 1;
    }
    assert(text_headers(h@).subrange(0, h@.len() as int) =~= text_headers(h@));
    r
}

impl Subscriptions {
    /// Whether no two groups share a destination.
    pub closed spec fn wf(&self) -> bool {
        distinct_destinations(self@)
    }

    /// No subscriptions.
    pub fn new() -> (s: Subscriptions)
        ensures
            s@ == SpecRegistry::empty(),
            s.wf(),
    {
        let s = Subscriptions { groups: Vec::new() };
        assert(s@ =~= SpecRegistry::empty());
        s
    }

    /// The index of the group for destination `d`.
    fn group_index(&self, d: &str) -> (r: Option<usize>)
        ensures
            match (r, find_group(self@, d@)) {
                (Some(k), Some(j)) => k == j,
                (None, None) => true,
                _ => false,
            },
    {
        let mut i: usize = 0;
        while i < self.groups.len()
            invariant
                i <= self.groups@.len(),
                find_group(self@, d@) == find_group_from(self@, d@, i as int),
            decreases self.groups@.len() - i,
        {
            if chars_equal(self.groups[i].0.as_str(), d) {
                return Some(i);
            }
            i += 1;
        }
        None
    }

    /// Remembers subscription `id` to destination `destination`, made with
    /// ack mode `ack` and extra headers `headers`.
    pub fn add(&mut self, destination: &str, id: &str, ack: &str, headers: &Vec<(String, String)>)
        requires
            old(self).wf(),
        ensures
            final(self).wf(),
            final(self)@ == registry_add(
                old(self)@,
                destination@,
                SpecEntry { id: id@, ack: ack@, headers: text_headers(headers@) },
            ),
    {
        let entry = SubscriptionEntry {
            id: id.to_owned(),
            ack: ack.to_owned(),
            headers: copy_headers(headers),
        };
        let ghost e = entry@;
        let ghost r = self@;
        proof {
            lemma_find_group_from(r, destination@, 0);
        }
        match self.group_index(destination) {
            Some(i) => {
                let (d, mut es) = self.groups.remove(i);
                let ghost old_es = es@;
                es.push(entry);
                self.groups.insert(i, (d, es));
                proof {
                    assert(es@.map_values(|x: SubscriptionEntry| x@) =~= old_es.map_values(
                        |x: SubscriptionEntry| x@,
                    ).push(e));
                    assert(self@ =~= r.update(i as int, (destination@, r[i as int].1.push(e))));
                }
            },
            None => {
                let mut es: Vec<SubscriptionEntry> = Vec::new();
                es.push(entry);
                self.groups.push((destination.to_owned(), es));
                proof {
                    assert(es@.map_values(|x: SubscriptionEntry| x@) =~= seq![e]);
                    assert(self@ =~= r.push((destination@, seq![e])));
                }
            },
        }
    }

    /// Forgets the first subscription with id `id` of each destination, and
    /// destinations left with none. Returns whether there was one.
    pub fn remove_id(&mut self, id: &str) -> (found: bool)
        requires
            old(self).wf(),
        ensures
            final(self).wf(),
            final(self)@ == registry_unsubscribe(old(self)@, id@),
            found == (group_with_id(old(self)@, id@) is Some),
    {
        let ghost r = self@;
        let mut rest: Vec<(String, Vec<SubscriptionEntry>)> = Vec::new();
        std::mem::swap(&mut rest, &mut self.groups);
        assert(rest@.map_values(|g: (String, Vec<SubscriptionEntry>)| group_view(g)) == r);
        let n = rest.len();
        let mut i: usize = 0;
        let mut found = false;
        proof {
            lemma_group_with_id_from(r, id@, 0);
        }
        while i < n
            invariant
                i <= n,
                n == r.len(),
                rest@.len() == n - i,
                forall|k: int| 0 <= k < rest@.len() ==> group_view(#[trigger] rest@[k]) == r[k + i],
                self.groups@.map_values(|g: (String, Vec<SubscriptionEntry>)| group_view(g))
                    == registry_unsubscribe(r.subrange(0, i as int), id@),
                found == (group_with_id_from(r, id@, 0) matches Some(k) && k < i),
            decreases n - i,
        {
            let ghost before = self.groups@;
            assert(group_view(rest@[0]) == r[i as int]);
            let (d, mut es) = rest.remove(0);
            let ghost ev = es@.map_values(|x: SubscriptionEntry| x@);
            assert(ev == r[i as int].1);
            proof {
                lemma_group_with_id_from(r, id@, 0);
                lemma_entry_index_from(ev, id@, 0);
            }
            match find_entry(&es, id) {
                Some(j) => {
                    es.remove(j);
                    found = true;
                    assert(es@.map_values(|x: SubscriptionEntry| x@) =~= ev.remove(j as int));
                },
                None => {},
            }
            let ghost nv = es@.map_values(|x: SubscriptionEntry| x@);
            assert(nv == remove_first_entry(r[i as int].1, id@));
            proof {
                let t = r.subrange(0, i + 1);
                assert(t.drop_last() =~= r.subrange(0, i as int));
                assert(t.last() == r[i as int]);
            }
            if es.len() > 0 {
                self.groups.push((d, es));
                assert(self.groups@.map_values(|g: (String, Vec<SubscriptionEntry>)| group_view(g))
                    =~= before.map_values(|g: (String, Vec<SubscriptionEntry>)| group_view(g)).push(
                    (r[i as int].0, nv),
                ));
            }
            assert forall|k: int| 0 <= k < rest@.len() implies group_view(#[trigger] rest@[k])
                == r[k + i + 1] by {}
            i += 1;
        }
        assert(r.subrange(0, n as int) =~= r);
        proof {
            lemma_unsubscribe_dests(r, id@);
            lemma_group_with_id_from(r, id@, 0);
        }
        found
    }

    /// The destination whose group first holds subscription `id`.
    pub fn destination_of(&self, id: &str) -> (d: Option<String>)
        ensures
            match (d, destination_of_id(self@, id@)) {
                (Some(x), Some(y)) => x@ == y,
                (None, None) => true,
                _ => false,
            },
    {
        let mut i: usize = 0;
        while i < self.groups.len()
            invariant
                i <= self.groups@.len(),
                group_with_id(self@, id@) == group_with_id_from(self@, id@, i as int),
            decreases self.groups@.len() - i,
        {
            assert(group_view(self.groups@[i as int]) == self@[i as int]);
            if find_entry(&self.groups[i].1, id).is_some() {
                return Some(self.groups[i].0.clone());
            }
            i += 1;
        }
        None
    }

    /// The `ack` mode of the first subscription with id `id`.
    pub fn ack_of(&self, id: &str) -> (a: Option<String>)
        ensures
            match (a, ack_of_id(self@, id@)) {
                (Some(x), Some(y)) => x@ == y,
                (None, None) => true,
                _ => false,
            },
    {
        let mut i: usize = 0;
        while i < self.groups.len()
            invariant
                i <= self.groups@.len(),
                group_with_id(self@, id@) == group_with_id_from(self@, id@, i as int),
            decreases self.groups@.len() - i,
        {
            assert(group_view(self.groups@[i as int]) == self@[i as int]);
            proof {
                lemma_entry_index_from(self@[i as int].1, id@, 0);
            }
            match find_entry(&self.groups[i].1, id) {
                Some(j) => {
                    assert(self@[i as int].1[j as int] == self.groups@[i as int].1@[j as int]@);
                    return Some(self.groups[i].1[j].ack.clone());
                },
                None => {},
            }
            i += 1;
        }
        None
    }

    /// Whether a subscription with id `id` needs acknowledgement (its mode is
    /// not `auto`).
    pub fn id_needs_ack(&self, id: &str) -> (b: bool)
        ensures
            b == id_needs_ack(self@, id@),
    {
        let mut i: usize = 0;
        while i < self.groups.len()
            invariant
                i <= self.groups@.len(),
                forall|a: int, b: int|
                    0 <= a < i && 0 <= b < self@[a].1.len() ==> !(self@[a].1[b].id == id@
                        && self@[a].1[b].ack != "auto"@),
            decreases self.groups@.len() - i,
        {
            let es = &self.groups[i].1;
            assert(group_view(self.groups@[i as int]) == self@[i as int]);
            let mut j: usize = 0;
            while j < es.len()
                invariant
                    i < self.groups@.len(),
                    es == self.groups@[i as int].1,
                    self@[i as int].1 == es@.map_values(|x: SubscriptionEntry| x@),
                    j <= es@.len(),
                    forall|b: int|
                        0 <= b < j ==> !(self@[i as int].1[b].id == id@ && self@[i as int].1[b].ack
                            != "auto"@),
                decreases es@.len() - j,
            {
                assert(self@[i as int].1[j as int] == es@[j as int]@);
                if chars_equal(es[j].id.as_str(), id) && !chars_equal(es[j].ack.as_str(), "auto") {
                    return true;
                }
                j += 1;
            }
            i += 1;
        }
        false
    }

    /// Whether a subscription to destination `d` needs acknowledgement.
    pub fn destination_needs_ack(&self, d: &str) -> (b: bool)
        ensures
            b == destination_needs_ack(self@, d@),
    {
        proof {
            lemma_find_group_from(self@, d@, 0);
        }
        match self.group_index(d) {
            Some(i) => {
                let es = &self.groups[i].1;
                assert(group_view(self.groups@[i as int]) == self@[i as int]);
                let mut j: usize = 0;
                while j < es.len()
                    invariant
                        i < self.groups@.len(),
                        es == self.groups@[i as int].1,
                        self@[i as int].1 == es@.map_values(|x: SubscriptionEntry| x@),
                        j <= es@.len(),
                        find_group(self@, d@) == Some(i as int),
                        forall|b: int| 0 <= b < j ==> self@[i as int].1[b].ack == "auto"@,
                    decreases es@.len() - j,
                {
                    assert(self@[i as int].1[j as int] == es@[j as int]@);
                    if !chars_equal(es[j].ack.as_str(), "auto") {
                        let ghost es_v = self@[i as int].1;
                        assert(es_v[j as int].ack != "auto"@);
                        assert(any_needs_ack(es_v));
                        return true;
                    }
                    j += 1;
                }
                false
            },
            None => false,
        }
    }

    /// Forgets destination `d` and its subscriptions. Returns whether it was
    /// known.
    pub fn remove_destination(&mut self, d: &str) -> (found: bool)
        requires
            old(self).wf(),
        ensures
            final(self).wf(),
            final(self)@ == registry_remove_destination(old(self)@, d@),
            found == (find_group(old(self)@, d@) is Some),
    {
        let ghost r = self@;
        proof {
            lemma_find_group_from(r, d@, 0);
        }
        match self.group_index(d) {
            Some(i) => {
                self.groups.remove(i);
                assert(self@ =~= r.remove(i as int));
                true
            },
            None => false,
        }
    }

    /// The ids of the subscriptions to destination `d`, in order.
    pub fn ids_of(&self, d: &str) -> (ids: Vec<String>)
        ensures
            ids@.map_values(|s: String| s@) == ids_of_destination(self@, d@),
    {
        let mut ids: Vec<String> = Vec::new();
        proof {
            lemma_find_group_from(self@, d@, 0);
        }
        match self.group_index(d) {
            Some(i) => {
                let es = &self.groups[i].1;
                assert(group_view(self.groups@[i as int]) == self@[i as int]);
                let ghost target = self@[i as int].1.map_values(|e: SpecEntry| e.id);
                let mut j: usize = 0;
                while j < es.len()
                    invariant
                        i < self.groups@.len(),
                        es == self.groups@[i as int].1,
                        self@[i as int].1 == es@.map_values(|x: SubscriptionEntry| x@),
                        target == self@[i as int].1.map_values(|e: SpecEntry| e.id),
                        j <= es@.len(),
                        ids@.map_values(|s: String| s@) == target.subrange(0, j as int),
                    decreases es@.len() - j,
                {
                    assert(self@[i as int].1[j as int] == es@[j as int]@);
                    let ghost before = ids@;
                    ids.push(es[j].id.clone());
                    assert(ids@.map_values(|s: String| s@) =~= before.map_values(|s: String| s@).push(
                        target[j as int],
                    ));
                    assert(target.subrange(0, j + 1) =~= target.subrange(0, j as int).push(
                        target[j as int],
                    ));
                    j += 1;
                }
                assert(target.subrange(0, es@.len() as int) =~= target);
            },
            None => {
                assert(ids@.map_values(|s: String| s@) =~= Seq::<Seq<char>>::empty());
            },
        }
        ids
    }

    /// Forgets subscription `id` of destination `d`, keeping the group.
    pub fn drop_entry(&mut self, d: &str, id: &str)
        requires
            old(self).wf(),
        ensures
            final(self).wf(),
            final(self)@ == registry_drop_entry(old(self)@, d@, id@),
    {
        let ghost r = self@;
        proof {
            lemma_find_group_from(r, d@, 0);
        }
        match self.group_index(d) {
            Some(i) => {
                let (dd, mut es) = self.groups.remove(i);
                let ghost ev = es@.map_values(|x: SubscriptionEntry| x@);
                assert(ev == r[i as int].1);
                proof {
                    lemma_entry_index_from(ev, id@, 0);
                }
                match find_entry(&es, id) {
                    Some(j) => {
                        es.remove(j);
                        assert(es@.map_values(|x: SubscriptionEntry| x@) =~= ev.remove(j as int));
                    },
                    None => {},
                }
                self.groups.insert(i, (dd, es));
                assert(self@ =~= r.update(i as int, (d@, remove_first_entry(r[i as int].1, id@))));
            },
            None => {},
        }
    }

    /// Every subscription as `(destination, id, ack, extra headers)`, group by
    /// group: what is sent again after a reconnect.
    pub fn snapshot(&self) -> (v: Vec<(String, String, String, Vec<(String, String)>)>)
        ensures
            v@.map_values(
                |x: (String, String, String, Vec<(String, String)>)|
                    (x.0@, SpecEntry { id: x.1@, ack: x.2@, headers: text_headers(x.3@) }),
            ) == registry_snapshot(self@),
    {
        let mut v: Vec<(String, String, String, Vec<(String, String)>)> = Vec::new();
        let mut i: usize = 0;
        while i < self.groups.len()
            invariant
                i <= self.groups@.len(),
                v@.map_values(
                    |x: (String, String, String, Vec<(String, String)>)|
                        (x.0@, SpecEntry { id: x.1@, ack: x.2@, headers: text_headers(x.3@) }),
                ) == registry_snapshot(self@.subrange(0, i as int)),
            decreases self.groups@.len() - i,
        {
            let d = &self.groups[i].0;
            let es = &self.groups[i].1;
            assert(group_view(self.groups@[i as int]) == self@[i as int]);
            let ghost base = registry_snapshot(self@.subrange(0, i as int));
            let ghost add = self@[i as int].1.map_values(|e: SpecEntry| (self@[i as int].0, e));
            let mut j: usize = 0;
            while j < es.len()
                invariant
                    i < self.groups@.len(),
                    d == self.groups@[i as int].0,
                    es == self.groups@[i as int].1,
                    self@[i as int].0 == d@,
                    self@[i as int].1 == es@.map_values(|x: SubscriptionEntry| x@),
                    add == self@[i as int].1.map_values(|e: SpecEntry| (self@[i as int].0, e)),
                    j <= es@.len(),
                    v@.map_values(
                        |x: (String, String, String, Vec<(String, String)>)|
                            (x.0@, SpecEntry { id: x.1@, ack: x.2@, headers: text_headers(x.3@) }),
                    ) == base + add.subrange(0, j as int),
                decreases es@.len() - j,
            {
                assert(self@[i as int].1[j as int] == es@[j as int]@);
                let ghost before = v@;
                let item = (d.clone(), es[j].id.clone(), es[j].ack.clone(), copy_headers(
                    &es[j].headers,
                ));
                v.push(item);
                assert(v@.map_values(
                    |x: (String, String, String, Vec<(String, String)>)|
                        (x.0@, SpecEntry { id: x.1@, ack: x.2@, headers: text_headers(x.3@) }),
                ) =~= before.map_values(
                    |x: (String, String, String, Vec<(String, String)>)|
                        (x.0@, SpecEntry { id: x.1@, ack: x.2@, headers: text_headers(x.3@) }),
                ).push(add[j as int]));
                assert(add.subrange(0, j + 1) =~= add.subrange(0, j as int).push(add[j as int]));
                j += 1;
            }
            proof {
                let t = self@.subrange(0, i + 1);
                assert(t.drop_last() =~= self@.subrange(0, i as int));
                assert(t.last() == self@[i as int]);
                assert(add.subrange(0, es@.len() as int) =~= add);
            }
            i += 1;
        }
        assert(self@.subrange(0, self.groups@.len() as int) =~= self@);
        v
    }
}


// ---------------------------------------------------------------------------
// Messages waiting for acknowledgement
// ---------------------------------------------------------------------------

/// For each subscription id, the messages delivered to it that still wait
/// for ACK or NACK, as `(message-id, frame)` in delivery order.
pub type SpecPending = Seq<(Seq<char>, Seq<(Seq<char>, SpecFrame)>)>;

/// The index of the queue of subscription `sub`, searching from `i`.
pub open spec fn find_queue_from(p: SpecPending, sub: Seq<char>, i: int) -> Option<int>
    decreases p.len() - i,
{
    if i < 0 || i >= p.len() {
        None
    } else if p[i].0 == sub {
        Some(i)
    } else {
        find_queue_from(p, sub, i + 1)
    }
}

/// The index of the queue of subscription `sub`.
pub open spec fn find_queue(p: SpecPending, sub: Seq<char>) -> Option<int> {
    find_queue_from(p, sub, 0)
}

/// The position of the first message `m` in queue `q`, searching from `i`.
pub open spec fn message_index_from(q: Seq<(Seq<char>, SpecFrame)>, m: Seq<char>, i: int) -> Option<
    int,
>
    decreases q.len() - i,
{
    if i < 0 || i >= q.len() {
        None
    } else if q[i].0 == m {
        Some(i)
    } else {
        message_index_from(q, m, i + 1)
    }
}

/// The position of the first message `m` in queue `q`.
pub open spec fn message_index(q: Seq<(Seq<char>, SpecFrame)>, m: Seq<char>) -> Option<int> {
    message_index_from(q, m, 0)
}

/// Whether no two queues belong to the same subscription.
pub open spec fn distinct_queues(p: SpecPending) -> bool {
    forall|i: int, j: int| 0 <= i < j < p.len() ==> p[i].0 != p[j].0
}

/// The pending messages after message `m` with frame `f` was delivered to
/// subscription `sub`.
pub open spec fn pending_push(p: SpecPending, sub: Seq<char>, m: Seq<char>, f: SpecFrame) -> SpecPending {
    match find_queue(p, sub) {
        Some(i) => p.update(i, (sub, p[i].1.push((m, f)))),
        None => p.push((sub, seq![(m, f)])),
    }
}

/// The queue `q` after message number `k` is acknowledged: cumulatively it
/// loses every message up to and including `k`, otherwise only `k`.
pub open spec fn settled_queue(q: Seq<(Seq<char>, SpecFrame)>, k: int, cumulative: bool) -> Seq<
    (Seq<char>, SpecFrame),
> {
    if cumulative {
        q.subrange(k + 1, q.len() as int)
    } else {
        q.remove(k)
    }
}

/// The pending messages after message `m` of subscription `sub` is
/// acknowledged (or negatively acknowledged); a queue left empty is dropped.
/// Nothing changes when `m` is not pending for `sub`.
pub open spec fn pending_settle(p: SpecPending, sub: Seq<char>, m: Seq<char>, cumulative: bool) -> SpecPending {
    match find_queue(p, sub) {
        Some(i) => match message_index(p[i].1, m) {
            Some(k) => {
                let q = settled_queue(p[i].1, k, cumulative);
                if q.len() == 0 {
                    p.remove(i)
                } else {
                    p.update(i, (sub, q))
                }
            },
            None => p,
        },
        None => p,
    }
}

/// Whether message `m` is pending for subscription `sub`.
pub open spec fn is_pending(p: SpecPending, sub: Seq<char>, m: Seq<char>) -> bool {
    match find_queue(p, sub) {
        Some(i) => message_index(p[i].1, m) is Some,
        None => false,
    }
}

/// The ids of the messages pending for `sub`, in delivery order.
pub open spec fn pending_ids(p: SpecPending, sub: Seq<char>) -> Seq<Seq<char>> {
    match find_queue(p, sub) {
        Some(i) => p[i].1.map_values(|x: (Seq<char>, SpecFrame)| x.0),
        None => Seq::empty(),
    }
}

/// Whether pending item `x` is the message that id `id` names: its
/// `message-id`, or the `ack` header its frame carried.
pub open spec fn names_message(x: (Seq<char>, SpecFrame), id: Seq<char>) -> bool {
    x.0 == id || lookup_header(x.1.headers, "ack"@) == Some(id)
}

/// The position of the first item of `q` from `i` that `id` names.
pub open spec fn named_index_from(q: Seq<(Seq<char>, SpecFrame)>, id: Seq<char>, i: int) -> Option<
    int,
>
    decreases q.len() - i,
{
    if i < 0 || i >= q.len() {
        None
    } else if names_message(q[i], id) {
        Some(i)
    } else {
        named_index_from(q, id, i + 1)
    }
}

/// The first message pending for `sub` that `id` names.
pub open spec fn named_pending(p: SpecPending, sub: Seq<char>, id: Seq<char>) -> Option<
    (Seq<char>, SpecFrame),
> {
    match find_queue(p, sub) {
        Some(i) => match named_index_from(p[i].1, id, 0) {
            Some(k) => Some(p[i].1[k]),
            None => None,
        },
        None => None,
    }
}

/// The `message-id` that an ACK or NACK of `id` for `sub` settles: that of
/// the pending message `id` names, else `id` itself.
pub open spec fn settle_key(p: SpecPending, sub: Seq<char>, id: Seq<char>) -> Seq<char> {
    match named_pending(p, sub, id) {
        Some(x) => x.0,
        None => id,
    }
}

/// The id an ACK or NACK of `id` for `sub` carries: the `ack` header of the
/// pending message `id` names (STOMP 1.2), else its `message-id` (STOMP 1.0
/// and 1.1); an id that names no pending message is sent as given.
pub open spec fn wire_ack_id(p: SpecPending, sub: Seq<char>, id: Seq<char>) -> Seq<char> {
    match named_pending(p, sub, id) {
        Some(x) => match lookup_header(x.1.headers, "ack"@) {
            Some(a) => a,
            None => x.0,
        },
        None => id,
    }
}

pub proof fn lemma_find_queue_from(p: SpecPending, sub: Seq<char>, i: int)
    requires
        0 <= i,
    ensures
        match find_queue_from(p, sub, i) {
            Some(k) => i <= k < p.len() && p[k].0 == sub && forall|m: int|
                i <= m < k ==> p[m].0 != sub,
            None => forall|m: int| i <= m < p.len() ==> p[m].0 != sub,
        },
    decreases p.len() - i,
{
    if i < p.len() && p[i].0 != sub {
        lemma_find_queue_from(p, sub, i + 1);
    }
}

pub proof fn lemma_message_index_from(q: Seq<(Seq<char>, SpecFrame)>, m: Seq<char>, i: int)
    requires
        0 <= i,
    ensures
        match message_index_from(q, m, i) {
            Some(k) => i <= k < q.len() && q[k].0 == m && forall|j: int|
                i <= j < k ==> q[j].0 != m,
            None => forall|j: int| i <= j < q.len() ==> q[j].0 != m,
        },
    decreases q.len() - i,
{
    if i < q.len() && q[i].0 != m {
        lemma_message_index_from(q, m, i + 1);
    }
}

/// The abstract value of one subscription's queue.
pub open spec fn queue_view(q: (String, Vec<(String, Frame)>)) -> (Seq<char>, Seq<(Seq<char>, SpecFrame)>) {
    (q.0@, q.1@.map_values(|x: (String, Frame)| (x.0@, x.1@)))
}

/// The position of the first message `m` in `q`.
fn find_message(q: &Vec<(String, Frame)>, m: &str) -> (r: Option<usize>)
    ensures
        match (r, message_index(q@.map_values(|x: (String, Frame)| (x.0@, x.1@)), m@)) {
            (Some(k), Some(j)) => k == j,
            (None, None) => true,
            _ => false,
        },
{
    let ghost v = q@.map_values(|x: (String, Frame)| (x.0@, x.1@));
    let mut i: usize = 0;
    while i < q.len()
        invariant
            i <= q@.len(),
            v == q@.map_values(|x: (String, Frame)| (x.0@, x.1@)),
            message_index(v, m@) == message_index_from(v, m@, i as int),
        decreases q@.len() - i,
    {
        if chars_equal(q[i].0.as_str(), m) {
            return Some(i);
        }
        i += 1;
    }
    None
}

/// The messages of a connection that wait for ACK or NACK.
#[derive(Debug)]
pub struct PendingAcks {
    queues: Vec<(String, Vec<(String, Frame)>)>,
}

impl View for PendingAcks {
    type V = SpecPending;

    closed spec fn view(&self) -> SpecPending {
        self.queues@.map_values(|q: (String, Vec<(String, Frame)>)| queue_view(q))
    }
}

impl PendingAcks {
    /// Whether no two queues belong to the same subscription.
    pub closed spec fn wf(&self) -> bool {
        distinct_queues(self@)
    }

    /// Nothing pending.
    pub fn new() -> (p: PendingAcks)
        ensures
            p@ == SpecPending::empty(),
            p.wf(),
    {
        let p = PendingAcks { queues: Vec::new() };
        assert(p@ =~= SpecPending::empty());
        p
    }

    /// Forgets every pending message (after a reconnect the broker delivers
    /// them again as it sees fit).
    pub fn clear(&mut self)
        ensures
            final(self)@ == SpecPending::empty(),
            final(self).wf(),
    {
        self.queues.clear();
        assert(self@ =~= SpecPending::empty());
    }

    /// The index of the queue of subscription `sub`.
    fn queue_index(&self, sub: &str) -> (r: Option<usize>)
        ensures
            match (r, find_queue(self@, sub@)) {
                (Some(k), Some(j)) => k == j,
                (None, None) => true,
                _ => false,
            },
    {
        let mut i: usize = 0;
        while i < self.queues.len()
            invariant
                i <= self.queues@.len(),
                find_queue(self@, sub@) == find_queue_from(self@, sub@, i as int),
            decreases self.queues@.len() - i,
        {
            if chars_equal(self.queues[i].0.as_str(), sub) {
                return Some(i);
            }
            i += 1;
        }
        None
    }

    /// Records message `msg_id` with frame `frame` as delivered to
    /// subscription `sub` and waiting for acknowledgement.
    pub fn push(&mut self, sub: &str, msg_id: &str, frame: Frame)
        requires
            old(self).wf(),
        ensures
            final(self).wf(),
            final(self)@ == pending_push(old(self)@, sub@, msg_id@, frame@),
    {
        let ghost p = self@;
        let ghost item = (msg_id@, frame@);
        proof {
            lemma_find_queue_from(p, sub@, 0);
        }
        match self.queue_index(sub) {
            Some(i) => {
                let (s, mut q) = self.queues.remove(i);
                let ghost old_q = q@;
                q.push((msg_id.to_owned(), frame));
                assert(q@.map_values(|x: (String, Frame)| (x.0@, x.1@)) =~= old_q.map_values(
                    |x: (String, Frame)| (x.0@, x.1@),
                ).push(item));
                self.queues.insert(i, (s, q));
                assert(self@ =~= p.update(i as int, (sub@, p[i as int].1.push(item))));
            },
            None => {
                let mut q: Vec<(String, Frame)> = Vec::new();
                q.push((msg_id.to_owned(), frame));
                assert(q@.map_values(|x: (String, Frame)| (x.0@, x.1@)) =~= seq![item]);
                self.queues.push((sub.to_owned(), q));
                assert(self@ =~= p.push((sub@, seq![item])));
            },
        }
    }

    /// Settles message `msg_id` of subscription `sub`: with `cumulative` it
    /// and every message delivered before it to `sub` leave the queue
    /// (`client` mode), otherwise only it does (`client-individual`).
    /// Returns whether the message was pending.
    pub fn settle(&mut self, sub: &str, msg_id: &str, cumulative: bool) -> (found: bool)
        requires
            old(self).wf(),
        ensures
            final(self).wf(),
            final(self)@ == pending_settle(old(self)@, sub@, msg_id@, cumulative),
            found == is_pending(old(self)@, sub@, msg_id@),
    {
        let ghost p = self@;
        proof {
            lemma_find_queue_from(p, sub@, 0);
        }
        match self.queue_index(sub) {
            Some(i) => {
                let (s, mut q) = self.queues.remove(i);
                let ghost qv = q@.map_values(|x: (String, Frame)| (x.0@, x.1@));
                assert(qv == p[i as int].1);
                proof {
                    lemma_message_index_from(qv, msg_id@, 0);
                }
                let k = match find_message(&q, msg_id) {
                    Some(k) => k,
                    None => {
                        self.queues.insert(i, (s, q));
                        assert(self@ =~= p);
                        return false;
                    },
                };
                assert(message_index(qv, msg_id@) == Some(k as int));
                let qlen = q.len();
                assert(qv.len() == qlen);
                if cumulative {
                    let mut n: usize = 0;
                    while n <= k
                        invariant
                            k < qv.len(),
                            qv.len() <= usize::MAX,
                            n <= k + 1,
                            q@.map_values(|x: (String, Frame)| (x.0@, x.1@)) == qv.subrange(
                                n as int,
                                qv.len() as int,
                            ),
                        decreases k + 1 - n,
                    {
                        let ghost before = q@;
                        assert(q@.map_values(|x: (String, Frame)| (x.0@, x.1@)).len() == q@.len());
                        assert(q@.len() == qv.len() - n);
                        q.remove(0);
                        assert(q@ =~= before.subrange(1, before.len() as int));
                        assert forall|j: int| 0 <= j < q@.len() implies (q@[j].0@, q@[j].1@)
                            == qv[n + 1 + j] by {
                            assert(q@[j] == before[j + 1]);
                            assert(before.map_values(|x: (String, Frame)| (x.0@, x.1@))[j + 1]
                                == qv.subrange(n as int, qv.len() as int)[j + 1]);
                        }
                        assert(q@.map_values(|x: (String, Frame)| (x.0@, x.1@)) =~= qv.subrange(
                            n + 1,
                            qv.len() as int,
                        ));
                        n += 1;
                    }
                } else {
                    q.remove(k);
                    assert(q@.map_values(|x: (String, Frame)| (x.0@, x.1@)) =~= qv.remove(
                        k as int,
                    ));
                }
                let ghost nq = q@.map_values(|x: (String, Frame)| (x.0@, x.1@));
                assert(nq == settled_queue(qv, k as int, cumulative));
                if q.len() > 0 {
                    self.queues.insert(i, (s, q));
                    assert(self@ =~= p.update(i as int, (sub@, nq)));
                } else {
                    assert(self@ =~= p.remove(i as int));
                }
                true
            },
            None => false,
        }
    }

    /// The `message-id` to settle and the id to send for an ACK or NACK of
    /// `id` for subscription `sub`.
    pub fn resolve(&self, sub: &str, id: &str) -> (r: (String, String))
        ensures
            r.0@ == settle_key(self@, sub@, id@),
            r.1@ == wire_ack_id(self@, sub@, id@),
    {
        proof {
            lemma_find_queue_from(self@, sub@, 0);
        }
        match self.queue_index(sub) {
            Some(i) => {
                let q = &self.queues[i].1;
                let ghost v = self@[i as int].1;
                assert(v == q@.map_values(|x: (String, Frame)| (x.0@, x.1@)));
                let mut j: usize = 0;
                while j < q.len()
                    invariant
                        i < self.queues@.len(),
                        q == self.queues@[i as int].1,
                        v == self@[i as int].1,
                        v == q@.map_values(|x: (String, Frame)| (x.0@, x.1@)),
                        j <= q@.len(),
                        named_index_from(v, id@, 0) == named_index_from(v, id@, j as int),
                        find_queue(self@, sub@) == Some(i as int),
                    decreases q@.len() - j,
                {
                    let ack = q[j].1.get_header("ack");
                    let by_ack = match ack {
                        Some(a) => chars_equal(a, id),
                        None => false,
                    };
                    if chars_equal(q[j].0.as_str(), id) || by_ack {
                        assert(v[j as int] == (q@[j as int].0@, q@[j as int].1@));
                        assert(names_message(v[j as int], id@));
                        let wire = match ack {
                            Some(a) => a.to_owned(),
                            None => q[j].0.clone(),
                        };
                        assert(named_index_from(v, id@, j as int) == Some(j as int));
                        assert(find_queue(self@, sub@) == Some(i as int));
                        assert(named_pending(self@, sub@, id@) == Some(v[j as int]));
                        let key = q[j].0.clone();
                        assert(key@ == v[j as int].0);
                        return (key, wire);
                    }
                    assert(v[j as int] == (q@[j as int].0@, q@[j as int].1@));
                    j += 1;
                }
                (id.to_owned(), id.to_owned())
            },
            None => (id.to_owned(), id.to_owned()),
        }
    }

    /// The ids of the messages pending for `sub`, in delivery order.
    pub fn pending_ids(&self, sub: &str) -> (ids: Vec<String>)
        ensures
            ids@.map_values(|s: String| s@) == pending_ids(self@, sub@),
    {
        let mut ids: Vec<String> = Vec::new();
        proof {
            lemma_find_queue_from(self@, sub@, 0);
        }
        match self.queue_index(sub) {
            Some(i) => {
                let q = &self.queues[i].1;
                let ghost target = self@[i as int].1.map_values(
                    |x: (Seq<char>, SpecFrame)| x.0,
                );
                let mut j: usize = 0;
                while j < q.len()
                    invariant
                        i < self.queues@.len(),
                        q == self.queues@[i as int].1,
                        self@[i as int].1 == q@.map_values(|x: (String, Frame)| (x.0@, x.1@)),
                        target == self@[i as int].1.map_values(|x: (Seq<char>, SpecFrame)| x.0),
                        j <= q@.len(),
                        ids@.map_values(|s: String| s@) == target.subrange(0, j as int),
                    decreases q@.len() - j,
                {
                    let ghost before = ids@;
                    ids.push(q[j].0.clone());
                    assert(ids@.map_values(|s: String| s@) =~= before.map_values(|s: String| s@).push(
                        target[j as int],
                    ));
                    assert(target.subrange(0, j + 1) =~= target.subrange(0, j as int).push(
                        target[j as int],
                    ));
                    j += 1;
                }
                assert(target.subrange(0, q@.len() as int) =~= target);
            },
            None => {
                assert(ids@.map_values(|s: String| s@) =~= Seq::<Seq<char>>::empty());
            },
        }
        ids
    }
}

} // verus!
