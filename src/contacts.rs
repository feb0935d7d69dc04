//! The contacts tracker: which peers are currently in radio contact.

use vstd::prelude::*;

use crate::msg::{Msg, NodeDesc, NodeDescView, GCS_ID};
use crate::vector::{advance, advance_spec, dist_sq, dist_sq_spec, PosVec};

verus! {

/// Hysteresis of entry into contact, in thousandths of the contact range.
pub const DEFAULT_IN_RANGE_THRESHOLD_PERMILLE: u32 = 900;

/// Silence after which a contact is dropped, in milliseconds.
pub const DEFAULT_LOST_DURATION: u64 = 3000;

/// Within `range` millimetres.
pub open spec fn within(p: PosVec, q: PosVec, range: nat) -> bool {
    dist_sq_spec(p, q) <= range * range
}

/// Within `permille` thousandths of `range` millimetres.
pub open spec fn within_permille(p: PosVec, q: PosVec, range: nat, permille: nat) -> bool {
    dist_sq_spec(p, q) * 1_000_000 <= (range * permille) * (range * permille)
}

/// Elapsed milliseconds from `from` to `now`, zero if `now` is earlier.
pub open spec fn elapsed(from: u64, now: u64) -> nat {
    if now >= from {
        (now - from) as nat
    } else {
        0
    }
}

/// A peer in contact: its latest header and when it was heard.
pub struct Contact {
    pub desc: NodeDesc,
    pub last_heard: u64,
}

/// Mathematical value of a contact.
pub struct ContactView {
    pub desc: NodeDescView,
    pub last_heard: u64,
}

impl View for Contact {
    type V = ContactView;

    open spec fn view(&self) -> ContactView {
        ContactView { desc: self.desc@, last_heard: self.last_heard }
    }
}

impl Contact {
    /// Where the peer is now, by dead reckoning from where it was heard.
    pub fn predict_p(&self, now: u64) -> (r: PosVec)
        ensures
            r == advance_spec(self.desc.p, self.desc.v, elapsed(self.last_heard, now) as int),
    {
        let dt: u64 = if now >= self.last_heard { now - self.last_heard } else { 0 };
        advance(&self.desc.p, &self.desc.v, dt)
    }

    pub fn from_msg(msg_time: u64, msg: &Msg) -> (r: Contact)
        ensures
            r@ == (ContactView { desc: msg.sender@, last_heard: msg_time }),
    {
        Contact { desc: msg.sender.copy(), last_heard: msg_time }
    }

    pub fn update_from_msg(&mut self, msg_time: u64, msg: &Msg)
        ensures
            final(self)@ == (ContactView { desc: msg.sender@, last_heard: msg_time }),
    {
        self.desc = msg.sender.copy();
        self.last_heard = msg_time;
    }
}

/// The contacts as a map from peer id, later entries taking precedence.
pub open spec fn contacts_map(cs: Seq<Contact>) -> Map<u32, ContactView>
    decreases cs.len(),
{
    if cs.len() == 0 {
        Map::empty()
    } else {
        contacts_map(cs.drop_last()).insert(cs.last().desc@.id(), cs.last()@)
    }
}

/// Each contact has a well-formed header and no two share an id.
pub open spec fn contacts_wf(cs: Seq<Contact>) -> bool {
    &&& forall|i: int| 0 <= i < cs.len() ==> (#[trigger] cs[i]).desc.nid@.len() > 0
    &&& forall|i: int, j: int|
        0 <= i < j < cs.len() ==> (#[trigger] cs[i]).desc@.id() != (#[trigger] cs[j]).desc@.id()
}

proof fn lemma_map_dom(cs: Seq<Contact>, id: u32)
    ensures
        contacts_map(cs).contains_key(id) <==> exists|k: int|
            0 <= k < cs.len() && (#[trigger] cs[k]).desc@.id() == id,
    decreases cs.len(),
{
    if cs.len() > 0 {
        lemma_map_dom(cs.drop_last(), id);
        if contacts_map(cs.drop_last()).contains_key(id) {
            let k = choose|k: int| 0 <= k < cs.drop_last().len() && (#[trigger] cs.drop_last()[k]).desc@.id() == id;
            assert(cs[k] == cs.drop_last()[k]);
        }
        if exists|k: int| 0 <= k < cs.len() && (#[trigger] cs[k]).desc@.id() == id {
            let k = choose|k: int| 0 <= k < cs.len() && (#[trigger] cs[k]).desc@.id() == id;
            if k < cs.len() - 1 {
                assert(cs.drop_last()[k] == cs[k]);
            }
        }
    }
}

proof fn lemma_map_at(cs: Seq<Contact>, k: int)
    requires
        contacts_wf(cs),
        0 <= k < cs.len(),
    ensures
        contacts_map(cs).contains_key(cs[k].desc@.id()),
        contacts_map(cs)[cs[k].desc@.id()] == cs[k]@,
    decreases cs.len(),
{
    if k < cs.len() - 1 {
        lemma_map_at(cs.drop_last(), k);
        assert(cs.drop_last()[k] == cs[k]);
        assert(cs[k].desc@.id() != cs[cs.len() - 1].desc@.id());
    }
}

proof fn lemma_map_update(cs: Seq<Contact>, k: int, c: Contact)
    requires
        contacts_wf(cs),
        0 <= k < cs.len(),
        c.desc@.id() == cs[k].desc@.id(),
    ensures
        contacts_map(cs.update(k, c)) == contacts_map(cs).insert(c.desc@.id(), c@),
    decreases cs.len(),
{
    let cs2 = cs.update(k, c);
    if k == cs.len() - 1 {
        assert(cs2.drop_last() =~= cs.drop_last());
        assert(contacts_map(cs2) =~= contacts_map(cs).insert(c.desc@.id(), c@));
    } else {
        assert(cs2.drop_last() =~= cs.drop_last().update(k, c));
        lemma_map_update(cs.drop_last(), k, c);
        assert(cs[k].desc@.id() != cs.last().desc@.id());
        assert(contacts_map(cs2) =~= contacts_map(cs).insert(c.desc@.id(), c@));
    }
}

proof fn lemma_map_remove(cs: Seq<Contact>, k: int)
    requires
        contacts_wf(cs),
        0 <= k < cs.len(),
    ensures
        contacts_map(cs.remove(k)) == contacts_map(cs).remove(cs[k].desc@.id()),
    decreases cs.len(),
{
    let id = cs[k].desc@.id();
    let cs2 = cs.remove(k);
    if k == cs.len() - 1 {
        assert(cs2 =~= cs.drop_last());
        lemma_map_dom(cs.drop_last(), id);
        assert forall|j: int| 0 <= j < cs.drop_last().len() implies (#[trigger] cs.drop_last()[j]).desc@.id() != id by {
            assert(cs.drop_last()[j] == cs[j]);
        }
        assert(contacts_map(cs2) =~= contacts_map(cs).remove(id));
    } else {
        assert(cs2.drop_last() =~= cs.drop_last().remove(k));
        assert(cs2.last() == cs.last());
        lemma_map_remove(cs.drop_last(), k);
        assert(cs.drop_last()[k] == cs[k]);
        assert(contacts_map(cs2) =~= contacts_map(cs).remove(id));
    }
}

/// A message whose sender is a UAV with a well-formed header.
pub open spec fn from_uav(m: Msg) -> bool {
    m.sender.nid@.len() > 0 && m.sender@.id() != GCS_ID
}

/// A message from the ground control station.
pub open spec fn from_gcs(m: Msg) -> bool {
    m.sender.nid@.len() > 0 && m.sender@.id() == GCS_ID
}

/// Index of the latest of the first `n` messages sent by UAV `id`.
pub open spec fn latest_msg(msgs: Seq<Msg>, n: int, id: u32) -> Option<int>
    decreases n,
{
    if n <= 0 {
        None
    } else if from_uav(msgs[n - 1]) && msgs[n - 1].sender@.id() == id {
        Some(n - 1)
    } else {
        latest_msg(msgs, n - 1, id)
    }
}

/// What is known of `id` after its latest message (if any) is applied to
/// `old`: a tracked peer farther than `range` is dropped, otherwise
/// refreshed; an untracked one enters only within the entry threshold.
pub open spec fn after_msg(
    old: Map<u32, ContactView>,
    msgs: Seq<Msg>,
    p: PosVec,
    range: nat,
    permille: nat,
    now: u64,
    id: u32,
) -> Option<ContactView> {
    match latest_msg(msgs, msgs.len() as int, id) {
        None => if old.contains_key(id) {
            Some(old[id])
        } else {
            None
        },
        Some(i) => {
            let q = msgs[i].sender.p;
            let c = ContactView { desc: msgs[i].sender@, last_heard: now };
            if old.contains_key(id) {
                if within(q, p, range) {
                    Some(c)
                } else {
                    None
                }
            } else if within_permille(q, p, range, permille) {
                Some(c)
            } else {
                None
            }
        },
    }
}

/// A contact silent for longer than `lost` milliseconds is lost.
pub open spec fn is_lost(c: ContactView, lost: u64, now: u64) -> bool {
    elapsed(c.last_heard, now) > lost
}

/// What is known of `id` after a whole update: the messages, then the
/// sweep of lost contacts.
pub open spec fn after_update(
    old: Map<u32, ContactView>,
    msgs: Seq<Msg>,
    p: PosVec,
    range: nat,
    permille: nat,
    lost: u64,
    now: u64,
    id: u32,
) -> Option<ContactView> {
    match after_msg(old, msgs, p, range, permille, now, id) {
        Some(c) => if is_lost(c, lost, now) {
            None
        } else {
            Some(c)
        },
        None => None,
    }
}

/// The value of `id` in a map, if any.
pub open spec fn map_get(m: Map<u32, ContactView>, id: u32) -> Option<ContactView> {
    if m.contains_key(id) {
        Some(m[id])
    } else {
        None
    }
}

/// Indices of the first `n` messages that come from the ground station.
pub open spec fn gcs_indices(msgs: Seq<Msg>, n: int) -> Seq<usize>
    decreases n,
{
    if n <= 0 {
        Seq::empty()
    } else if from_gcs(msgs[n - 1]) {
        gcs_indices(msgs, n - 1).push((n - 1) as usize)
    } else {
        gcs_indices(msgs, n - 1)
    }
}

/// Indices of the first `n` messages whose sender is in `m`.
pub open spec fn tracked_indices(msgs: Seq<Msg>, n: int, m: Map<u32, ContactView>) -> Seq<usize>
    decreases n,
{
    if n <= 0 {
        Seq::empty()
    } else if msgs[n - 1].sender.nid@.len() > 0 && m.contains_key(msgs[n - 1].sender@.id()) {
        tracked_indices(msgs, n - 1, m).push((n - 1) as usize)
    } else {
        tracked_indices(msgs, n - 1, m)
    }
}

/// What one update reports: peers that came into contact, peers that went
/// out of it, and the indices of the messages to act on.
pub struct ContactsUpdate {
    pub added: Vec<u32>,
    pub removed: Vec<u32>,
    pub msgs: Vec<usize>,
}

/// Tracks the peers in contact.
pub struct Contacts {
    pub p_self: PosVec,
    pub contacts_in_range: Vec<Contact>,
    /// Millimetres.
    pub contact_range: u32,
    /// Thousandths of the contact range.
    pub in_range_threshold: u32,
    /// Milliseconds.
    pub lost_duration: u64,
}

impl Contacts {
    pub open spec fn wf(&self) -> bool {
        contacts_wf(self.contacts_in_range@) && self.in_range_threshold <= 1000
    }

    /// The peers in contact, by id.
    pub open spec fn map(&self) -> Map<u32, ContactView> {
        contacts_map(self.contacts_in_range@)
    }

    pub fn new(p: &PosVec, contact_range: u32) -> (r: Contacts)
        ensures
            r.wf(),
            r.map() == Map::<u32, ContactView>::empty(),
            r.p_self == *p,
            r.contact_range == contact_range,
            r.in_range_threshold == DEFAULT_IN_RANGE_THRESHOLD_PERMILLE,
            r.lost_duration == DEFAULT_LOST_DURATION,
    {
        Contacts {
            p_self: *p,
            contacts_in_range: Vec::new(),
            contact_range,
            in_range_threshold: DEFAULT_IN_RANGE_THRESHOLD_PERMILLE,
            lost_duration: DEFAULT_LOST_DURATION,
        }
    }

    /// The peers currently in contact.
    pub fn get_contacts(&self) -> (r: &Vec<Contact>)
        ensures
            r == &self.contacts_in_range,
    {
        &self.contacts_in_range
    }

    /// Position in the list of the contact with id `id`.
    pub fn find(&self, id: u32) -> (r: Option<usize>)
        requires
            self.wf(),
        ensures
            r matches Some(k) ==> k < self.contacts_in_range@.len()
                && self.contacts_in_range@[k as int].desc@.id() == id,
            r is None ==> !self.map().contains_key(id),
    {
        let mut k: usize = 0;
        while k < self.contacts_in_range.len()
            invariant
                self.wf(),
                k <= self.contacts_in_range@.len(),
                forall|j: int| 0 <= j < k ==> (#[trigger] self.contacts_in_range@[j]).desc@.id() != id,
            decreases self.contacts_in_range.len() - k,
        {
            if self.contacts_in_range[k].desc.get_id() == id {
                return Some(k);
            }
            k += 1;
        }
        proof {
            lemma_map_dom(self.contacts_in_range@, id);
        }
        None
    }
}

/// The peers of `m` that are not lost.
pub open spec fn drop_lost(m: Map<u32, ContactView>, lost: u64, now: u64) -> Map<u32, ContactView> {
    Map::new(|id: u32| m.contains_key(id) && !is_lost(m[id], lost, now), |id: u32| m[id])
}

/// What is known of `id` once the first `i` messages have been looked at.
pub open spec fn after_first(
    old: Map<u32, ContactView>,
    msgs: Seq<Msg>,
    p: PosVec,
    range: nat,
    permille: nat,
    now: u64,
    i: int,
    id: u32,
) -> Option<ContactView> {
    match latest_msg(msgs, msgs.len() as int, id) {
        Some(k) => if k < i {
            after_msg(old, msgs, p, range, permille, now, id)
        } else {
            map_get(old, id)
        },
        None => map_get(old, id),
    }
}

/// The latest message of `id` is among the first `i`.
pub open spec fn heard_in_first(msgs: Seq<Msg>, i: int, id: u32) -> bool {
    latest_msg(msgs, msgs.len() as int, id) matches Some(k) && k < i
}

pub proof fn lemma_push_contains(s: Seq<u32>, v: u32, x: u32)
    ensures
        s.push(v).contains(x) <==> s.contains(x) || x == v,
{
    if s.contains(x) {
        let k = choose|k: int| 0 <= k < s.len() && s[k] == x;
        assert(s.push(v)[k] == x);
    }
    if x == v {
        assert(s.push(v)[s.len() as int] == v);
    }
    if s.push(v).contains(x) {
        let k = choose|k: int| 0 <= k < s.push(v).len() && s.push(v)[k] == x;
        if k < s.len() {
            assert(s[k] == x);
        }
    }
}

pub proof fn lemma_push_no_dup(s: Seq<u32>, v: u32)
    requires
        s.no_duplicates(),
        !s.contains(v),
    ensures
        s.push(v).no_duplicates(),
{
    assert forall|a: int, b: int| 0 <= a < s.push(v).len() && 0 <= b < s.push(v).len() && a != b implies
        s.push(v)[a] != s.push(v)[b] by {
        if a < s.len() && b < s.len() {
        } else if a < s.len() {
            assert(s.contains(s[a]));
        } else if b < s.len() {
            assert(s.contains(s[b]));
        }
    }
}

proof fn lemma_latest_msg(msgs: Seq<Msg>, n: int, id: u32)
    requires
        0 <= n <= msgs.len(),
    ensures
        latest_msg(msgs, n, id) matches Some(k) ==> 0 <= k < n && from_uav(msgs[k])
            && msgs[k].sender@.id() == id && forall|j: int|
            k < j < n ==> !(from_uav(#[trigger] msgs[j]) && msgs[j].sender@.id() == id),
        latest_msg(msgs, n, id) is None ==> forall|j: int|
            0 <= j < n ==> !(from_uav(#[trigger] msgs[j]) && msgs[j].sender@.id() == id),
    decreases n,
{
    if n > 0 {
        lemma_latest_msg(msgs, n - 1, id);
    }
}

impl Contacts {
    /// Whether message `i` is the latest from its sender.
    fn is_latest(msgs_in: &Vec<Msg>, i: usize) -> (r: bool)
        requires
            i < msgs_in@.len(),
            from_uav(msgs_in@[i as int]),
        ensures
            r == (latest_msg(msgs_in@, msgs_in@.len() as int, msgs_in@[i as int].sender@.id()) == Some(
                i as int,
            )),
    {
        let id = msgs_in[i].sender.get_id();
        let last: usize = msgs_in.len() - 1;
        let mut j: usize = i;
        while j < last
            invariant
                i <= j <= last,
                last == msgs_in@.len() - 1,
                id == msgs_in@[i as int].sender@.id(),
                forall|q: int|
                    i < q <= j ==> !(from_uav(#[trigger] msgs_in@[q]) && msgs_in@[q].sender@.id() == id),
            decreases last - j,
        {
            j += 1;
            let m = &msgs_in[j];
            if m.sender.nid.len() > 0 && m.sender.get_id() != GCS_ID && m.sender.get_id() == id {
                proof {
                    lemma_latest_msg(msgs_in@, msgs_in@.len() as int, id);
                }
                return false;
            }
        }
        proof {
            lemma_latest_msg(msgs_in@, msgs_in@.len() as int, id);
            let l = latest_msg(msgs_in@, msgs_in@.len() as int, id);
            if l != Some(i as int) {
                assert(l matches Some(k) && k > i) by {
                    if l is None {
                        assert(from_uav(msgs_in@[i as int]));
                    }
                }
            }
        }
        true
    }

    /// Applies to the tracked peers the latest message of each sender.
    /// Returns the ids that came into contact and those that went out.
    pub fn update_by_msg_positions(&mut self, msg_time: u64, msgs_in: &Vec<Msg>) -> (r: (Vec<u32>, Vec<u32>))
        requires
            old(self).wf(),
        ensures
            final(self).wf(),
            final(self).p_self == old(self).p_self,
            final(self).contact_range == old(self).contact_range,
            final(self).in_range_threshold == old(self).in_range_threshold,
            final(self).lost_duration == old(self).lost_duration,
            forall|id: u32|
                #[trigger] map_get(final(self).map(), id) == after_msg(
                    old(self).map(),
                    msgs_in@,
                    old(self).p_self,
                    old(self).contact_range as nat,
                    old(self).in_range_threshold as nat,
                    msg_time,
                    id,
                ),
            forall|id: u32|
                #[trigger] r.0@.contains(id) <==> (heard_in_first(msgs_in@, msgs_in@.len() as int, id)
                    && !old(self).map().contains_key(id) && after_msg(
                    old(self).map(),
                    msgs_in@,
                    old(self).p_self,
                    old(self).contact_range as nat,
                    old(self).in_range_threshold as nat,
                    msg_time,
                    id,
                ) is Some),
            forall|id: u32|
                #[trigger] r.1@.contains(id) <==> (old(self).map().contains_key(id) && after_msg(
                    old(self).map(),
                    msgs_in@,
                    old(self).p_self,
                    old(self).contact_range as nat,
                    old(self).in_range_threshold as nat,
                    msg_time,
                    id,
                ) is None),
            r.0@.no_duplicates(),
            r.1@.no_duplicates(),
    {
        let ghost m0 = self.map();
        let ghost p = self.p_self;
        let ghost range = self.contact_range as nat;
        let ghost permille = self.in_range_threshold as nat;
        let mut add: Vec<u32> = Vec::new();
        let mut rm: Vec<u32> = Vec::new();
        proof {
            assert(range * range <= 0xFFFF_FFFF * 0xFFFF_FFFF) by (nonlinear_arith)
                requires range <= 0xFFFF_FFFF;
            assert(range * permille <= 0xFFFF_FFFF * 1000) by (nonlinear_arith)
                requires range <= 0xFFFF_FFFF, permille <= 1000;
        }
        let range_sq: u128 = self.contact_range as u128 * self.contact_range as u128;
        let thr: u128 = self.contact_range as u128 * self.in_range_threshold as u128;
        proof {
            assert(thr * thr <= (0xFFFF_FFFF * 1000) * (0xFFFF_FFFF * 1000)) by (nonlinear_arith)
                requires thr <= 0xFFFF_FFFF * 1000;
        }
        let thr_sq: u128 = thr * thr;
        proof {
            assert forall|id: u32| #[trigger] map_get(self.map(), id) == after_first(m0, msgs_in@, p, range, permille, msg_time, 0, id) by {
                lemma_latest_msg(msgs_in@, msgs_in@.len() as int, id);
            }
            assert forall|id: u32| !heard_in_first(msgs_in@, 0, id) by {
                lemma_latest_msg(msgs_in@, msgs_in@.len() as int, id);
            }
        }
        let n = msgs_in.len();
        let mut i: usize = 0;
        while i < n
            invariant
                n == msgs_in@.len(),
                i <= n,
                self.wf(),
                self.p_self == p,
                self.contact_range as nat == range,
                self.in_range_threshold as nat == permille,
                self.lost_duration == old(self).lost_duration,
                m0 == old(self).map(),
                range_sq == range * range,
                thr_sq == (range * permille) * (range * permille),
                forall|id: u32|
                    #[trigger] map_get(self.map(), id) == after_first(m0, msgs_in@, p, range, permille, msg_time, i as int, id),
                forall|id: u32|
                    #[trigger] add@.contains(id) <==> (heard_in_first(msgs_in@, i as int, id)
                        && !m0.contains_key(id) && after_msg(m0, msgs_in@, p, range, permille, msg_time, id) is Some),
                forall|id: u32|
                    #[trigger] rm@.contains(id) <==> (heard_in_first(msgs_in@, i as int, id)
                        && m0.contains_key(id) && after_msg(m0, msgs_in@, p, range, permille, msg_time, id) is None),
                add@.no_duplicates(),
                rm@.no_duplicates(),
            decreases n - i,
        {
            let msg = &msgs_in[i];
            if msg.sender.nid.len() > 0 && msg.sender.get_id() != GCS_ID && Self::is_latest(msgs_in, i) {
                let id = msg.sender.get_id();
                let d = dist_sq(&msg.sender.p, &self.p_self);
                let ghost before = self.map();
                let ghost cs = self.contacts_in_range@;
                let ghost rm0 = rm@;
                let ghost add0 = add@;
                let ghost am = after_msg(m0, msgs_in@, p, range, permille, msg_time, id);
                proof {
                    assert(!heard_in_first(msgs_in@, i as int, id));
                    assert(map_get(before, id) == map_get(m0, id));
                }
                match self.find(id) {
                    Some(k) => {
                        proof {
                            lemma_map_at(cs, k as int);
                        }
                        if d > range_sq {
                            self.contacts_in_range.remove(k);
                            proof {
                                lemma_map_remove(cs, k as int);
                                assert forall|a: int, b: int| 0 <= a < b < self.contacts_in_range@.len() implies
                                    (#[trigger] self.contacts_in_range@[a]).desc@.id() != (#[trigger] self.contacts_in_range@[b]).desc@.id() by {
                                    let a2 = if a < k { a } else { a + 1 };
                                    let b2 = if b < k { b } else { b + 1 };
                                    assert(self.contacts_in_range@[a] == cs[a2]);
                                    assert(self.contacts_in_range@[b] == cs[b2]);
                                }
                                assert forall|a: int| 0 <= a < self.contacts_in_range@.len() implies
                                    (#[trigger] self.contacts_in_range@[a]).desc.nid@.len() > 0 by {
                                    let a2 = if a < k { a } else { a + 1 };
                                    assert(self.contacts_in_range@[a] == cs[a2]);
                                }
                            }
                            rm.push(id);
                            proof {
                                assert(am is None);
                                assert(self.map() == before.remove(id));
                                assert(map_get(self.map(), id) == am);
                                assert(rm@ == rm0.push(id) && add@ == add0);
                                lemma_push_no_dup(rm0, id);
                            }
                        } else {
                            let c = Contact::from_msg(msg_time, msg);
                            self.contacts_in_range.set(k, c);
                            proof {
                                lemma_map_update(cs, k as int, c);
                                assert forall|a: int, b: int| 0 <= a < b < self.contacts_in_range@.len() implies
                                    (#[trigger] self.contacts_in_range@[a]).desc@.id() != (#[trigger] self.contacts_in_range@[b]).desc@.id() by {
                                    assert(a != k ==> self.contacts_in_range@[a] == cs[a]);
                                    assert(b != k ==> self.contacts_in_range@[b] == cs[b]);
                                }
                                assert forall|a: int| 0 <= a < self.contacts_in_range@.len() implies
                                    (#[trigger] self.contacts_in_range@[a]).desc.nid@.len() > 0 by {
                                    assert(a != k ==> self.contacts_in_range@[a] == cs[a]);
                                }
                                assert(am == Some(c@));
                                assert(self.map() == before.insert(id, c@));
                                assert(map_get(self.map(), id) == am);
                                assert(rm@ == rm0 && add@ == add0);
                            }
                        }
                    },
                    None => {
                        proof {
                            assert(d * 1_000_000 <= 0x3_0000_0000_0000_0000 * 1_000_000) by (nonlinear_arith)
                                requires d <= 0x3_0000_0000_0000_0000;
                        }
                        if d * 1_000_000 <= thr_sq {
                            let c = Contact::from_msg(msg_time, msg);
                            self.contacts_in_range.push(c);
                            proof {
                                assert(self.contacts_in_range@.drop_last() =~= cs);
                                lemma_map_dom(cs, id);
                                assert forall|a: int, b: int| 0 <= a < b < self.contacts_in_range@.len() implies
                                    (#[trigger] self.contacts_in_range@[a]).desc@.id() != (#[trigger] self.contacts_in_range@[b]).desc@.id() by {
                                    assert(self.contacts_in_range@[a] == cs[a]);
                                    if b < cs.len() {
                                        assert(self.contacts_in_range@[b] == cs[b]);
                                    }
                                }
                                assert forall|a: int| 0 <= a < self.contacts_in_range@.len() implies
                                    (#[trigger] self.contacts_in_range@[a]).desc.nid@.len() > 0 by {
                                    if a < cs.len() {
                                        assert(self.contacts_in_range@[a] == cs[a]);
                                    }
                                }
                            }
                            add.push(id);
                            proof {
                                assert(am == Some(c@));
                                assert(self.map() == before.insert(id, c@));
                                assert(map_get(self.map(), id) == am);
                                assert(rm@ == rm0 && add@ == add0.push(id));
                                lemma_push_no_dup(add0, id);
                            }
                        } else {
                            proof {
                                assert(am is None);
                                assert(map_get(self.map(), id) == am);
                            }
                        }
                    },
                }
                proof {
                    assert forall|id2: u32| #[trigger] map_get(self.map(), id2) == after_first(m0, msgs_in@, p, range, permille, msg_time, i + 1, id2) by {
                        if id2 != id {
                            assert(map_get(self.map(), id2) == map_get(before, id2));
                            if latest_msg(msgs_in@, n as int, id2) == Some(i as int) {
                                lemma_latest_msg(msgs_in@, n as int, id2);
                            }
                        }
                    }
                    assert forall|id2: u32| #[trigger] add@.contains(id2) <==> (heard_in_first(msgs_in@, i + 1, id2)
                        && !m0.contains_key(id2) && after_msg(m0, msgs_in@, p, range, permille, msg_time, id2) is Some) by {
                        lemma_push_contains(add0, id, id2);
                        if id2 != id && latest_msg(msgs_in@, n as int, id2) == Some(i as int) {
                            lemma_latest_msg(msgs_in@, n as int, id2);
                        }
                    }
                    assert forall|id2: u32| #[trigger] rm@.contains(id2) <==> (heard_in_first(msgs_in@, i + 1, id2)
                        && m0.contains_key(id2) && after_msg(m0, msgs_in@, p, range, permille, msg_time, id2) is None) by {
                        lemma_push_contains(rm0, id, id2);
                        if id2 != id && latest_msg(msgs_in@, n as int, id2) == Some(i as int) {
                            lemma_latest_msg(msgs_in@, n as int, id2);
                        }
                    }
                }
            } else {
                proof {
                    assert forall|id2: u32| heard_in_first(msgs_in@, i + 1, id2) == heard_in_first(msgs_in@, i as int, id2) by {
                        if latest_msg(msgs_in@, n as int, id2) == Some(i as int) {
                            lemma_latest_msg(msgs_in@, n as int, id2);
                            if msg.sender.nid@.len() > 0 && msg.sender@.id() != GCS_ID {
                                assert(msgs_in@[i as int].sender@.id() == id2);
                            }
                        }
                    }
                    assert forall|id2: u32| #[trigger] map_get(self.map(), id2) == after_first(m0, msgs_in@, p, range, permille, msg_time, i + 1, id2) by {
                        assert(heard_in_first(msgs_in@, i + 1, id2) == heard_in_first(msgs_in@, i as int, id2));
                    }
                }
            }
            i += 1;
        }
        proof {
            assert forall|id: u32| #[trigger] map_get(self.map(), id) == after_msg(m0, msgs_in@, p, range, permille, msg_time, id) by {
                assert(after_first(m0, msgs_in@, p, range, permille, msg_time, n as int, id) == after_msg(m0, msgs_in@, p, range, permille, msg_time, id)) by {
                    lemma_latest_msg(msgs_in@, n as int, id);
                }
            }
            assert forall|id: u32| #[trigger] rm@.contains(id) <==> (m0.contains_key(id) && after_msg(m0, msgs_in@, p, range, permille, msg_time, id) is None) by {
                lemma_latest_msg(msgs_in@, n as int, id);
            }
        }
        (add, rm)
    }

    /// Drops the contacts silent for longer than the lost duration and
    /// returns their ids.
    pub fn filter_out_lost_contacts(&mut self, now: u64) -> (r: Vec<u32>)
        requires
            old(self).wf(),
        ensures
            final(self).wf(),
            final(self).p_self == old(self).p_self,
            final(self).contact_range == old(self).contact_range,
            final(self).in_range_threshold == old(self).in_range_threshold,
            final(self).lost_duration == old(self).lost_duration,
            final(self).map() == drop_lost(old(self).map(), old(self).lost_duration, now),
            forall|id: u32|
                #[trigger] r@.contains(id) <==> (old(self).map().contains_key(id) && is_lost(
                    old(self).map()[id],
                    old(self).lost_duration,
                    now,
                )),
            r@.no_duplicates(),
    {
        let lost = self.lost_duration;
        let mut rest: Vec<Contact> = Vec::new();
        std::mem::swap(&mut rest, &mut self.contacts_in_range);
        let ghost orig = rest@;
        let n = rest.len();
        let mut rm: Vec<u32> = Vec::new();
        let mut j: usize = 0;
        proof {
            assert(orig.take(0) =~= Seq::<Contact>::empty());
            assert(contacts_map(self.contacts_in_range@) =~= drop_lost(contacts_map(orig.take(0)), lost, now));
        }
        while j < n
            invariant
                n == orig.len(),
                j <= n,
                contacts_wf(orig),
                rest@ == orig.subrange(j as int, n as int),
                contacts_wf(self.contacts_in_range@),
                self.in_range_threshold == old(self).in_range_threshold,
                self.p_self == old(self).p_self,
                self.contact_range == old(self).contact_range,
                self.lost_duration == lost,
                orig == old(self).contacts_in_range@,
                contacts_map(self.contacts_in_range@) == drop_lost(contacts_map(orig.take(j as int)), lost, now),
                forall|id: u32|
                    #[trigger] rm@.contains(id) <==> (contacts_map(orig.take(j as int)).contains_key(id) && is_lost(
                        contacts_map(orig.take(j as int))[id],
                        lost,
                        now,
                    )),
                rm@.no_duplicates(),
            decreases n - j,
        {
            let c = rest.remove(0);
            proof {
                assert(c == orig[j as int]);
                assert(orig.take(j + 1).drop_last() =~= orig.take(j as int));
                assert(rest@ =~= orig.subrange(j + 1, n as int));
            }
            let ghost prefix = contacts_map(orig.take(j as int));
            let ghost id = c.desc@.id();
            proof {
                lemma_map_dom(orig.take(j as int), id);
                if prefix.contains_key(id) {
                    let k = choose|k: int| 0 <= k < orig.take(j as int).len() && (#[trigger] orig.take(j as int)[k]).desc@.id() == id;
                    assert(orig[k] == orig.take(j as int)[k]);
                    assert(false);
                }
            }
            let elapsed_ms: u64 = if now >= c.last_heard { now - c.last_heard } else { 0 };
            if elapsed_ms > lost {
                let ghost rm0 = rm@;
                rm.push(c.desc.get_id());
                proof {
                    lemma_push_no_dup(rm0, id);
                    assert forall|x: u32| #[trigger] rm@.contains(x) <==> (contacts_map(orig.take(j + 1)).contains_key(x) && is_lost(
                        contacts_map(orig.take(j + 1))[x], lost, now)) by {
                        lemma_push_contains(rm0, id, x);
                    }
                    assert(contacts_map(self.contacts_in_range@) =~= drop_lost(contacts_map(orig.take(j + 1)), lost, now));
                }
            } else {
                let ghost kept = self.contacts_in_range@;
                proof {
                    lemma_map_dom(kept, id);
                    assert(!contacts_map(kept).contains_key(id));
                }
                self.contacts_in_range.push(c);
                proof {
                    assert(self.contacts_in_range@.drop_last() =~= kept);
                    assert forall|a: int, b: int| 0 <= a < b < self.contacts_in_range@.len() implies
                        (#[trigger] self.contacts_in_range@[a]).desc@.id() != (#[trigger] self.contacts_in_range@[b]).desc@.id() by {
                        assert(self.contacts_in_range@[a] == kept[a]);
                        if b < kept.len() {
                            assert(self.contacts_in_range@[b] == kept[b]);
                        }
                    }
                    assert forall|a: int| 0 <= a < self.contacts_in_range@.len() implies
                        (#[trigger] self.contacts_in_range@[a]).desc.nid@.len() > 0 by {
                        if a < kept.len() {
                            assert(self.contacts_in_range@[a] == kept[a]);
                        }
                    }
                    assert(contacts_map(self.contacts_in_range@) =~= drop_lost(contacts_map(orig.take(j + 1)), lost, now));
                }
            }
            j += 1;
        }
        proof {
            assert(orig.take(n as int) =~= orig);
        }
        rm
    }

    /// Indices of the messages whose sender is in contact, in order.
    pub fn pick_messages_in_range(&self, msgs: &Vec<Msg>) -> (r: Vec<usize>)
        requires
            self.wf(),
        ensures
            r@ == tracked_indices(msgs@, msgs@.len() as int, self.map()),
    {
        let mut r: Vec<usize> = Vec::new();
        let mut i: usize = 0;
        while i < msgs.len()
            invariant
                self.wf(),
                i <= msgs@.len(),
                r@ == tracked_indices(msgs@, i as int, self.map()),
            decreases msgs.len() - i,
        {
            let m = &msgs[i];
            if m.sender.nid.len() > 0 {
                let found = self.find(m.sender.get_id());
                proof {
                    if let Some(k) = found {
                        lemma_map_at(self.contacts_in_range@, k as int);
                    }
                }
                if found.is_some() {
                    r.push(i);
                }
            }
            i += 1;
        }
        r
    }

    /// One tick of the tracker: refresh own position, apply the latest
    /// message of each sender, drop lost contacts, and pick the messages to
    /// act on (those of the ground station first, then those of peers in
    /// contact, each in arrival order).
    pub fn update(&mut self, p_self: &PosVec, msgs_in: &Vec<Msg>, now: u64) -> (r: ContactsUpdate)
        requires
            old(self).wf(),
        ensures
            final(self).wf(),
            final(self).p_self == *p_self,
            final(self).contact_range == old(self).contact_range,
            final(self).in_range_threshold == old(self).in_range_threshold,
            final(self).lost_duration == old(self).lost_duration,
            forall|id: u32|
                #[trigger] map_get(final(self).map(), id) == after_update(
                    old(self).map(),
                    msgs_in@,
                    *p_self,
                    old(self).contact_range as nat,
                    old(self).in_range_threshold as nat,
                    old(self).lost_duration,
                    now,
                    id,
                ),
            forall|id: u32|
                #[trigger] r.added@.contains(id) <==> (!old(self).map().contains_key(id) && after_update(
                    old(self).map(),
                    msgs_in@,
                    *p_self,
                    old(self).contact_range as nat,
                    old(self).in_range_threshold as nat,
                    old(self).lost_duration,
                    now,
                    id,
                ) is Some),
            forall|id: u32|
                #[trigger] r.removed@.contains(id) <==> (old(self).map().contains_key(id) && after_update(
                    old(self).map(),
                    msgs_in@,
                    *p_self,
                    old(self).contact_range as nat,
                    old(self).in_range_threshold as nat,
                    old(self).lost_duration,
                    now,
                    id,
                ) is None),
            r.added@.no_duplicates(),
            r.removed@.no_duplicates(),
            r.msgs@ == gcs_indices(msgs_in@, msgs_in@.len() as int) + tracked_indices(
                msgs_in@,
                msgs_in@.len() as int,
                final(self).map(),
            ),
    {
        self.p_self = *p_self;
        let mut msgs: Vec<usize> = Vec::new();
        let mut i: usize = 0;
        while i < msgs_in.len()
            invariant
                i <= msgs_in@.len(),
                msgs@ == gcs_indices(msgs_in@, i as int),
            decreases msgs_in.len() - i,
        {
            let m = &msgs_in[i];
            if m.sender.nid.len() > 0 && m.sender.is_gcs() {
                msgs.push(i);
            }
            i += 1;
        }
        let ghost m0 = self.map();
        let (add, rm_msg) = self.update_by_msg_positions(now, msgs_in);
        let ghost m1 = self.map();
        let rm_lost = self.filter_out_lost_contacts(now);
        let mut rm = rm_msg;
        let ghost rm_a = rm@;
        let mut k: usize = 0;
        proof {
            assert forall|id: u32| #[trigger] map_get(self.map(), id) == after_update(m0, msgs_in@, *p_self,
                self.contact_range as nat, self.in_range_threshold as nat, self.lost_duration, now, id) by {
                assert(map_get(m1, id) == after_msg(m0, msgs_in@, *p_self, self.contact_range as nat,
                    self.in_range_threshold as nat, now, id));
            }
        }
        proof {
            assert forall|id: u32| #[trigger] rm_a.contains(id) implies !m1.contains_key(id) && m0.contains_key(id) by {
                assert(map_get(m1, id) == after_msg(m0, msgs_in@, *p_self, self.contact_range as nat,
                    self.in_range_threshold as nat, now, id));
            }
        }
        while k < rm_lost.len()
            invariant
                k <= rm_lost@.len(),
                rm@ == rm_a + rm_lost@.take(k as int),
                rm@.no_duplicates(),
                rm_a.no_duplicates(),
                rm_lost@.no_duplicates(),
                forall|id: u32| #[trigger] rm_a.contains(id) ==> !m1.contains_key(id) && m0.contains_key(id),
                forall|id: u32| #[trigger] rm_lost@.contains(id) ==> m1.contains_key(id),
            decreases rm_lost.len() - k,
        {
            let ghost rm0 = rm@;
            let x = rm_lost[k];
            proof {
                assert(!rm0.contains(x)) by {
                    if rm0.contains(x) {
                        let q = choose|q: int| 0 <= q < rm0.len() && rm0[q] == x;
                        if q < rm_a.len() {
                            assert(rm_a.contains(x));
                            assert(rm_lost@.contains(x));
                        } else {
                            assert(rm_lost@[q - rm_a.len()] == x);
                        }
                    }
                }
                lemma_push_no_dup(rm0, x);
            }
            rm.push(x);
            k += 1;
            proof {
                assert(rm@ =~= rm_a + rm_lost@.take(k as int));
            }
        }
        proof {
            assert(rm_lost@.take(rm_lost@.len() as int) =~= rm_lost@);
            assert forall|id: u32| #[trigger] rm@.contains(id) <==> (m0.contains_key(id) && after_update(m0, msgs_in@,
                *p_self, self.contact_range as nat, self.in_range_threshold as nat, self.lost_duration, now, id) is None) by {
                assert(map_get(m1, id) == after_msg(m0, msgs_in@, *p_self, self.contact_range as nat,
                    self.in_range_threshold as nat, now, id));
                if rm@.contains(id) {
                    let q = choose|q: int| 0 <= q < rm@.len() && rm@[q] == id;
                    if q < rm_a.len() {
                        assert(rm_a.contains(id));
                    } else {
                        assert(rm_lost@[q - rm_a.len()] == id);
                        assert(rm_lost@.contains(id));
                    }
                }
                if m0.contains_key(id) && after_update(m0, msgs_in@, *p_self, self.contact_range as nat,
                    self.in_range_threshold as nat, self.lost_duration, now, id) is None {
                    if m1.contains_key(id) {
                        assert(rm_lost@.contains(id));
                        let q = choose|q: int| 0 <= q < rm_lost@.len() && rm_lost@[q] == id;
                        assert(rm@[rm_a.len() + q] == id);
                    } else {
                        assert(rm_a.contains(id));
                        let q = choose|q: int| 0 <= q < rm_a.len() && rm_a[q] == id;
                        assert(rm@[q] == id);
                    }
                }
            }
            assert forall|id: u32| #[trigger] add@.contains(id) <==> (!m0.contains_key(id) && after_update(m0, msgs_in@,
                *p_self, self.contact_range as nat, self.in_range_threshold as nat, self.lost_duration, now, id) is Some) by {
                lemma_latest_msg(msgs_in@, msgs_in@.len() as int, id);
            }
        }
        let tracked_msgs = self.pick_messages_in_range(msgs_in);
        let mut k: usize = 0;
        let ghost g = msgs@;
        while k < tracked_msgs.len()
            invariant
                k <= tracked_msgs@.len(),
                msgs@ == g + tracked_msgs@.take(k as int),
            decreases tracked_msgs.len() - k,
        {
            msgs.push(tracked_msgs[k]);
            k += 1;
            proof {
                assert(msgs@ =~= g + tracked_msgs@.take(k as int));
            }
        }
        proof {
            assert(tracked_msgs@.take(tracked_msgs@.len() as int) =~= tracked_msgs@);
        }
        ContactsUpdate { added: add, removed: rm, msgs }
    }
}

/// Hysteresis: a tracked peer whose latest message puts it within the
/// contact range stays tracked, and an untracked peer whose latest message
/// puts it beyond the entry threshold is not tracked.
pub proof fn law_contact_hysteresis(
    old: Map<u32, ContactView>,
    msgs: Seq<Msg>,
    p: PosVec,
    range: nat,
    permille: nat,
    lost: u64,
    now: u64,
    id: u32,
)
    requires
        latest_msg(msgs, msgs.len() as int, id) is Some,
    ensures
        ({
            let i = latest_msg(msgs, msgs.len() as int, id)->Some_0;
            &&& old.contains_key(id) && within(msgs[i].sender.p, p, range) ==> after_update(
                old,
                msgs,
                p,
                range,
                permille,
                lost,
                now,
                id,
            ) is Some
            &&& old.contains_key(id) && !within(msgs[i].sender.p, p, range) ==> after_update(
                old,
                msgs,
                p,
                range,
                permille,
                lost,
                now,
                id,
            ) is None
            &&& !old.contains_key(id) && !within_permille(msgs[i].sender.p, p, range, permille)
                ==> after_update(old, msgs, p, range, permille, lost, now, id) is None
            &&& !old.contains_key(id) && within_permille(msgs[i].sender.p, p, range, permille)
                ==> after_update(old, msgs, p, range, permille, lost, now, id) is Some
        }),
{
}

} // verus!
