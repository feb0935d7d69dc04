//! One control tick of an agent: contacts, node manager, then the
//! collision-avoidance filter.

use vstd::prelude::*;

use crate::astroconf::AstroConf;
use crate::collivoid::ColliVoid;
use crate::contacts::{Contacts, ContactsUpdate};
use crate::msg::Msg;
use crate::nm::NodeManager;
use crate::vector::{PosVec, Velocity};

verus! {

/// Period of heartbeat broadcasts, in milliseconds.
pub const DEFAULT_BROADCASTING_DURATION: u64 = 50;

/// Of the first `n` picked indices, those of messages that exist and are
/// addressed to `id` or to everyone, in order.
pub open spec fn addressed(msgs: Seq<Msg>, picked: Seq<usize>, n: int, id: u32) -> Seq<usize>
    decreases n,
{
    if n <= 0 {
        Seq::empty()
    } else {
        let k = picked[n - 1];
        if k < msgs.len() && (msgs[k as int].to_ids@.len() == 0 || msgs[k as int].to_ids@.contains(id)) {
            addressed(msgs, picked, n - 1, id).push(k)
        } else {
            addressed(msgs, picked, n - 1, id)
        }
    }
}

/// Milliseconds from `from` to `now`, zero if `now` is earlier.
pub open spec fn elapsed_since(from: u64, now: u64) -> int {
    if now >= from {
        now - from
    } else {
        0
    }
}

/// The control pipeline of one agent.
pub struct Control {
    pub conf: AstroConf,
    pub contacts: Contacts,
    pub nm: NodeManager,
    pub collivoid: ColliVoid,
    /// Milliseconds.
    pub broadcasting_duration: u64,
    /// Milliseconds.
    pub last_broadcasting_t: u64,
}

impl Control {
    pub open spec fn wf(&self) -> bool {
        &&& self.contacts.wf()
        &&& self.nm.wf()
        &&& self.collivoid.wf()
        &&& self.nm.conf == self.conf
    }

    /// A fresh agent: no contacts, a lone root. The first tick broadcasts a
    /// heartbeat.
    pub fn new(conf: &AstroConf, p: &PosVec, v: &Velocity, now: u64) -> (r: Control)
        ensures
            r.wf(),
            r.conf == *conf,
            r.nm.nid@ == seq![conf.id],
    {
        let collivoid = ColliVoid::new(conf);
        Control {
            conf: *conf,
            contacts: Contacts::new(p, conf.contact_range),
            nm: NodeManager::new_root_node(conf, p, v, now),
            collivoid,
            broadcasting_duration: DEFAULT_BROADCASTING_DURATION,
            last_broadcasting_t: if now >= DEFAULT_BROADCASTING_DURATION {
                now - DEFAULT_BROADCASTING_DURATION
            } else {
                0
            },
        }
    }

    /// The indices, among those the contacts tracker picked, of the
    /// messages addressed to this agent (or to everyone), in order.
    pub fn pick_addressed(&self, msgs_in: &Vec<Msg>, picked: &Vec<usize>) -> (r: Vec<usize>)
        ensures
            r@ == addressed(msgs_in@, picked@, picked@.len() as int, self.conf.id),
    {
        let mut r: Vec<usize> = Vec::new();
        let mut i: usize = 0;
        while i < picked.len()
            invariant
                i <= picked@.len(),
                r@ == addressed(msgs_in@, picked@, i as int, self.conf.id),
            decreases picked.len() - i,
        {
            let k = picked[i];
            if k < msgs_in.len() && msgs_in[k].is_for(self.conf.id) {
                r.push(k);
            }
            i += 1;
        }
        r
    }

    /// One tick at time `now` (milliseconds), the adoption rate decaying by
    /// `decay_ppm` millionths: returns the safe velocity and the messages to
    /// send.
    pub fn update(&mut self, p: &PosVec, v: &Velocity, msgs_in: &Vec<Msg>, now: u64, decay_ppm: u32) -> (r: (
        Velocity,
        Vec<Msg>,
    ))
        requires
            old(self).wf(),
            decay_ppm <= 1_000_000,
        ensures
            final(self).wf(),
            final(self).conf == old(self).conf,
            final(self).nm.now == now,
            final(self).nm.p == *p,
            (forall|j: int|
                0 <= j < final(self).contacts.contacts_in_range@.len() ==> !final(self).collivoid.in_alert(
                    crate::vector::dist_sq_spec(
                        crate::collivoid::predicted(#[trigger] final(self).contacts.contacts_in_range@[j], now),
                        *p,
                    ),
                    final(self).nm.next_v_spec(),
                )) ==> r.0 == final(self).nm.next_v_spec(),
            elapsed_since(old(self).last_broadcasting_t, now) >= old(self).broadcasting_duration ==> (
            r.1@.len() > 0 && r.1@.last().body is Empty && r.1@.last().to_ids@.len() == 0
                && final(self).last_broadcasting_t == now),
            elapsed_since(old(self).last_broadcasting_t, now) < old(self).broadcasting_duration ==> final(self).last_broadcasting_t
                == old(self).last_broadcasting_t,
            exists|ds: Seq<crate::collivoid::Danger>|
                #[trigger] final(self).collivoid.is_danger_list(
                    final(self).nm.next_v_spec(),
                    *p,
                    final(self).contacts.contacts_in_range@,
                    now,
                    ds,
                ) && r.0 == final(self).collivoid.safe_spec(
                    final(self).nm.next_v_spec(),
                    *p,
                    final(self).contacts.contacts_in_range@,
                    ds,
                ),
    {
        let cu: ContactsUpdate = self.contacts.update(p, msgs_in, now);
        let picked = self.pick_addressed(msgs_in, &cu.msgs);
        let (next_v, mut msgs_out) = self.nm.update_node(
            p,
            v,
            &cu.removed,
            msgs_in,
            &picked,
            self.contacts.get_contacts(),
            now,
            decay_ppm,
        );
        let since: u64 = if now >= self.last_broadcasting_t { now - self.last_broadcasting_t } else { 0 };
        if since >= self.broadcasting_duration {
            msgs_out.push(Msg::new_empty_msg(self.nm.generate_node_desc()));
            self.last_broadcasting_t = now;
        }
        let safe_v = self.collivoid.get_safe_v(&next_v, p, self.contacts.get_contacts(), now);
        (safe_v, msgs_out)
    }
}

} // verus!
