//! The node manager: this agent's place in the swarm tree, its links to
//! parent and children, and the state of its task.

use vstd::prelude::*;

use crate::astroconf::AstroConf;
use crate::contacts::Contact;
use crate::msg::{
    copy_ids, ids_contain, nid_wf, parent_id_spec, AssignChildAppl, JoinAppl, Msg, MsgBody, Nid,
    NodeDesc, NodeDetails, SubswarmTaskState, Task,
};
use crate::tm::{
    divisible, division_groups, executor_result, first_line_share, first_piece_ok, on_target, own_target_ok,
    ChildInfo, TaskExecutor, TaskManager,
};
use crate::msg::LineView;
use crate::contacts::elapsed;
use crate::vector::{dist_sq, dist_sq_spec, pursuit, pursuit_spec, seg_len, PosVec, Velocity};

verus! {

/// Silence after which a parent or child link is dropped, in milliseconds.
pub const DEFAULT_NODE_LOST_DURATION: u64 = 5000;

/// Period of state messages, in milliseconds.
pub const DEFAULT_STATE_MSG_DURATION: u64 = 100;

/// A contact heard longer ago than this (milliseconds) is no parent candidate.
pub const NEW_PARENT_FRESHNESS: u64 = 1000;

/// Adoption rate above which children are refused, in millionths.
pub const CHILD_ADDING_RATE_LIMIT: i64 = 500_000;

/// One adoption, in millionths of the adoption rate.
pub const CHILD_ADDING_UNIT: i64 = 1_000_000;

/// How a task stands at this node.
#[derive(Clone, Copy, Debug, PartialEq, Eq, Structural)]
pub enum TaskState {
    InProgress,
    Success,
    Failure,
}

/// Free, or in a task with the given id.
#[derive(Clone, Copy, Debug, PartialEq, Eq, Structural)]
pub enum NodeState {
    Free,
    InTask(u32, TaskState),
}

/// A linked parent or child, as last heard.
pub struct Node {
    pub desc: NodeDesc,
    pub details: NodeDetails,
    pub last_heard: u64,
}

impl Node {
    pub fn get_id(&self) -> (r: u32)
        requires
            self.desc.nid@.len() > 0,
        ensures
            r == self.desc@.id(),
    {
        self.desc.get_id()
    }
}

/// Ids of a list of links.
pub open spec fn node_ids(ns: Seq<Node>) -> Seq<u32> {
    ns.map_values(|n: Node| n.desc@.id())
}

/// Each link has a well-formed header and no two share an id.
pub open spec fn nodes_wf(ns: Seq<Node>) -> bool {
    &&& forall|i: int| 0 <= i < ns.len() ==> (#[trigger] ns[i]).desc.nid@.len() > 0
    &&& forall|i: int, j: int|
        0 <= i < j < ns.len() ==> (#[trigger] ns[i]).desc@.id() != (#[trigger] ns[j]).desc@.id()
}

/// Whether a list of links holds one with id `id`.
pub open spec fn has_node(ns: Seq<Node>, id: u32) -> bool {
    exists|i: int| 0 <= i < ns.len() && (#[trigger] ns[i]).desc@.id() == id
}

/// The agent's membership in the swarm tree.
pub struct NodeManager {
    pub conf: AstroConf,
    /// Time of the current tick, in milliseconds.
    pub now: u64,
    /// Leaky count of recent adoptions, in millionths.
    pub child_adding_rate: i64,
    pub p: PosVec,
    pub v: Velocity,
    pub nid: Nid,
    pub state: NodeState,
    pub tm: TaskManager,
    pub parent: Option<Node>,
    pub children: Vec<Node>,
    pub node_lost_duration: u64,
    pub state_msg_duration: u64,
    pub last_state_msg_t: u64,
}

/// One adoption more or less, kept within `i64`.
pub open spec fn rate_add(r: i64, d: int) -> i64 {
    if r + d > i64::MAX {
        i64::MAX
    } else if r + d < i64::MIN {
        i64::MIN
    } else {
        (r + d) as i64
    }
}

fn rate_add_exec(r: i64, d: i64) -> (s: i64)
    ensures
        s == rate_add(r, d as int),
{
    let w: i128 = r as i128 + d as i128;
    if w > i64::MAX as i128 {
        i64::MAX
    } else if w < i64::MIN as i128 {
        i64::MIN
    } else {
        w as i64
    }
}

/// Whether a path is non-empty and repeats no id.
pub fn is_nid_wf(nid: &Nid) -> (r: bool)
    ensures
        r == nid_wf(nid@),
{
    if nid.len() == 0 {
        return false;
    }
    let mut i: usize = 0;
    while i < nid.len()
        invariant
            i <= nid@.len(),
            forall|a: int, b: int| 0 <= a < b < nid@.len() && a < i ==> nid@[a] != nid@[b],
        decreases nid.len() - i,
    {
        let mut j: usize = i + 1;
        while j < nid.len()
            invariant
                i < j <= nid@.len(),
                forall|a: int, b: int| 0 <= a < b < nid@.len() && a < i ==> nid@[a] != nid@[b],
                forall|b: int| i < b < j ==> nid@[i as int] != nid@[b],
            decreases nid.len() - j,
        {
            if nid[i] == nid[j] {
                return false;
            }
            j += 1;
        }
        i += 1;
    }
    true
}

impl NodeManager {
    /// The invariant: the path is well formed and ends with this agent;
    /// it is this agent alone at a root, and the parent's path followed by
    /// this agent otherwise; links are well formed; a current task is the
    /// one the state names.
    pub open spec fn wf(&self) -> bool {
        &&& nid_wf(self.nid@)
        &&& self.nid@.last() == self.conf.id
        &&& match self.parent {
            None => self.nid@ == seq![self.conf.id],
            Some(pn) => pn.desc.nid@.len() > 0 && self.nid@ == pn.desc.nid@.push(self.conf.id),
        }
        &&& nodes_wf(self.children@)
        &&& (self.tm@.current matches Some(t) ==> (self.state matches NodeState::InTask(tid, _) && tid
            == t))
    }

    /// A lone root: the swarm of one that every agent starts as.
    pub fn new_root_node(conf: &AstroConf, p: &PosVec, v: &Velocity, now: u64) -> (r: NodeManager)
        ensures
            r.wf(),
            r.nid@ == seq![conf.id],
            r.parent.is_none(),
            r.children@.len() == 0,
            r.state == NodeState::Free,
            r.conf == *conf,
            r.now == now,
            r.child_adding_rate == 0,
    {
        let mut nid: Nid = Vec::new();
        nid.push(conf.id);
        assert(nid@ =~= seq![conf.id]);
        let r = NodeManager {
            conf: *conf,
            now,
            child_adding_rate: 0,
            p: *p,
            v: *v,
            nid,
            state: NodeState::Free,
            tm: TaskManager::new(),
            parent: None,
            children: Vec::new(),
            node_lost_duration: DEFAULT_NODE_LOST_DURATION,
            state_msg_duration: DEFAULT_STATE_MSG_DURATION,
            last_state_msg_t: now,
        };
        r
    }

    pub fn get_nid(&self) -> (r: &Nid)
        ensures
            r == &self.nid,
    {
        &self.nid
    }

    pub fn get_id(&self) -> (r: u32)
        requires
            self.wf(),
        ensures
            r == self.conf.id,
    {
        self.nid[self.nid.len() - 1]
    }

    pub fn get_root_id(&self) -> (r: u32)
        requires
            self.wf(),
        ensures
            r == self.nid@[0],
    {
        self.nid[0]
    }

    pub fn is_root_node(&self) -> (r: bool)
        requires
            self.wf(),
        ensures
            r == self.parent.is_none(),
            r == (self.nid@.len() == 1),
    {
        !self.has_parent()
    }

    pub fn get_parent_id(&self) -> (r: Option<u32>)
        ensures
            r == parent_id_spec(self.nid@),
    {
        crate::msg::parent_id_of(&self.nid)
    }

    /// Whether the node `id` may hang below this one.
    pub fn is_valid_ancestor_of(&self, id: u32) -> (r: bool)
        ensures
            r == !self.nid@.contains(id),
    {
        !ids_contain(&self.nid, id)
    }

    /// Whether this node may hang below the node described by `desc`.
    pub fn is_valid_descendant_of(&self, desc: &NodeDesc) -> (r: bool)
        requires
            self.wf(),
        ensures
            r == !desc.nid@.contains(self.conf.id),
    {
        desc.is_valid_ancestor_of(self.get_id())
    }

    pub fn has_parent(&self) -> (r: bool)
        ensures
            r == self.parent.is_some(),
    {
        self.parent.is_some()
    }

    pub fn has_children(&self) -> (r: bool)
        ensures
            r == (self.children@.len() > 0),
    {
        self.children.len() > 0
    }

    pub fn has_connections(&self) -> (r: bool)
        ensures
            r == (self.parent.is_some() || self.children@.len() > 0),
    {
        self.has_parent() || self.has_children()
    }

    pub fn has_parent_of_id(&self, id_other: u32) -> (r: bool)
        requires
            self.wf(),
        ensures
            r == (self.parent matches Some(pn) && pn.desc@.id() == id_other),
    {
        match &self.parent {
            Some(pn) => pn.get_id() == id_other,
            None => false,
        }
    }

    /// Position in the children list of the child `id`.
    pub fn find_child(&self, id: u32) -> (r: Option<usize>)
        requires
            self.wf(),
        ensures
            r matches Some(k) ==> k < self.children@.len() && self.children@[k as int].desc@.id() == id,
            r is None ==> !has_node(self.children@, id),
    {
        let mut k: usize = 0;
        while k < self.children.len()
            invariant
                self.wf(),
                k <= self.children@.len(),
                forall|j: int| 0 <= j < k ==> (#[trigger] self.children@[j]).desc@.id() != id,
            decreases self.children.len() - k,
        {
            if self.children[k].get_id() == id {
                return Some(k);
            }
            k += 1;
        }
        None
    }

    pub fn has_child_of_id(&self, id_other: u32) -> (r: bool)
        requires
            self.wf(),
        ensures
            r == has_node(self.children@, id_other),
    {
        self.find_child(id_other).is_some()
    }

    pub fn is_free(&self) -> (r: bool)
        ensures
            r == (self.state == NodeState::Free),
    {
        !self.has_task()
    }

    pub fn has_task(&self) -> (r: bool)
        ensures
            r == (self.state != NodeState::Free),
    {
        match self.state {
            NodeState::InTask(..) => true,
            NodeState::Free => false,
        }
    }

    pub fn has_task_of_id(&self, id: u32) -> (r: bool)
        ensures
            r == (self.state matches NodeState::InTask(tid, _) && tid == id),
    {
        match self.state {
            NodeState::InTask(tid, _) => tid == id,
            NodeState::Free => false,
        }
    }

    pub fn get_task_id(&self) -> (r: Option<u32>)
        ensures
            r == match self.state {
                NodeState::InTask(tid, _) => Some(tid),
                NodeState::Free => None::<u32>,
            },
    {
        match self.state {
            NodeState::InTask(tid, _) => Some(tid),
            NodeState::Free => None,
        }
    }

    /// Enters the free state, dropping any current task.
    pub fn switch_state_to_free(&mut self)
        requires
            old(self).wf(),
        ensures
            final(self).wf(),
            final(self).state == NodeState::Free,
            final(self).tm@ == crate::tm::clear_current_spec(old(self).tm@),
            final(self).nid == old(self).nid,
            final(self).parent == old(self).parent,
            final(self).children == old(self).children,
            Self::same_settings(*old(self), *final(self)),
            final(self).now == old(self).now,
            final(self).child_adding_rate == old(self).child_adding_rate,
            final(self).p == old(self).p,
    {
        self.state = NodeState::Free;
        self.tm.clear_current_task();
    }

    /// Enters state `ts` of task `tid`; the current task is kept only when
    /// it is the same task.
    pub fn switch_state_to_in_task(&mut self, tid: u32, ts: TaskState)
        requires
            old(self).wf(),
        ensures
            final(self).wf(),
            final(self).state == NodeState::InTask(tid, ts),
            (old(self).state matches NodeState::InTask(o, _) && o == tid) ==> final(self).tm
                == old(self).tm,
            !(old(self).state matches NodeState::InTask(o, _) && o == tid) ==> final(self).tm@
                == crate::tm::clear_current_spec(old(self).tm@),
            final(self).nid == old(self).nid,
            final(self).parent == old(self).parent,
            final(self).children == old(self).children,
            Self::same_settings(*old(self), *final(self)),
            final(self).now == old(self).now,
            final(self).child_adding_rate == old(self).child_adding_rate,
            final(self).p == old(self).p,
    {
        let keep_task: bool = match self.state {
            NodeState::InTask(o_tid, _) => o_tid == tid,
            NodeState::Free => false,
        };
        self.state = NodeState::InTask(tid, ts);
        if !keep_task {
            self.tm.clear_current_task();
        }
    }

    /// Marks the current task, if any, as failed.
    pub fn fail_task(&mut self)
        requires
            old(self).wf(),
        ensures
            final(self).wf(),
            old(self).state == NodeState::Free ==> final(self).state == NodeState::Free,
            old(self).state matches NodeState::InTask(tid, _) ==> final(self).state
                == NodeState::InTask(tid, TaskState::Failure),
            final(self).tm == old(self).tm,
            final(self).nid == old(self).nid,
            final(self).parent == old(self).parent,
            final(self).children == old(self).children,
            Self::same_settings(*old(self), *final(self)),
            final(self).now == old(self).now,
            final(self).child_adding_rate == old(self).child_adding_rate,
            final(self).p == old(self).p,
    {
        match self.state {
            NodeState::Free => {},
            NodeState::InTask(tid, _) => {
                self.switch_state_to_in_task(tid, TaskState::Failure);
            },
        }
    }

    /// Settings and tick inputs that a link or state change keeps.
    pub open spec fn same_settings(a: NodeManager, b: NodeManager) -> bool {
        &&& a.conf == b.conf
        &&& a.now == b.now
        &&& a.p == b.p
        &&& a.v == b.v
        &&& a.node_lost_duration == b.node_lost_duration
        &&& a.state_msg_duration == b.state_msg_duration
        &&& a.last_state_msg_t == b.last_state_msg_t
    }

    /// The invariant, but for the path and the parent.
    pub open spec fn wf_links(&self) -> bool {
        &&& nodes_wf(self.children@)
        &&& (self.tm@.current matches Some(t) ==> (self.state matches NodeState::InTask(tid, _) && tid
            == t))
    }

    /// The state that a node takes from its parent's task: free under a
    /// free parent; in the parent's task (kept as it was if already in it)
    /// otherwise.
    pub open spec fn state_under(old_state: NodeState, parent_tsk: Option<u32>) -> NodeState {
        match parent_tsk {
            None => NodeState::Free,
            Some(tid) => if old_state matches NodeState::InTask(o, _) && o == tid {
                old_state
            } else {
                NodeState::InTask(tid, TaskState::InProgress)
            },
        }
    }

    /// Re-derives the path and the state from the parent's header.
    pub fn on_parent_info_updated(&mut self)
        requires
            old(self).wf_links(),
            old(self).parent matches Some(pn) && nid_wf(pn.desc.nid@) && !pn.desc.nid@.contains(
                old(self).conf.id,
            ),
        ensures
            final(self).wf(),
            final(self).nid@ == old(self).parent->Some_0.desc.nid@.push(old(self).conf.id),
            final(self).state == Self::state_under(old(self).state, old(self).parent->Some_0.desc.tsk),
            final(self).parent == old(self).parent,
            final(self).children == old(self).children,
            Self::same_settings(*old(self), *final(self)),
            final(self).now == old(self).now,
            final(self).child_adding_rate == old(self).child_adding_rate,
            final(self).p == old(self).p,
    {
        let id = self.conf.id;
        let (nid, tsk) = match &self.parent {
            Some(pnd) => (copy_ids(&pnd.desc.nid), pnd.desc.tsk),
            None => {
                return;
            },
        };
        let mut nid = nid;
        let ghost pn = nid@;
        nid.push(id);
        proof {
            assert forall|a: int, b: int| 0 <= a < b < nid@.len() implies nid@[a] != nid@[b] by {
                if b == nid@.len() - 1 {
                    assert(pn.contains(pn[a]));
                } else {
                    assert(pn[a] != pn[b]);
                }
            }
        }
        self.nid = nid;
        match tsk {
            None => {
                self.switch_state_to_free();
            },
            Some(tid) => {
                if !self.has_task_of_id(tid) {
                    self.switch_state_to_in_task(tid, TaskState::InProgress);
                }
            },
        }
    }

    /// Becomes a root again: no parent, the path is this agent alone, and
    /// the node is free.
    pub fn remove_parent(&mut self)
        requires
            old(self).wf(),
        ensures
            final(self).wf(),
            final(self).parent.is_none(),
            final(self).nid@ == seq![old(self).conf.id],
            final(self).state == NodeState::Free,
            final(self).children == old(self).children,
            Self::same_settings(*old(self), *final(self)),
            final(self).now == old(self).now,
            final(self).child_adding_rate == old(self).child_adding_rate,
            final(self).p == old(self).p,
    {
        self.parent = None;
        let mut nid: Nid = Vec::new();
        nid.push(self.conf.id);
        assert(nid@ =~= seq![self.conf.id]);
        self.nid = nid;
        self.switch_state_to_free();
    }

    /// Takes the node described by `desc` as parent, unless its path is
    /// malformed or already holds this agent (which would close a cycle).
    pub fn set_parent(&mut self, desc: &NodeDesc) -> (r: bool)
        requires
            old(self).wf(),
        ensures
            final(self).wf(),
            r == (nid_wf(desc.nid@) && !desc.nid@.contains(old(self).conf.id)),
            !r ==> *final(self) == *old(self),
            r ==> (final(self).parent matches Some(pn) && pn.desc@ == desc@ && pn.last_heard == old(
                self,
            ).now && pn.details == (NodeDetails { subswarm: 0, subswm_tsk: SubswarmTaskState::NoTask })),
            r ==> final(self).nid@ == desc.nid@.push(old(self).conf.id),
            r ==> final(self).state == Self::state_under(old(self).state, desc.tsk),
            final(self).children == old(self).children,
            Self::same_settings(*old(self), *final(self)),
            final(self).now == old(self).now,
            final(self).child_adding_rate == old(self).child_adding_rate,
            final(self).p == old(self).p,
    {
        if !is_nid_wf(&desc.nid) || !self.is_valid_descendant_of(desc) {
            false
        } else {
            self.parent = Some(
                Node {
                    desc: desc.copy(),
                    details: NodeDetails { subswarm: 0, subswm_tsk: SubswarmTaskState::NoTask },
                    last_heard: self.now,
                },
            );
            self.on_parent_info_updated();
            true
        }
    }

    /// Drops the parent if it is `pid`.
    pub fn remove_parent_of_id(&mut self, pid: u32)
        requires
            old(self).wf(),
        ensures
            final(self).wf(),
            (old(self).parent matches Some(pn) && pn.desc@.id() == pid) ==> final(self).parent.is_none()
                && final(self).state == NodeState::Free && final(self).nid@ == seq![old(self).conf.id],
            !(old(self).parent matches Some(pn) && pn.desc@.id() == pid) ==> *final(self) == *old(self),
            final(self).children == old(self).children,
            Self::same_settings(*old(self), *final(self)),
            final(self).now == old(self).now,
            final(self).child_adding_rate == old(self).child_adding_rate,
            final(self).p == old(self).p,
    {
        if self.has_parent_of_id(pid) {
            self.remove_parent();
        }
    }

    /// Adopts the node described by `desc` as a child unless this agent's
    /// path holds it (a cycle). Adopting a known child again changes nothing.
    pub fn add_child(&mut self, desc: &NodeDesc, dtl: &NodeDetails) -> (r: bool)
        requires
            old(self).wf(),
            desc.nid@.len() > 0,
        ensures
            final(self).wf(),
            r == !old(self).nid@.contains(desc@.id()),
            !r || has_node(old(self).children@, desc@.id()) ==> *final(self) == *old(self),
            r && !has_node(old(self).children@, desc@.id()) ==> final(self).children@.len()
                == old(self).children@.len() + 1 && final(self).children@.drop_last() == old(
                self,
            ).children@ && final(self).children@.last().desc@ == desc@
                && final(self).children@.last().details == *dtl
                && final(self).children@.last().last_heard == old(self).now
                && final(self).child_adding_rate == rate_add(
                old(self).child_adding_rate,
                CHILD_ADDING_UNIT as int,
            ),
            has_node(final(self).children@, desc@.id()) == (r || has_node(old(self).children@, desc@.id())),
            final(self).parent == old(self).parent,
            final(self).nid == old(self).nid,
            final(self).state == old(self).state,
            final(self).tm == old(self).tm,
            Self::same_settings(*old(self), *final(self)),
            final(self).now == old(self).now,
            final(self).p == old(self).p,
    {
        let id_other = desc.get_id();
        if !self.is_valid_ancestor_of(id_other) {
            false
        } else {
            if !self.has_child_of_id(id_other) {
                let ghost cs = self.children@;
                self.children.push(Node { desc: desc.copy(), details: *dtl, last_heard: self.now });
                proof {
                    assert(self.children@.drop_last() =~= cs);
                    assert forall|a: int, b: int| 0 <= a < b < self.children@.len() implies
                        (#[trigger] self.children@[a]).desc@.id() != (#[trigger] self.children@[b]).desc@.id() by {
                        assert(self.children@[a] == cs[a]);
                        if b < cs.len() {
                            assert(self.children@[b] == cs[b]);
                        }
                    }
                    assert forall|a: int| 0 <= a < self.children@.len() implies
                        (#[trigger] self.children@[a]).desc.nid@.len() > 0 by {
                        if a < cs.len() {
                            assert(self.children@[a] == cs[a]);
                        }
                    }
                    assert(self.children@[cs.len() as int].desc@.id() == id_other);
                }
                self.child_adding_rate = rate_add_exec(self.child_adding_rate, CHILD_ADDING_UNIT);
            }
            true
        }
    }

    /// Drops the child `cid`, if linked. Losing a child that was in this
    /// node's task fails the task.
    pub fn remove_child_of_id(&mut self, cid: u32)
        requires
            old(self).wf(),
        ensures
            final(self).wf(),
            !has_node(final(self).children@, cid),
            !has_node(old(self).children@, cid) ==> *final(self) == *old(self),
            forall|i: int|
                0 <= i < final(self).children@.len() ==> old(self).children@.contains(
                    #[trigger] final(self).children@[i],
                ),
            forall|i: int|
                0 <= i < old(self).children@.len() && (#[trigger] old(self).children@[i]).desc@.id()
                    != cid ==> final(self).children@.contains(old(self).children@[i]),
            final(self).state == old(self).state || (old(self).state matches NodeState::InTask(tid, _)
                && final(self).state == NodeState::InTask(tid, TaskState::Failure)),
            has_node(old(self).children@, cid) ==> exists|idx: int|
                0 <= idx < old(self).children@.len() && (#[trigger] old(self).children@[idx]).desc@.id() == cid
                    && final(self).children@ == old(self).children@.remove(idx),
            has_node(old(self).children@, cid) && (old(self).state matches NodeState::InTask(tid, _)
                && exists|i: int|
                0 <= i < old(self).children@.len() && (#[trigger] old(self).children@[i]).desc@.id()
                    == cid && old(self).children@[i].desc.tsk == Some(tid)) ==> final(self).state
                == NodeState::InTask(old(self).state->InTask_0, TaskState::Failure),
            final(self).parent == old(self).parent,
            final(self).nid == old(self).nid,
            final(self).tm == old(self).tm,
            Self::same_settings(*old(self), *final(self)),
            final(self).now == old(self).now,
            final(self).p == old(self).p,
    {
        match self.find_child(cid) {
            None => {},
            Some(idx) => {
                let ghost cs = self.children@;
                let cnd = self.children.remove(idx);
                proof {
                    assert forall|a: int, b: int| 0 <= a < b < self.children@.len() implies
                        (#[trigger] self.children@[a]).desc@.id() != (#[trigger] self.children@[b]).desc@.id() by {
                        let a2 = if a < idx { a } else { a + 1 };
                        let b2 = if b < idx { b } else { b + 1 };
                        assert(self.children@[a] == cs[a2]);
                        assert(self.children@[b] == cs[b2]);
                    }
                    assert forall|a: int| 0 <= a < self.children@.len() implies
                        (#[trigger] self.children@[a]).desc.nid@.len() > 0 by {
                        let a2 = if a < idx { a } else { a + 1 };
                        assert(self.children@[a] == cs[a2]);
                    }
                    assert forall|i: int| 0 <= i < self.children@.len() implies
                        (#[trigger] self.children@[i]).desc@.id() != cid by {
                        let a2 = if i < idx { i } else { i + 1 };
                        assert(self.children@[i] == cs[a2]);
                    }
                    assert forall|i: int| 0 <= i < self.children@.len() implies cs.contains(
                        #[trigger] self.children@[i]) by {
                        let a2 = if i < idx { i } else { i + 1 };
                        assert(self.children@[i] == cs[a2]);
                    }
                    assert forall|i: int| 0 <= i < cs.len() && (#[trigger] cs[i]).desc@.id() != cid
                        implies self.children@.contains(cs[i]) by {
                        if i < idx {
                            assert(self.children@[i] == cs[i]);
                        } else {
                            assert(i != idx);
                            assert(self.children@[i - 1] == cs[i]);
                        }
                    }
                    if let NodeState::InTask(tid, _) = self.state {
                        if exists|i: int| 0 <= i < cs.len() && (#[trigger] cs[i]).desc@.id() == cid
                            && cs[i].desc.tsk == Some(tid) {
                            let i = choose|i: int| 0 <= i < cs.len() && (#[trigger] cs[i]).desc@.id() == cid
                                && cs[i].desc.tsk == Some(tid);
                            assert(i == idx);
                        }
                    }
                }
                self.child_adding_rate = rate_add_exec(self.child_adding_rate, -CHILD_ADDING_UNIT);
                if let Some(tid) = self.get_task_id() {
                    if cnd.desc.has_task_of_id(tid) {
                        self.fail_task();
                    }
                }
            },
        }
    }

    /// Whether every child reports that its whole subtree has task `tid`.
    pub open spec fn children_aligned(&self, tid: u32) -> bool {
        forall|i: int|
            0 <= i < self.children@.len() ==> (#[trigger] self.children@[i]).details.subswm_tsk.aligned_spec(
                tid,
            )
    }

    /// The task state of this node's subtree.
    pub open spec fn subswarm_task_state_spec(&self) -> SubswarmTaskState {
        match self.state {
            NodeState::Free => SubswarmTaskState::NoTask,
            NodeState::InTask(tid, TaskState::Success) => SubswarmTaskState::Succ(tid),
            NodeState::InTask(tid, TaskState::Failure) => SubswarmTaskState::Fail(tid),
            NodeState::InTask(tid, TaskState::InProgress) => if self.children_aligned(tid) {
                if self.tm.task_exec.is_some() {
                    SubswarmTaskState::Allc(tid)
                } else {
                    SubswarmTaskState::Algn(tid)
                }
            } else {
                SubswarmTaskState::Recv(tid)
            },
        }
    }

    pub fn all_child_subswarms_alignment_done_for_task(&self, tid: u32) -> (r: bool)
        ensures
            r == self.children_aligned(tid),
    {
        let mut i: usize = 0;
        while i < self.children.len()
            invariant
                i <= self.children@.len(),
                forall|j: int|
                    0 <= j < i ==> (#[trigger] self.children@[j]).details.subswm_tsk.aligned_spec(tid),
            decreases self.children.len() - i,
        {
            if !self.children[i].details.is_subswm_alignment_done_for_tsk(tid) {
                return false;
            }
            i += 1;
        }
        true
    }

    pub fn get_subswarm_task_state(&self) -> (r: SubswarmTaskState)
        ensures
            r == self.subswarm_task_state_spec(),
    {
        match self.state {
            NodeState::Free => SubswarmTaskState::NoTask,
            NodeState::InTask(tid, TaskState::Success) => SubswarmTaskState::Succ(tid),
            NodeState::InTask(tid, TaskState::Failure) => SubswarmTaskState::Fail(tid),
            NodeState::InTask(tid, TaskState::InProgress) => {
                if self.all_child_subswarms_alignment_done_for_task(tid) {
                    match self.tm.get_current_task() {
                        Some(_) => SubswarmTaskState::Allc(tid),
                        None => SubswarmTaskState::Algn(tid),
                    }
                } else {
                    SubswarmTaskState::Recv(tid)
                }
            },
        }
    }

    /// Size of the subtree rooted here: this agent and each child's subtree,
    /// saturating at `u32::MAX`.
    pub open spec fn subswarm_size_spec(&self) -> u32 {
        if 1 + children_subswarm_sum(self.children@) > u32::MAX {
            u32::MAX
        } else {
            (1 + children_subswarm_sum(self.children@)) as u32
        }
    }

    pub fn get_subswarm_size(&self) -> (r: u32)
        ensures
            r == self.subswarm_size_spec(),
    {
        let mut total: u64 = 1;
        let mut i: usize = 0;
        proof {
            assert(self.children@.take(0) =~= Seq::<Node>::empty());
        }
        while i < self.children.len()
            invariant
                i <= self.children@.len(),
                total <= u32::MAX + 1,
                total == (if 1 + children_subswarm_sum(self.children@.take(i as int)) > u32::MAX + 1 {
                    u32::MAX + 1
                } else {
                    1 + children_subswarm_sum(self.children@.take(i as int)) as int
                }),
            decreases self.children.len() - i,
        {
            proof {
                assert(self.children@.take(i + 1).drop_last() =~= self.children@.take(i as int));
            }
            total = total + self.children[i].details.subswarm as u64;
            if total > u32::MAX as u64 + 1 {
                total = u32::MAX as u64 + 1;
            }
            i += 1;
        }
        proof {
            assert(self.children@.take(self.children@.len() as int) =~= self.children@);
        }
        if total > u32::MAX as u64 {
            u32::MAX
        } else {
            total as u32
        }
    }

    /// Size of the whole swarm: as the parent reports it, or the subtree's
    /// at a root.
    pub open spec fn swarm_size_spec(&self) -> u32 {
        match self.parent {
            None => self.subswarm_size_spec(),
            Some(pn) => pn.desc.swm,
        }
    }

    pub fn get_swarm_size(&self) -> (r: u32)
        ensures
            r == self.swarm_size_spec(),
    {
        match &self.parent {
            None => self.get_subswarm_size(),
            Some(pnd) => pnd.desc.swm,
        }
    }

    /// The header this agent broadcasts.
    pub fn generate_node_desc(&self) -> (r: NodeDesc)
        ensures
            r@.nid == self.nid@,
            r.p == self.p,
            r.v == self.v,
            r.swm == self.swarm_size_spec(),
            r.tsk == match self.state {
                NodeState::InTask(tid, _) => Some(tid),
                NodeState::Free => None::<u32>,
            },
    {
        NodeDesc {
            nid: copy_ids(&self.nid),
            p: self.p,
            v: self.v,
            swm: self.get_swarm_size(),
            tsk: self.get_task_id(),
        }
    }

    /// What this agent reports to its parent and children.
    pub fn generate_node_details(&self) -> (r: NodeDetails)
        ensures
            r.subswarm == self.subswarm_size_spec(),
            r.subswm_tsk == self.subswarm_task_state_spec(),
    {
        NodeDetails { subswarm: self.get_subswarm_size(), subswm_tsk: self.get_subswarm_task_state() }
    }

    /// Whether contact `c` ranks before this agent itself as a parent.
    pub open spec fn beats_self(&self, c: Contact) -> bool {
        better_key(c.desc.swm, c.desc@.root_id(), dist_sq_spec(c.desc.p, self.p), self.swarm_size_spec(),
            self.nid@[0], 0)
    }

    /// Whether contact `a` ranks before contact `b` as a parent.
    pub open spec fn ranks_before(&self, a: Contact, b: Contact) -> bool {
        better_key(a.desc.swm, a.desc@.root_id(), dist_sq_spec(a.desc.p, self.p), b.desc.swm,
            b.desc@.root_id(), dist_sq_spec(b.desc.p, self.p))
    }

    /// Contact `k` is the parent candidate to take: eligible, ranked before
    /// this agent, and before every other eligible contact (the first
    /// among equals).
    pub open spec fn is_best_candidate(&self, nb: Seq<Contact>, k: int) -> bool {
        &&& 0 <= k < nb.len()
        &&& eligible_parent(nb[k], self.now, self.nid@[0])
        &&& self.beats_self(nb[k])
        &&& forall|j: int|
            0 <= j < nb.len() && eligible_parent(#[trigger] nb[j], self.now, self.nid@[0]) ==> !self.ranks_before(
                nb[j],
                nb[k],
            ) && (j < k ==> self.ranks_before(nb[k], nb[j]))
    }

    /// At most one contact is the candidate to take.
    pub proof fn lemma_best_candidate_unique(&self, nb: Seq<Contact>, k1: int, k2: int)
        requires
            self.is_best_candidate(nb, k1),
            self.is_best_candidate(nb, k2),
        ensures
            k1 == k2,
    {
        if k1 < k2 {
            assert(eligible_parent(nb[k1], self.now, self.nid@[0]));
        } else if k2 < k1 {
            assert(eligible_parent(nb[k2], self.now, self.nid@[0]));
        }
    }

    /// The best parent candidate among the contacts (the first among
    /// equals), when it ranks before this agent itself.
    pub fn find_parent_candidate(&self, neighbours: &Vec<Contact>) -> (r: Option<usize>)
        requires
            self.wf(),
            forall|i: int| 0 <= i < neighbours@.len() ==> (#[trigger] neighbours@[i]).desc.nid@.len() > 0,
        ensures
            r is None <==> forall|j: int|
                0 <= j < neighbours@.len() && eligible_parent(#[trigger] neighbours@[j], self.now, self.nid@[0])
                    ==> !self.beats_self(neighbours@[j]),
            r matches Some(k) ==> self.is_best_candidate(neighbours@, k as int),
    {
        let root_self = self.get_root_id();
        let swm_self = self.get_swarm_size();
        let mut best: Option<usize> = None;
        let mut i: usize = 0;
        while i < neighbours.len()
            invariant
                self.wf(),
                i <= neighbours@.len(),
                root_self == self.nid@[0],
                swm_self == self.swarm_size_spec(),
                forall|q: int| 0 <= q < neighbours@.len() ==> (#[trigger] neighbours@[q]).desc.nid@.len() > 0,
                best is None ==> forall|j: int|
                    0 <= j < i && eligible_parent(#[trigger] neighbours@[j], self.now, root_self)
                        ==> !self.beats_self(neighbours@[j]),
                best matches Some(k) ==> k < i && eligible_parent(neighbours@[k as int], self.now, root_self)
                    && self.beats_self(neighbours@[k as int]) && forall|j: int|
                    0 <= j < i && eligible_parent(#[trigger] neighbours@[j], self.now, root_self)
                        ==> !self.ranks_before(neighbours@[j], neighbours@[k as int]) && (j < k
                        ==> self.ranks_before(neighbours@[k as int], neighbours@[j])),
            decreases neighbours.len() - i,
        {
            let c = &neighbours[i];
            let heard: u64 = if self.now >= c.last_heard { self.now - c.last_heard } else { 0 };
            if heard < NEW_PARENT_FRESHNESS && c.desc.is_free() && c.desc.get_root_id() != root_self {
                let d = dist_sq(&c.desc.p, &self.p);
                let better = match best {
                    None => c.desc.swm > swm_self || (c.desc.swm == swm_self && c.desc.get_root_id()
                        < root_self),
                    Some(k) => {
                        let b = &neighbours[k];
                        let db = dist_sq(&b.desc.p, &self.p);
                        c.desc.swm > b.desc.swm || (c.desc.swm == b.desc.swm && c.desc.get_root_id()
                            < b.desc.get_root_id()) || (c.desc.swm == b.desc.swm
                            && c.desc.get_root_id() == b.desc.get_root_id() && d < db)
                    },
                };
                if better {
                    best = Some(i);
                }
            }
            i += 1;
        }
        best
    }

    /// What trying to join a better tree does, from `o` to `f`, sending `r`.
    pub open spec fn join_outcome(o: NodeManager, f: NodeManager, nb: Seq<Contact>, r: Seq<Msg>) -> bool {
        &&& (forall|j: int|
            0 <= j < nb.len() && eligible_parent(#[trigger] nb[j], o.now, o.nid@[0]) ==> !o.beats_self(nb[j]))
            ==> r.len() == 0 && f == o
        &&& forall|k: int|
                #[trigger] o.is_best_candidate(nb, k) ==> if nid_wf(nb[k].desc.nid@)
                    && !nb[k].desc.nid@.contains(o.conf.id) {
                    &&& r.len() == if o.parent is Some { 2int } else { 1int }
                    &&& r[0].to_ids@ == seq![nb[k].desc@.id()]
                    &&& r[0].sender@.nid == f.nid@
                    &&& (r[0].body matches MsgBody::Join(appl) && appl.src_tree == o.nid@[0]
                        && appl.dtl.subswarm == f.subswarm_size_spec() && appl.dtl.subswm_tsk
                        == f.subswarm_task_state_spec())
                    &&& (f.parent matches Some(pn) && pn.desc@ == nb[k].desc@)
                    &&& f.nid@ == nb[k].desc.nid@.push(o.conf.id)
                    &&& f.state == Self::state_under(o.state, nb[k].desc.tsk)
                    &&& (r.len() == 2 ==> r[1].body is Leave && (o.parent matches Some(op)
                        && r[1].to_ids@ == seq![op.desc@.id()]))
                } else {
                    r.len() == 0
                }
    }

    /// The subtask messages node `m` owes its children, as `r`.
    pub open spec fn task_msgs_outcome(m: NodeManager, r: Seq<Msg>) -> bool {
                match (m.state, m.tm.task_exec) {
                    (NodeState::InTask(tid, TaskState::InProgress), Some(td)) => if td.own_subtask is Some {
                        let recv = subtask_receivers(m.children@, m.children@.len() as int, tid, td.child_subtask@);
                        &&& r.len() == recv.len()
                        &&& forall|i: int|
                            0 <= i < r.len() ==> {
                                &&& (#[trigger] r[i]).to_ids@ == seq![recv[i]]
                                &&& r[i].sender@.nid == m.nid@
                                &&& (r[i].body matches MsgBody::Subtask(t) && t@ == td.child_subtask@[recv[i]]@)
                            }
                    } else {
                        r.len() == 0
                    },
                    _ => r.len() == 0,
                }
            }

    /// `msg` is node `m`'s Connection refresh to its children and parent.
    pub open spec fn is_connection_msg(m: NodeManager, msg: Msg) -> bool {
        &&& (msg.body matches MsgBody::Connection(d) && d.subswarm == m.subswarm_size_spec()
            && d.subswm_tsk == m.subswarm_task_state_spec())
        &&& msg.to_ids@ == match m.parent {
            Some(pn) => node_ids(m.children@).push(pn.desc@.id()),
            None => node_ids(m.children@),
        }
    }

    /// Moves to a better tree when one is in contact: takes the best
    /// candidate as parent, asks it to adopt this agent, and leaves the
    /// previous parent. Nothing happens when no contact ranks before this
    /// agent, or when the best one's path is malformed or holds this agent.
    pub fn try_join_other_swarm(&mut self, neighbours: &Vec<Contact>) -> (r: Vec<Msg>)
        requires
            old(self).wf(),
            forall|i: int| 0 <= i < neighbours@.len() ==> (#[trigger] neighbours@[i]).desc.nid@.len() > 0,
        ensures
            final(self).wf(),
            Self::same_settings(*old(self), *final(self)),
            final(self).children == old(self).children,
            final(self).parent == old(self).parent || (final(self).parent matches Some(pn)
                && pn.last_heard == old(self).now),
            r@.len() == 0 ==> *final(self) == *old(self),
            (forall|j: int|
                0 <= j < neighbours@.len() && eligible_parent(#[trigger] neighbours@[j], old(self).now, old(self).nid@[0])
                    ==> !old(self).beats_self(neighbours@[j])) ==> r@.len() == 0,
            Self::join_outcome(*old(self), *final(self), neighbours@, r@),
            final(self).parent == old(self).parent || (final(self).parent matches Some(pn) && contact_ids(
                neighbours@,
            ).contains(pn.desc@.id())),
            r@.len() > 0 ==> (r@[0].body matches MsgBody::Join(appl) && appl.src_tree == old(self).nid@[0]),
            r@.len() > 0 ==> (final(self).parent matches Some(pn) && r@[0].to_ids@ == seq![pn.desc@.id()]
                && pn.desc@.root_id() != old(self).nid@[0]),
            r@.len() <= 2,
            r@.len() == 2 ==> r@[1].body is Leave,
            r@.len() == 2 ==> (old(self).parent matches Some(op) && r@[1].to_ids@ == seq![op.desc@.id()]),
    {
        let mut msgs: Vec<Msg> = Vec::new();
        let found = self.find_parent_candidate(neighbours);
        if let Some(k) = found {
            let candidate = &neighbours[k];
            let src_tree: u32 = self.get_root_id();
            let prev_parent = match &self.parent {
                Some(pn) => Some(pn.get_id()),
                None => None,
            };
            proof {
                assert forall|k2: int| #[trigger] self.is_best_candidate(neighbours@, k2) implies k2 == k by {
                    self.lemma_best_candidate_unique(neighbours@, k2, k as int);
                }
            }
            if self.set_parent(&candidate.desc) {
                let dtl = self.generate_node_details();
                msgs.push(
                    Msg::new_to(
                        self.generate_node_desc(),
                        candidate.desc.get_id(),
                        MsgBody::Join(JoinAppl { dtl, src_tree }),
                    ),
                );
                if let Some(prev_pid) = prev_parent {
                    msgs.push(Msg::new_to(self.generate_node_desc(), prev_pid, MsgBody::Leave));
                }
            }
        } else {
            proof {
                assert forall|k2: int| #[trigger] self.is_best_candidate(neighbours@, k2) implies false by {
                    assert(eligible_parent(neighbours@[k2], self.now, self.nid@[0]));
                }
            }
        }
        msgs
    }

    /// Answers a Join: accepts the applicant as a child unless this agent's
    /// path holds it, it comes from this very tree, this agent is in a task,
    /// or too many children were adopted lately.
    pub fn add_child_or_reject(&mut self, desc: &NodeDesc, appl: &JoinAppl) -> (r: Msg)
        requires
            old(self).wf(),
            desc.nid@.len() > 0,
        ensures
            final(self).wf(),
            r.to_ids@ == seq![desc@.id()],
            (r.body is Accept) == (old(self).nid@[0] != appl.src_tree && old(self).state
                == NodeState::Free && old(self).child_adding_rate < CHILD_ADDING_RATE_LIMIT
                && !old(self).nid@.contains(desc@.id())),
            !(r.body is Accept) ==> r.body is Reject && *final(self) == *old(self),
            r.body is Accept ==> has_node(final(self).children@, desc@.id()),
            r.body is Accept && !has_node(old(self).children@, desc@.id()) ==> final(self).child_adding_rate
                == rate_add(old(self).child_adding_rate, CHILD_ADDING_UNIT as int) && final(self).children@.drop_last()
                == old(self).children@ && final(self).children@.last().desc@ == desc@,
            r.body is Accept && has_node(old(self).children@, desc@.id()) ==> *final(self) == *old(self),
            Self::same_settings(*old(self), *final(self)),
            final(self).parent == old(self).parent,
            final(self).nid == old(self).nid,
            final(self).state == old(self).state,
    {
        let id_other = desc.get_id();
        let accept: bool = self.get_root_id() != appl.src_tree && self.is_free()
            && self.child_adding_rate < CHILD_ADDING_RATE_LIMIT && self.add_child(desc, &appl.dtl);
        Msg::new_to(
            self.generate_node_desc(),
            id_other,
            if accept {
                MsgBody::Accept
            } else {
                MsgBody::Reject
            },
        )
    }

    /// Takes in a Connection refresh: from the parent, when its path still
    /// allows this agent below it, it replaces the parent's record and the
    /// path and state are re-derived; from a child that names this agent as
    /// its parent, it replaces that child's record. Anything else is
    /// ignored (the silence timer reaps stale links).
    pub fn update_connection(&mut self, desc: &NodeDesc, dtl: &NodeDetails)
        requires
            old(self).wf(),
            desc.nid@.len() > 0,
        ensures
            final(self).wf(),
            (old(self).parent matches Some(pn) && pn.desc@.id() == desc@.id()) && nid_wf(desc.nid@)
                && !desc.nid@.contains(old(self).conf.id) ==> (final(self).parent matches Some(pn)
                && pn.desc@ == desc@ && pn.details == *dtl && pn.last_heard == old(self).now
                && final(self).nid@ == desc.nid@.push(old(self).conf.id) && final(self).state
                == Self::state_under(old(self).state, desc.tsk)),
            (old(self).parent matches Some(pn) && pn.desc@.id() == desc@.id()) && !(nid_wf(desc.nid@)
                && !desc.nid@.contains(old(self).conf.id)) ==> *final(self) == *old(self),
            (old(self).parent matches Some(pn) && pn.desc@.id() == desc@.id()) ==> final(self).children
                == old(self).children && (final(self).parent matches Some(pn) && pn.desc@.id() == desc@.id()),
            !(old(self).parent matches Some(pn) && pn.desc@.id() == desc@.id()) ==> {
                &&& final(self).parent == old(self).parent
                &&& final(self).nid == old(self).nid
                &&& final(self).state == old(self).state
                &&& final(self).tm == old(self).tm
                &&& final(self).children@.len() == old(self).children@.len()
                &&& forall|i: int|
                    0 <= i < old(self).children@.len() ==> if (#[trigger] old(self).children@[i]).desc@.id()
                        == desc@.id() && !old(self).nid@.contains(desc@.id()) && parent_id_spec(desc.nid@)
                        == Some(old(self).conf.id) {
                        final(self).children@[i].desc@ == desc@ && final(self).children@[i].details == *dtl
                            && final(self).children@[i].last_heard == old(self).now
                    } else {
                        final(self).children@[i] == old(self).children@[i]
                    }
            },
            Self::same_settings(*old(self), *final(self)),
            final(self).now == old(self).now,
            final(self).child_adding_rate == old(self).child_adding_rate,
            final(self).p == old(self).p,
    {
        if self.has_parent_of_id(desc.get_id()) {
            if is_nid_wf(&desc.nid) && self.is_valid_descendant_of(desc) {
                self.parent = Some(Node { desc: desc.copy(), details: *dtl, last_heard: self.now });
                self.on_parent_info_updated();
            }
        } else {
            self.update_child_connection(desc, dtl);
        }
    }

    /// Refreshes the record of a linked child that still names this agent
    /// as its parent and is not one of its ancestors.
    pub fn update_child_connection(&mut self, desc: &NodeDesc, dtl: &NodeDetails)
        requires
            old(self).wf(),
            desc.nid@.len() > 0,
        ensures
            final(self).wf(),
            final(self).children@.len() == old(self).children@.len(),
            forall|i: int|
                0 <= i < old(self).children@.len() ==> if (#[trigger] old(self).children@[i]).desc@.id()
                    == desc@.id() && !old(self).nid@.contains(desc@.id()) && parent_id_spec(desc.nid@)
                    == Some(old(self).conf.id) {
                    final(self).children@[i].desc@ == desc@ && final(self).children@[i].details == *dtl
                        && final(self).children@[i].last_heard == old(self).now
                } else {
                    final(self).children@[i] == old(self).children@[i]
                },
            final(self).parent == old(self).parent,
            final(self).nid == old(self).nid,
            final(self).state == old(self).state,
            final(self).tm == old(self).tm,
            Self::same_settings(*old(self), *final(self)),
            final(self).now == old(self).now,
            final(self).child_adding_rate == old(self).child_adding_rate,
            final(self).p == old(self).p,
    {
        let id = self.get_id();
        let id_other = desc.get_id();
        if let Some(idx) = self.find_child(id_other) {
            if self.is_valid_ancestor_of(id_other) && desc.has_parent_of_id(id) {
                let ghost cs = self.children@;
                self.children.set(idx, Node { desc: desc.copy(), details: *dtl, last_heard: self.now });
                proof {
                    assert forall|a: int, b: int| 0 <= a < b < self.children@.len() implies
                        (#[trigger] self.children@[a]).desc@.id() != (#[trigger] self.children@[b]).desc@.id() by {
                        assert(a != idx ==> self.children@[a] == cs[a]);
                        assert(b != idx ==> self.children@[b] == cs[b]);
                    }
                    assert forall|a: int| 0 <= a < self.children@.len() implies
                        (#[trigger] self.children@[a]).desc.nid@.len() > 0 by {
                        assert(a != idx ==> self.children@[a] == cs[a]);
                    }
                    assert forall|i: int| 0 <= i < cs.len() && i != idx implies (#[trigger] cs[i]).desc@.id() != id_other by {
                    }
                }
            }
        }
    }

    /// Obeys a ChangeParent: takes the (first) contact named `pid_new` as
    /// parent, or becomes a root when there is no such contact or its path
    /// is malformed or holds this agent.
    pub fn change_parent(&mut self, pid_new: u32, neighbours: &Vec<Contact>)
        requires
            old(self).wf(),
            forall|i: int| 0 <= i < neighbours@.len() ==> (#[trigger] neighbours@[i]).desc.nid@.len() > 0,
        ensures
            final(self).wf(),
            match first_contact(neighbours@, neighbours@.len() as int, pid_new) {
                Some(k) => if nid_wf(neighbours@[k].desc.nid@) && !neighbours@[k].desc.nid@.contains(
                    old(self).conf.id,
                ) {
                    &&& final(self).parent matches Some(pn)
                    &&& pn.desc@ == neighbours@[k].desc@
                    &&& pn.last_heard == old(self).now
                    &&& final(self).nid@ == neighbours@[k].desc.nid@.push(old(self).conf.id)
                    &&& final(self).state == Self::state_under(old(self).state, neighbours@[k].desc.tsk)
                } else {
                    &&& final(self).parent is None
                    &&& final(self).nid@ == seq![old(self).conf.id]
                    &&& final(self).state == NodeState::Free
                },
                None => {
                    &&& final(self).parent is None
                    &&& final(self).nid@ == seq![old(self).conf.id]
                    &&& final(self).state == NodeState::Free
                },
            },
            final(self).children == old(self).children,
            Self::same_settings(*old(self), *final(self)),
            final(self).child_adding_rate == old(self).child_adding_rate,
            final(self).parent is None || final(self).parent->Some_0.desc@.id() == pid_new,
    {
        proof {
            lemma_first_contact(neighbours@, neighbours@.len() as int, pid_new);
        }
        let mut success: bool = false;
        if let Some(k) = find_contact(neighbours, pid_new) {
            success = self.set_parent(&neighbours[k].desc);
        }
        if !success {
            self.remove_parent();
        }
    }

    /// Whether the AssignChild for `cid` can be obeyed: the (first)
    /// contact `cid` is in this tree and in this node's task, and is not on
    /// this node's path.
    pub open spec fn assignable(&self, cid: u32, neighbours: Seq<Contact>) -> bool {
        match first_contact(neighbours, neighbours.len() as int, cid) {
            Some(k) => match self.state {
                NodeState::InTask(tid, _) => neighbours[k].desc@.root_id() == self.nid@[0]
                    && neighbours[k].desc.tsk == Some(tid) && !self.nid@.contains(cid),
                NodeState::Free => false,
            },
            None => false,
        }
    }

    /// Obeys an AssignChild: adopts the named contact when it is in this
    /// tree and in this agent's task; otherwise the task fails.
    pub fn add_assigned_child(&mut self, appl: &AssignChildAppl, neighbours: &Vec<Contact>)
        requires
            old(self).wf(),
            forall|i: int| 0 <= i < neighbours@.len() ==> (#[trigger] neighbours@[i]).desc.nid@.len() > 0,
        ensures
            final(self).wf(),
            final(self).parent == old(self).parent,
            final(self).nid == old(self).nid,
            Self::same_settings(*old(self), *final(self)),
            old(self).assignable(appl.cid, neighbours@) ==> has_node(final(self).children@, appl.cid)
                && final(self).state == old(self).state,
            links_from(*old(self), *final(self), contact_ids(neighbours@)),
            !old(self).assignable(appl.cid, neighbours@) ==> final(self).children == old(self).children
                && match old(self).state {
                NodeState::InTask(tid, _) => final(self).state == NodeState::InTask(tid, TaskState::Failure),
                NodeState::Free => final(self).state == NodeState::Free,
            },
    {
        let found = find_contact(neighbours, appl.cid);
        proof {
            lemma_first_contact(neighbours@, neighbours@.len() as int, appl.cid);
        }
        let success: bool = match found {
            Some(k) => {
                let t = &neighbours[k];
                match self.get_task_id() {
                    Some(tid) => self.get_root_id() == t.desc.get_root_id() && t.desc.has_task_of_id(tid)
                        && self.add_child(&t.desc, &appl.dtl),
                    None => false,
                }
            },
            None => false,
        };
        if !success {
            self.fail_task();
        }
    }

    /// A task that reaches a non-root goes on up to its parent; at the
    /// root it is queued if its id is new.
    pub fn relay_or_accept_task(&mut self, task: &Task) -> (r: Vec<Msg>)
        requires
            old(self).wf(),
        ensures
            final(self).wf(),
            old(self).parent matches Some(pn) ==> r@.len() == 1 && r@[0].sender@.nid == old(self).nid@
                && r@[0].sender.swm == old(self).swarm_size_spec() && r@[0].sender.p == old(self).p
                && r@[0].sender.v == old(self).v && r@[0].sender.tsk == match old(self).state {
                NodeState::InTask(tid, _) => Some(tid),
                NodeState::Free => None::<u32>,
            } && r@[0].to_ids@ == seq![pn.desc@.id()]
                && (r@[0].body matches MsgBody::Task(t) && t@ == task@) && *final(self) == *old(self),
            old(self).parent is None ==> r@.len() == 0 && final(self).tm@ == crate::tm::add_task_spec(
                old(self).tm@,
                task@,
            ),
            final(self).parent == old(self).parent,
            final(self).nid == old(self).nid,
            final(self).state == old(self).state,
            final(self).children == old(self).children,
            Self::same_settings(*old(self), *final(self)),
    {
        let mut r: Vec<Msg> = Vec::new();
        match self.get_parent_id() {
            Some(pid) => {
                r.push(Msg::new_to(self.generate_node_desc(), pid, MsgBody::Task(task.copy())));
            },
            None => {
                self.tm.add_task_if_new(task);
            },
        }
        r
    }

    /// Takes the part of the task that the parent allotted to this
    /// subtree, when this agent is in that task and holds no part yet.
    pub fn allocate_subtask(&mut self, subtask: &Task)
        requires
            old(self).wf(),
        ensures
            final(self).wf(),
            (old(self).state matches NodeState::InTask(tid, _) && tid == subtask.id)
                && old(self).tm.task_exec.is_none() ==> (final(self).tm.task_exec matches Some(td)
                && td.task@ == subtask@ && td.own_subtask.is_none()),
            !((old(self).state matches NodeState::InTask(tid, _) && tid == subtask.id)
                && old(self).tm.task_exec.is_none()) ==> *final(self) == *old(self),
            final(self).parent == old(self).parent,
            final(self).nid == old(self).nid,
            final(self).state == old(self).state,
            final(self).children == old(self).children,
            Self::same_settings(*old(self), *final(self)),
    {
        if self.has_task_of_id(subtask.id) && self.tm.get_current_task().is_none() {
            self.tm.set_current_task(subtask.copy());
        }
    }

    /// This agent's own target, once its part of the task is divided.
    pub open spec fn own_target(&self) -> Option<PosVec> {
        match self.tm.task_exec {
            Some(td) => match td.own_subtask {
                Some(te) => Some(te.pos_target),
                None => None,
            },
            None => None,
        }
    }

    /// The velocity this agent proposes: toward its own target when it has
    /// one (at half the top speed, slower within a second of it); otherwise
    /// toward its parent at half the top speed unless closer than half the
    /// contact range; zero at a root.
    pub open spec fn next_v_spec(&self) -> Velocity {
        match self.own_target() {
            Some(t) => {
                let half = self.conf.max_v as nat / 2;
                let d = seg_len(self.p, t);
                pursuit_spec(self.p, t, if d < half { d } else { half })
            },
            None => match self.parent {
                None => Velocity { vx: 0, vy: 0, vz: 0 },
                Some(pn) => if 4 * dist_sq_spec(pn.desc.p, self.p) < self.conf.contact_range
                    * self.conf.contact_range {
                    Velocity { vx: 0, vy: 0, vz: 0 }
                } else {
                    pursuit_spec(self.p, pn.desc.p, self.conf.max_v as nat / 2)
                },
            },
        }
    }

    pub fn calc_next_v(&self) -> (r: Velocity)
        ensures
            r == self.next_v_spec(),
    {
        let half: u64 = self.conf.max_v as u64 / 2;
        let target = match &self.tm.task_exec {
            Some(td) => match &td.own_subtask {
                Some(te) => Some(te.pos_target),
                None => None,
            },
            None => None,
        };
        match target {
            Some(t) => {
                let d = crate::vector::distance(&self.p, &t);
                pursuit(&self.p, &t, if d < half { d } else { half })
            },
            None => match &self.parent {
                None => Velocity { vx: 0, vy: 0, vz: 0 },
                Some(pn) => {
                    let range = self.conf.contact_range as u128;
                    proof {
                        assert(range * range <= 0xFFFF_FFFF * 0xFFFF_FFFF) by (nonlinear_arith)
                            requires range <= 0xFFFF_FFFF;
                    }
                    if 4 * dist_sq(&pn.desc.p, &self.p) < range * range {
                        Velocity { vx: 0, vy: 0, vz: 0 }
                    } else {
                        pursuit(&self.p, &pn.desc.p, half)
                    }
                },
            },
        }
    }

    /// The Connection refresh for the children and the parent.
    pub fn generate_connection_msg(&self) -> (r: Msg)
        requires
            self.wf(),
        ensures
            r.body matches MsgBody::Connection(d) && d.subswarm == self.subswarm_size_spec()
                && d.subswm_tsk == self.subswarm_task_state_spec(),
            r.to_ids@ == match self.parent {
                Some(pn) => node_ids(self.children@).push(pn.desc@.id()),
                None => node_ids(self.children@),
            },
    {
        let mut to_ids: Vec<u32> = Vec::new();
        let mut i: usize = 0;
        while i < self.children.len()
            invariant
                self.wf(),
                i <= self.children@.len(),
                to_ids@ == node_ids(self.children@.take(i as int)),
            decreases self.children.len() - i,
        {
            to_ids.push(self.children[i].get_id());
            i += 1;
            proof {
                assert(to_ids@ =~= node_ids(self.children@.take(i as int)));
            }
        }
        proof {
            assert(self.children@.take(self.children@.len() as int) =~= self.children@);
        }
        if let Some(pnd) = &self.parent {
            to_ids.push(pnd.get_id());
        }
        Msg {
            sender: self.generate_node_desc(),
            to_ids,
            body: MsgBody::Connection(self.generate_node_details()),
        }
    }

    /// Subtasks for the children that have aligned on the task in progress
    /// but do not hold their part yet, in children order.
    pub fn generate_task_related_msgs(&self) -> (r: Vec<Msg>)
        requires
            self.wf(),
        ensures
            Self::task_msgs_outcome(*self, r@),
            forall|i: int|
                0 <= i < r@.len() ==> ((#[trigger] r@[i]).body matches MsgBody::Subtask(t)
                    && self.tm.task_exec matches Some(td) && r@[i].to_ids@.len() == 1
                    && td.child_subtask@.contains_key(r@[i].to_ids@[0]) && t@
                    == td.child_subtask@[r@[i].to_ids@[0]]@ && has_node(self.children@, r@[i].to_ids@[0])),
    {
        let mut r: Vec<Msg> = Vec::new();
        if let NodeState::InTask(tid, TaskState::InProgress) = self.state {
            if let Some(td) = self.tm.get_current_task() {
                if td.is_task_divided() {
                    let mut i: usize = 0;
                    while i < self.children.len()
                        invariant
                            self.wf(),
                            i <= self.children@.len(),
                            self.tm.task_exec == Some(*td),
                            r@.len() == subtask_receivers(self.children@, i as int, tid, td.child_subtask@).len(),
                            forall|q: int|
                                0 <= q < r@.len() ==> {
                                    &&& (#[trigger] r@[q]).to_ids@ == seq![subtask_receivers(self.children@, i as int, tid, td.child_subtask@)[q]]
                                    &&& r@[q].sender@.nid == self.nid@
                                    &&& (r@[q].body matches MsgBody::Subtask(t) && t@ == td.child_subtask@[subtask_receivers(self.children@, i as int, tid, td.child_subtask@)[q]]@)
                                    &&& td.child_subtask@.contains_key(r@[q].to_ids@[0])
                                    &&& has_node(self.children@, r@[q].to_ids@[0])
                                },
                        decreases self.children.len() - i,
                    {
                        let cnd = &self.children[i];
                        let ghost before = subtask_receivers(self.children@, i as int, tid, td.child_subtask@);
                        if cnd.details.is_subswm_alignment_done_for_tsk(tid)
                            && !cnd.details.is_subswm_allocation_done_for_tsk(tid) {
                            let cid = cnd.get_id();
                            if let Some(t) = td.get_child_subtask(cid) {
                                let ghost q = r@.len();
                                r.push(Msg::new_to(self.generate_node_desc(), cid, MsgBody::Subtask(t.copy())));
                                proof {
                                    assert(r@[q as int].to_ids@ == seq![cid]);
                                    assert(self.children@[i as int].desc@.id() == cid);
                                }
                            }
                        }
                        i += 1;
                    }
                }
            }
        }
        r
    }

    /// Drops the parent and the children that went out of contact.
    pub fn remove_no_contact_nodes(&mut self, rm: &Vec<u32>)
        requires
            old(self).wf(),
        ensures
            final(self).wf(),
            final(self).parent matches Some(pn) ==> !rm@.contains(pn.desc@.id()),
            forall|i: int| 0 <= i < rm@.len() ==> !has_node(final(self).children@, #[trigger] rm@[i]),
            Self::same_settings(*old(self), *final(self)),
            (old(self).parent matches Some(pn) && !rm@.contains(pn.desc@.id())) ==> final(self).parent == old(self).parent
                && final(self).nid == old(self).nid,
            rm@.len() == 0 ==> *final(self) == *old(self),
            (old(self).parent matches Some(pn) && rm@.contains(pn.desc@.id())) ==> final(self).parent is None
                && final(self).nid@ == seq![old(self).conf.id],
            forall|i: int|
                0 <= i < old(self).children@.len() && !rm@.contains((#[trigger] old(self).children@[i]).desc@.id())
                    ==> final(self).children@.contains(old(self).children@[i]),
            forall|i: int|
                0 <= i < final(self).children@.len() ==> old(self).children@.contains(#[trigger] final(self).children@[i]),
            final(self).now == old(self).now,
            final(self).p == old(self).p,
    {
        let parent_gone = match &self.parent {
            Some(pnd) => ids_contain(rm, pnd.get_id()),
            None => false,
        };
        if parent_gone {
            self.remove_parent();
        }
        let ghost p1 = self.parent;
        let ghost n1 = self.nid;
        let ghost c0 = self.children@;
        let mut i: usize = 0;
        while i < rm.len()
            invariant
                self.wf(),
                i <= rm@.len(),
                self.parent matches Some(pn) ==> !rm@.contains(pn.desc@.id()),
                forall|q: int| 0 <= q < i ==> !has_node(self.children@, #[trigger] rm@[q]),
                Self::same_settings(*old(self), *self),
                self.parent == p1,
                self.nid == n1,
                c0 == old(self).children@,
                rm@.len() == 0 ==> *self == *old(self),
                forall|k: int|
                    0 <= k < c0.len() && !rm@.contains((#[trigger] c0[k]).desc@.id()) ==> self.children@.contains(c0[k]),
                forall|k: int| 0 <= k < self.children@.len() ==> c0.contains(#[trigger] self.children@[k]),
            decreases rm.len() - i,
        {
            let ghost before = self.children@;
            self.remove_child_of_id(rm[i]);
            proof {
                assert forall|k: int|
                    0 <= k < c0.len() && !rm@.contains((#[trigger] c0[k]).desc@.id()) implies self.children@.contains(c0[k]) by {
                    let k2 = choose|k2: int| 0 <= k2 < before.len() && before[k2] == c0[k];
                    assert(before[k2].desc@.id() != rm@[i as int]);
                }
                assert forall|k: int| 0 <= k < self.children@.len() implies c0.contains(#[trigger] self.children@[k]) by {
                    assert(before.contains(self.children@[k]));
                    let k2 = choose|k2: int| 0 <= k2 < before.len() && before[k2] == self.children@[k];
                    assert(c0.contains(before[k2]));
                }
                assert forall|q: int| 0 <= q < i + 1 implies !has_node(self.children@, #[trigger] rm@[q]) by {
                    if q < i && has_node(self.children@, rm@[q]) {
                        let k = choose|k: int| 0 <= k < self.children@.len() && (#[trigger] self.children@[k]).desc@.id() == rm@[q];
                        assert(before.contains(self.children@[k]));
                        let k2 = choose|k2: int| 0 <= k2 < before.len() && before[k2] == self.children@[k];
                        assert(before[k2].desc@.id() == rm@[q]);
                    }
                }
            }
            i += 1;
        }
    }

    /// Drops the parent and the children not heard for longer than the
    /// link timeout.
    pub fn remove_no_connection_nodes(&mut self)
        requires
            old(self).wf(),
        ensures
            final(self).wf(),
            final(self).parent matches Some(pn) ==> elapsed(pn.last_heard, final(self).now) <= final(self).node_lost_duration,
            forall|i: int|
                0 <= i < final(self).children@.len() ==> elapsed(
                    (#[trigger] final(self).children@[i]).last_heard,
                    final(self).now,
                ) <= final(self).node_lost_duration,
            Self::same_settings(*old(self), *final(self)),
            final(self).now == old(self).now,
            final(self).p == old(self).p,
            final(self).node_lost_duration == old(self).node_lost_duration,
            (old(self).parent matches Some(pn) && elapsed(pn.last_heard, old(self).now) <= old(self).node_lost_duration)
                ==> final(self).parent == old(self).parent && final(self).nid == old(self).nid,
            final(self).parent is None || final(self).parent == old(self).parent,
            forall|i: int| 0 <= i < final(self).children@.len() ==> old(self).children@.contains(#[trigger] final(self).children@[i]),
            forall|i: int|
                0 <= i < old(self).children@.len() && elapsed(
                    (#[trigger] old(self).children@[i]).last_heard,
                    old(self).now,
                ) <= old(self).node_lost_duration ==> final(self).children@.contains(old(self).children@[i]),
            (old(self).parent matches Some(pn) && elapsed(pn.last_heard, old(self).now) <= old(self).node_lost_duration)
                && (old(self).state matches NodeState::InTask(tid, _)) && (exists|i: int|
                0 <= i < old(self).children@.len() && elapsed(
                    (#[trigger] old(self).children@[i]).last_heard,
                    old(self).now,
                ) > old(self).node_lost_duration && old(self).children@[i].desc.tsk == Some(
                    old(self).state->InTask_0,
                )) ==> final(self).state == NodeState::InTask(old(self).state->InTask_0, TaskState::Failure),
    {
        let now = self.now;
        let lost = self.node_lost_duration;
        let parent_lost = match &self.parent {
            Some(pnd) => (if now >= pnd.last_heard { now - pnd.last_heard } else { 0 }) > lost,
            None => false,
        };
        if parent_lost {
            self.remove_parent();
        }
        let mut rm: Vec<u32> = Vec::new();
        let mut i: usize = 0;
        while i < self.children.len()
            invariant
                self.wf(),
                i <= self.children@.len(),
                self.now == now,
                self.node_lost_duration == lost,
                Self::same_settings(*old(self), *self),
                parent_lost ==> self.parent is None,
                !parent_lost ==> self.parent == old(self).parent && self.nid == old(self).nid,
                forall|q: int| 0 <= q < i ==> (elapsed((#[trigger] self.children@[q]).last_heard, now) > lost
                    <==> rm@.contains(self.children@[q].desc@.id())),
                forall|q: int| 0 <= q < rm@.len() ==> has_node(self.children@.take(i as int), #[trigger] rm@[q]),
            decreases self.children.len() - i,
        {
            let cnd = &self.children[i];
            let heard: u64 = if now >= cnd.last_heard { now - cnd.last_heard } else { 0 };
            let ghost r0 = rm@;
            if heard > lost {
                rm.push(cnd.get_id());
                proof {
                    assert forall|x: u32| rm@.contains(x) <==> r0.contains(x) || x == cnd.desc@.id() by {
                        if x == cnd.desc@.id() { assert(rm@[r0.len() as int] == x); }
                        if r0.contains(x) { let k = choose|k: int| 0 <= k < r0.len() && r0[k] == x; assert(rm@[k] == x); }
                        if rm@.contains(x) { let k = choose|k: int| 0 <= k < rm@.len() && rm@[k] == x; if k < r0.len() { assert(r0[k] == x); } }
                    }
                    assert forall|q: int| 0 <= q < i + 1 implies (elapsed((#[trigger] self.children@[q]).last_heard, now) > lost
                        <==> rm@.contains(self.children@[q].desc@.id())) by {
                        crate::contacts::lemma_push_contains(r0, cnd.desc@.id(), self.children@[q].desc@.id());
                        if q < i {
                            assert(self.children@[q].desc@.id() != self.children@[i as int].desc@.id());
                        }
                    }
                    assert forall|q: int| 0 <= q < rm@.len() implies has_node(self.children@.take(i + 1), #[trigger] rm@[q]) by {
                        if q < r0.len() {
                            assert(has_node(self.children@.take(i as int), r0[q]));
                            let j = choose|j: int| 0 <= j < self.children@.take(i as int).len() && (#[trigger] self.children@.take(i as int)[j]).desc@.id() == r0[q];
                            assert(self.children@.take(i + 1)[j] == self.children@.take(i as int)[j]);
                        } else {
                            assert(self.children@.take(i + 1)[i as int] == cnd);
                        }
                    }
                }
            } else {
                proof {
                    assert(!r0.contains(cnd.desc@.id())) by {
                        if r0.contains(cnd.desc@.id()) {
                            let k = choose|k: int| 0 <= k < r0.len() && r0[k] == cnd.desc@.id();
                            assert(has_node(self.children@.take(i as int), r0[k]));
                            let q = choose|q: int| 0 <= q < self.children@.take(i as int).len() && (#[trigger] self.children@.take(i as int)[q]).desc@.id() == r0[k];
                            assert(self.children@.take(i as int)[q] == self.children@[q]);
                            assert(false);
                        }
                    }
                    assert forall|q: int| 0 <= q < i + 1 implies (elapsed((#[trigger] self.children@[q]).last_heard, now) > lost
                        <==> rm@.contains(self.children@[q].desc@.id())) by {
                    }
                    assert forall|q: int| 0 <= q < rm@.len() implies has_node(self.children@.take(i + 1), #[trigger] rm@[q]) by {
                        assert(has_node(self.children@.take(i as int), r0[q]));
                        let j = choose|j: int| 0 <= j < self.children@.take(i as int).len() && (#[trigger] self.children@.take(i as int)[j]).desc@.id() == r0[q];
                        assert(self.children@.take(i + 1)[j] == self.children@.take(i as int)[j]);
                    }
                }
            }
            i += 1;
        }
        proof {
            assert(rm@.subrange(0, rm@.len() as int) =~= rm@);
        }
        let ghost c0 = self.children@;
        let ghost tid0: u32 = match old(self).state {
            NodeState::InTask(t, _) => t,
            NodeState::Free => 0,
        };
        let ghost in_task = !parent_lost && old(self).state != NodeState::Free;
        let mut k: usize = 0;
        while k < rm.len()
            invariant
                c0 == old(self).children@,
                forall|q: int| 0 <= q < self.children@.len() ==> c0.contains(#[trigger] self.children@[q]),
                in_task == (!parent_lost && old(self).state != NodeState::Free),
                tid0 == match old(self).state {
                    NodeState::InTask(t, _) => t,
                    NodeState::Free => 0,
                },
                in_task ==> (self.state matches NodeState::InTask(t2, _) && t2 == tid0),
                in_task ==> self.state == NodeState::InTask(tid0, TaskState::Failure) || forall|j: int|
                    0 <= j < c0.len() && elapsed((#[trigger] c0[j]).last_heard, now) > lost && c0[j].desc.tsk
                        == Some(tid0) ==> self.children@.contains(c0[j]),
                forall|j: int|
                    0 <= j < c0.len() && elapsed((#[trigger] c0[j]).last_heard, now) <= lost ==> self.children@.contains(c0[j]),
                self.wf(),
                k <= rm@.len(),
                self.now == now,
                self.node_lost_duration == lost,
                Self::same_settings(*old(self), *self),
                parent_lost ==> self.parent is None,
                !parent_lost ==> self.parent == old(self).parent && self.nid == old(self).nid,
                forall|q: int| 0 <= q < self.children@.len() ==> (elapsed((#[trigger] self.children@[q]).last_heard, now) > lost
                    <==> rm@.subrange(k as int, rm@.len() as int).contains(self.children@[q].desc@.id())),
            decreases rm.len() - k,
        {
            let ghost before = self.children@;
            let ghost st0 = self.state;
            let x = rm[k];
            self.remove_child_of_id(x);
            proof {
                assert forall|q: int| 0 <= q < self.children@.len() implies c0.contains(#[trigger] self.children@[q]) by {
                    assert(before.contains(self.children@[q]));
                    let q2 = choose|q2: int| 0 <= q2 < before.len() && before[q2] == self.children@[q];
                    assert(c0.contains(before[q2]));
                }
                if in_task && self.state != NodeState::InTask(tid0, TaskState::Failure) {
                    assert forall|j: int|
                        0 <= j < c0.len() && elapsed((#[trigger] c0[j]).last_heard, now) > lost && c0[j].desc.tsk
                            == Some(tid0) implies self.children@.contains(c0[j]) by {
                        if st0 != NodeState::InTask(tid0, TaskState::Failure) {
                            let q = choose|q: int| 0 <= q < before.len() && before[q] == c0[j];
                            if before[q].desc@.id() == x {
                                assert(has_node(before, x));
                                assert(false);
                            }
                        }
                    }
                }
                assert forall|j: int|
                    0 <= j < c0.len() && elapsed((#[trigger] c0[j]).last_heard, now) <= lost implies self.children@.contains(c0[j]) by {
                    let q = choose|q: int| 0 <= q < before.len() && before[q] == c0[j];
                    assert(!rm@.subrange(k as int, rm@.len() as int).contains(before[q].desc@.id()));
                    if before[q].desc@.id() == x {
                        assert(rm@.subrange(k as int, rm@.len() as int)[0] == x);
                    }
                }
                assert forall|q: int| 0 <= q < self.children@.len() implies (elapsed((#[trigger] self.children@[q]).last_heard, now) > lost
                    <==> rm@.subrange(k + 1, rm@.len() as int).contains(self.children@[q].desc@.id())) by {
                    let c = self.children@[q];
                    assert(before.contains(c));
                    let j = choose|j: int| 0 <= j < before.len() && before[j] == c;
                    assert(c.desc@.id() != x);
                    let sub = rm@.subrange(k as int, rm@.len() as int);
                    let sub2 = rm@.subrange(k + 1, rm@.len() as int);
                    if sub.contains(c.desc@.id()) {
                        let t = choose|t: int| 0 <= t < sub.len() && sub[t] == c.desc@.id();
                        assert(t != 0);
                        assert(sub2[t - 1] == c.desc@.id());
                    }
                    if sub2.contains(c.desc@.id()) {
                        let t = choose|t: int| 0 <= t < sub2.len() && sub2[t] == c.desc@.id();
                        assert(sub[t + 1] == c.desc@.id());
                    }
                }
            }
            k += 1;
        }
    }

    /// Whether every child reports success of task `tid` for its subtree.
    pub open spec fn children_succeeded(&self, tid: u32) -> bool {
        forall|i: int|
            0 <= i < self.children@.len() ==> (#[trigger] self.children@[i]).details.subswm_tsk
                == SubswarmTaskState::Succ(tid)
    }

    /// Whether some child reports failure of task `tid` in its subtree.
    pub open spec fn child_failed(&self, tid: u32) -> bool {
        exists|i: int|
            0 <= i < self.children@.len() && (#[trigger] self.children@[i]).details.subswm_tsk
                == SubswarmTaskState::Fail(tid)
    }

    fn all_children_succeeded(&self, tid: u32) -> (r: bool)
        ensures
            r == self.children_succeeded(tid),
    {
        let mut i: usize = 0;
        while i < self.children.len()
            invariant
                i <= self.children@.len(),
                forall|j: int|
                    0 <= j < i ==> (#[trigger] self.children@[j]).details.subswm_tsk == SubswarmTaskState::Succ(
                        tid,
                    ),
            decreases self.children.len() - i,
        {
            if !self.children[i].details.is_subswm_success_in_tsk(tid) {
                return false;
            }
            i += 1;
        }
        true
    }

    fn any_child_failed(&self, tid: u32) -> (r: bool)
        ensures
            r == self.child_failed(tid),
    {
        let mut i: usize = 0;
        while i < self.children.len()
            invariant
                i <= self.children@.len(),
                forall|j: int|
                    0 <= j < i ==> (#[trigger] self.children@[j]).details.subswm_tsk != SubswarmTaskState::Fail(
                        tid,
                    ),
            decreases self.children.len() - i,
        {
            if self.children[i].details.is_subswm_failure_in_tsk(tid) {
                return true;
            }
            i += 1;
        }
        false
    }

    /// Moves this agent's part of task `tid` on: divides it over the
    /// children if not done yet (failing the task when it cannot be
    /// divided), then checks arrival on the own target. Success needs the
    /// own target held and every child's subtree successful.
    pub fn advance_task(&mut self, tid: u32)
        requires
            old(self).wf(),
            old(self).state matches NodeState::InTask(t, _) && t == tid,
        ensures
            final(self).wf(),
            final(self).parent == old(self).parent,
            final(self).nid == old(self).nid,
            final(self).children == old(self).children,
            Self::same_settings(*old(self), *final(self)),
            old(self).tm.task_exec is None ==> *final(self) == *old(self),
            final(self).state == old(self).state || final(self).state == NodeState::InTask(tid, TaskState::Failure)
                || (final(self).state == NodeState::InTask(tid, TaskState::Success) && final(self).children_succeeded(tid)),
            old(self).tm.task_exec matches Some(td) ==> (final(self).tm.task_exec matches Some(td2) && {
                &&& td2.task == td.task
                &&& final(self).tm.queued_tasks == old(self).tm.queued_tasks
                &&& final(self).tm.old_tasks == old(self).tm.old_tasks
                &&& td.own_subtask is Some ==> td2.own_subtask == Some(
                    advanced_executor(td.own_subtask->Some_0, old(self).p, old(self).now),
                ) && td2.child_subtask@ == td.child_subtask@
                &&& td.own_subtask is None && td2.own_subtask is None ==> td2.child_subtask@ == td.child_subtask@
                &&& td.own_subtask is None && td2.own_subtask is None ==> !(divisible(td.task.lines@, child_infos(old(self).children@))
                    && td.task.comm_point is None)
                &&& td.own_subtask is None && td2.own_subtask is Some ==> exists|piece: LineView|
                    #[trigger] first_piece_ok(td.task.lines@[0]@, first_line_share(td.task.lines@, child_infos(old(self).children@)), piece)
                        && own_target_ok(piece, td2.own_subtask->Some_0.pos_target)
                &&& td.own_subtask is None && td2.own_subtask is Some ==> forall|i: int|
                    0 <= i < old(self).children@.len() ==> (#[trigger] td2.child_subtask@[old(self).children@[i].desc@.id()])@.lines
                        == division_groups(td.task.lines@, child_infos(old(self).children@))[i + 1]
                &&& td.own_subtask is None && td2.own_subtask is Some ==> td2.own_subtask->Some_0 == advanced_executor(
                    TaskExecutor::new_spec(td2.own_subtask->Some_0.pos_target, td.task.duration_ms),
                    old(self).p,
                    old(self).now,
                )
                &&& final(self).state == match td2.own_subtask {
                    None => NodeState::InTask(tid, TaskState::Failure),
                    Some(te1) => if executor_result(te1.on_pos_t, te1.succ_duration, old(self).now) == Some(true)
                        && old(self).children_succeeded(tid) {
                        NodeState::InTask(tid, TaskState::Success)
                    } else {
                        old(self).state
                    },
                }
            }),
    {
        let mut slot: Option<crate::tm::TaskDivider> = None;
        std::mem::swap(&mut slot, &mut self.tm.task_exec);
        match slot {
            None => {},
            Some(mut td) => {
                let mut ok = true;
                if !td.is_task_divided() {
                    let mut children_info: Vec<ChildInfo> = Vec::new();
                    let mut i: usize = 0;
                    while i < self.children.len()
                        invariant
                            i <= self.children@.len(),
                            nodes_wf(self.children@),
                            children_info@ == child_infos(self.children@.take(i as int)),
                        decreases self.children.len() - i,
                    {
                        children_info.push(
                            ChildInfo {
                                id: self.children[i].get_id(),
                                subswm_size: self.children[i].details.subswarm,
                            },
                        );
                        i += 1;
                        proof {
                            assert(children_info@ =~= child_infos(self.children@.take(i as int)));
                        }
                    }
                    proof {
                        assert(children_info@ =~= child_infos(self.children@));
                        assert forall|a: int, b: int|
                            0 <= a < children_info@.len() && 0 <= b < children_info@.len() && a != b implies
                            children_info@[a].id != children_info@[b].id by {
                            assert(children_info@[a].id == self.children@[a].desc@.id());
                            assert(children_info@[b].id == self.children@[b].desc@.id());
                        }
                    }
                    ok = td.divide_task(&children_info, self.conf.contact_range as u64);
                    proof {
                        if ok {
                            let ci = child_infos(self.children@);
                            assert forall|i: int| 0 <= i < self.children@.len() implies (#[trigger] td.child_subtask@[self.children@[i].desc@.id()])@.lines
                                == division_groups(td.task.lines@, ci)[i + 1] by {
                                assert(children_info@[i].id == self.children@[i].desc@.id());
                                assert forall|j: int| 0 <= j < children_info@.len() && j != i implies children_info@[j].id != children_info@[i].id by {
                                    assert(children_info@[j].id == self.children@[j].desc@.id());
                                }
                            }
                        }
                    }
                }
                let result: Option<bool> = if !ok {
                    Some(false)
                } else {
                    match td.own_subtask {
                        Some(te0) => {
                            let mut te = te0;
                            let res = te.advance(&self.p, self.now);
                            td.own_subtask = Some(te);
                            res
                        },
                        None => None,
                    }
                };
                self.tm.task_exec = Some(td);
                match result {
                    Some(false) => {
                        self.switch_state_to_in_task(tid, TaskState::Failure);
                    },
                    Some(true) => {
                        if self.all_children_succeeded(tid) {
                            self.switch_state_to_in_task(tid, TaskState::Success);
                        }
                    },
                    None => {},
                }
                proof {
                    let td0 = old(self).tm.task_exec->Some_0;
                    let td2 = self.tm.task_exec->Some_0;
                    assert(td2.task == td0.task);
                    assert(self.tm.queued_tasks == old(self).tm.queued_tasks);
                    assert(self.tm.old_tasks == old(self).tm.old_tasks);
                    assert(self.state == match td2.own_subtask {
                        None => NodeState::InTask(tid, TaskState::Failure),
                        Some(te1) => if executor_result(te1.on_pos_t, te1.succ_duration, old(self).now) == Some(true)
                            && old(self).children_succeeded(tid) {
                            NodeState::InTask(tid, TaskState::Success)
                        } else {
                            old(self).state
                        },
                    });
                }
            },
        }
    }

    /// Task bookkeeping of every node: a child's failure fails the task;
    /// once the whole subtree is aligned the task advances. A root then
    /// moves on from a finished task (or from being free) to the next
    /// queued task, or becomes free.
    pub fn manage_node_state(&mut self)
        requires
            old(self).wf(),
        ensures
            final(self).wf(),
            final(self).nid == old(self).nid,
            final(self).parent == old(self).parent,
            final(self).children == old(self).children,
            Self::same_settings(*old(self), *final(self)),
            old(self).parent is Some && (old(self).state matches NodeState::InTask(tid, ts) && ts
                != TaskState::Failure && old(self).child_failed(tid)) ==> final(self).state
                == NodeState::InTask(old(self).state->InTask_0, TaskState::Failure),
            old(self).parent is Some && (old(self).state matches NodeState::InTask(_, TaskState::Failure))
                ==> final(self).state == old(self).state,
    {
        match self.state {
            NodeState::InTask(tid, TaskState::InProgress) | NodeState::InTask(tid, TaskState::Success) => {
                if self.any_child_failed(tid) {
                    self.switch_state_to_in_task(tid, TaskState::Failure);
                } else if self.all_child_subswarms_alignment_done_for_task(tid) {
                    self.advance_task(tid);
                }
            },
            _ => {},
        }
        if self.is_root_node() {
            self.manage_root_node_state();
        }
    }

    /// At the root: while a task is in progress nothing changes; otherwise
    /// the oldest queued task starts, or the swarm becomes free.
    pub fn manage_root_node_state(&mut self)
        requires
            old(self).wf(),
        ensures
            final(self).wf(),
            old(self).state matches NodeState::InTask(_, TaskState::InProgress) ==> *final(self) == *old(self),
            !(old(self).state matches NodeState::InTask(_, TaskState::InProgress)) && old(self).tm@.queued.len()
                > 0 ==> (final(self).state == NodeState::InTask(old(self).tm@.queued[0].id, TaskState::InProgress)
                && final(self).tm@.current == Some(old(self).tm@.queued[0].id)
                && final(self).tm@.queued == old(self).tm@.queued.drop_first()),
            !(old(self).state matches NodeState::InTask(_, TaskState::InProgress)) ==> final(self).tm@.old_tasks
                == crate::tm::clear_current_spec(old(self).tm@).old_tasks,
            !(old(self).state matches NodeState::InTask(_, TaskState::InProgress)) && (old(self).tm@.current matches Some(c))
                ==> final(self).tm@.old_tasks.contains(old(self).tm@.current->Some_0),
            !(old(self).state matches NodeState::InTask(_, TaskState::InProgress)) && old(self).tm@.queued.len()
                == 0 ==> final(self).state == NodeState::Free && final(self).tm@.current is None,
            final(self).nid == old(self).nid,
            final(self).parent == old(self).parent,
            final(self).children == old(self).children,
            Self::same_settings(*old(self), *final(self)),
    {
        if let NodeState::InTask(_, TaskState::InProgress) = self.state {
            return;
        }
        // the finished task, if any, is recorded before the next one starts
        self.tm.clear_current_task();
        match self.tm.pop_queued_task() {
            Some(t) => {
                let ghost q = self.tm@.queued;
                self.switch_state_to_in_task(t.id, TaskState::InProgress);
                proof {
                    assert(self.tm@.queued == q);
                }
                self.tm.set_current_task(t);
            },
            None => {
                self.switch_state_to_free();
            },
        }
    }

    /// Emits the periodic state messages: every state period, a free agent
    /// tries to join a better tree and an agent in a task hands out
    /// subtasks; a Connection refresh goes to parent and children each
    /// period and whenever anything else is sent.
    pub fn maybe_generate_node_state_msg(&mut self, neighbours: &Vec<Contact>, msgs_out: &mut Vec<Msg>)
        requires
            old(self).wf(),
            forall|i: int| 0 <= i < neighbours@.len() ==> (#[trigger] neighbours@[i]).desc.nid@.len() > 0,
        ensures
            final(self).wf(),
            final(self).conf == old(self).conf,
            final(self).now == old(self).now,
            final(self).p == old(self).p,
            final(self).v == old(self).v,
            final(self).node_lost_duration == old(self).node_lost_duration,
            final(self).state_msg_duration == old(self).state_msg_duration,
            final(self).children == old(self).children,
            final(self).parent == old(self).parent || (final(self).parent matches Some(pn)
                && pn.last_heard == old(self).now),
            old(self).state != NodeState::Free ==> final(self).state == old(self).state && final(self).parent
                == old(self).parent,
            final(self).parent == old(self).parent || (final(self).parent matches Some(pn) && contact_ids(
                neighbours@,
            ).contains(pn.desc@.id())),
            old(msgs_out)@.len() <= final(msgs_out)@.len(),
            final(msgs_out)@.subrange(0, old(msgs_out)@.len() as int) == old(msgs_out)@,
            ({
                let due = elapsed(old(self).last_state_msg_t, old(self).now) > old(self).state_msg_duration;
                let mid = NodeManager { last_state_msg_t: old(self).last_state_msg_t, ..*final(self) };
                let links = final(self).parent is Some || final(self).children@.len() > 0;
                let conn = links && (due || final(msgs_out)@.len() > 0);
                let n0 = old(msgs_out)@.len() as int;
                let n1 = final(msgs_out)@.len() as int;
                let extra = final(msgs_out)@.subrange(n0, if conn { n1 - 1 } else { n1 });
                &&& n0 <= (if conn { n1 - 1 } else { n1 })
                &&& due ==> final(self).last_state_msg_t == old(self).now
                &&& due && old(self).state == NodeState::Free ==> Self::join_outcome(*old(self), mid, neighbours@, extra)
                &&& due && old(self).state != NodeState::Free ==> Self::task_msgs_outcome(*old(self), extra)
                    && mid == *old(self)
                &&& !due ==> extra.len() == 0 && *final(self) == *old(self)
                &&& conn ==> Self::is_connection_msg(*final(self), final(msgs_out)@.last())
            }),
    {
        let due = (if self.now >= self.last_state_msg_t { self.now - self.last_state_msg_t } else { 0 })
            > self.state_msg_duration;
        let ghost m0 = msgs_out@;
        let ghost o = *self;
        let mut extra: Vec<Msg> = Vec::new();
        if due {
            extra = if self.is_free() {
                self.try_join_other_swarm(neighbours)
            } else {
                self.generate_task_related_msgs()
            };
        }
        let ghost ex = extra@;
        let ghost after = *self;
        msgs_out.append(&mut extra);
        let ghost base = msgs_out@;
        if (due || msgs_out.len() > 0) && self.has_connections() {
            let c = self.generate_connection_msg();
            msgs_out.push(c);
            proof {
                assert(msgs_out@.drop_last() =~= base);
            }
        }
        if due {
            self.last_state_msg_t = self.now;
        }
        proof {
            assert(msgs_out@.subrange(0, m0.len() as int) =~= m0);
            assert(base =~= m0 + ex);
            let mid = NodeManager { last_state_msg_t: o.last_state_msg_t, ..*self };
            assert(mid == after);
            if !due {
                assert(*self == o);
            }
            assert(self.parent is Some || self.children@.len() > 0 <==> after.parent is Some
                || after.children@.len() > 0);
            let fin = *self;
            if msgs_out@.len() > base.len() {
                assert(Self::is_connection_msg(after, msgs_out@.last()));
                assert(Self::is_connection_msg(fin, msgs_out@.last()));
            }
            if msgs_out@.len() > base.len() {
                assert(msgs_out@.subrange(m0.len() as int, msgs_out@.len() - 1) =~= ex);
            } else {
                assert(msgs_out@.subrange(m0.len() as int, msgs_out@.len() as int) =~= ex);
            }
        }
    }

    /// Acts on one message from a tracked peer or from the ground station.
    pub fn process_msg(&mut self, msg: &Msg, neighbours: &Vec<Contact>) -> (r: Vec<Msg>)
        requires
            old(self).wf(),
            msg.sender.nid@.len() > 0,
            forall|i: int| 0 <= i < neighbours@.len() ==> (#[trigger] neighbours@[i]).desc.nid@.len() > 0,
        ensures
            final(self).wf(),
            links_from(*old(self), *final(self), contact_ids(neighbours@).insert(msg.sender@.id())),
            Self::same_settings(*old(self), *final(self)),
            msg.body matches MsgBody::Join(appl) ==> r@.len() == 1 && r@[0].to_ids@ == seq![msg.sender@.id()]
                && ((r@[0].body is Accept) == (old(self).nid@[0] != appl.src_tree && old(self).state
                == NodeState::Free && old(self).child_adding_rate < CHILD_ADDING_RATE_LIMIT
                && !old(self).nid@.contains(msg.sender@.id()))) && final(self).parent == old(self).parent,
            (msg.body is Empty || msg.body is Accept) ==> r@.len() == 0 && *final(self) == *old(self),
            msg.body is Reject ==> r@.len() == 0 && if (old(self).parent matches Some(pn) && pn.desc@.id()
                == msg.sender@.id()) {
                final(self).parent is None && final(self).nid@ == seq![old(self).conf.id] && final(self).state
                    == NodeState::Free
            } else {
                *final(self) == *old(self)
            },
            msg.body is Leave ==> r@.len() == 0 && !has_node(final(self).children@, msg.sender@.id())
                && final(self).parent == old(self).parent,
            msg.body matches MsgBody::ChangeParent(pid) ==> r@.len() == 0 && (final(self).parent is None
                || final(self).parent->Some_0.desc@.id() == pid),
            msg.body matches MsgBody::AssignChild(appl) ==> r@.len() == 0 && (old(self).assignable(
                appl.cid,
                neighbours@,
            ) ==> has_node(final(self).children@, appl.cid)),
            msg.body matches MsgBody::Task(t) ==> (old(self).parent is None ==> r@.len() == 0
                && final(self).tm@ == crate::tm::add_task_spec(old(self).tm@, t@)) && (old(self).parent matches Some(pn)
                ==> r@.len() == 1 && r@[0].to_ids@ == seq![pn.desc@.id()] && (r@[0].body matches MsgBody::Task(t2)
                && t2@ == t@)),
            msg.body matches MsgBody::Subtask(t) ==> r@.len() == 0 && ((old(self).state matches NodeState::InTask(
                tid,
                _,
            ) && tid == t.id) && old(self).tm.task_exec.is_none() ==> (final(self).tm.task_exec matches Some(td)
                && td.task@ == t@)),
            msg.body matches MsgBody::Connection(d) ==> r@.len() == 0 && ((old(self).parent matches Some(pn)
                && pn.desc@.id() == msg.sender@.id()) && nid_wf(msg.sender.nid@) && !msg.sender.nid@.contains(
                old(self).conf.id,
            ) ==> (final(self).parent matches Some(pn) && pn.desc@ == msg.sender@ && pn.details == d
                && final(self).nid@ == msg.sender.nid@.push(old(self).conf.id))),
    {
        let desc_sdr = &msg.sender;
        let mut msg_out: Vec<Msg> = Vec::new();
        let ghost sids = contact_ids(neighbours@).insert(msg.sender@.id());
        match &msg.body {
            MsgBody::Empty => {},
            MsgBody::Connection(dtl) => {
                self.update_connection(desc_sdr, dtl);
                proof {
                    assert forall|i: int| 0 <= i < self.children@.len() implies has_node(old(self).children@,
                        (#[trigger] self.children@[i]).desc@.id()) || sids.contains(self.children@[i].desc@.id()) by {
                        if old(self).parent matches Some(pn) && pn.desc@.id() == desc_sdr@.id() {
                            assert(self.children == old(self).children);
                            assert(has_node(old(self).children@, self.children@[i].desc@.id()));
                        } else {
                            assert(old(self).children@[i].desc@.id() == self.children@[i].desc@.id());
                        }
                    }
                }
            },
            MsgBody::Join(appl) => {
                let reply = self.add_child_or_reject(desc_sdr, appl);
                proof {
                    assert forall|i: int| 0 <= i < self.children@.len() implies has_node(old(self).children@,
                        (#[trigger] self.children@[i]).desc@.id()) || sids.contains(self.children@[i].desc@.id()) by {
                        if i < old(self).children@.len() && self.children@.len() > old(self).children@.len() {
                            assert(self.children@[i] == self.children@.drop_last()[i]);
                            assert(has_node(old(self).children@, old(self).children@[i].desc@.id()));
                        } else if self.children == old(self).children {
                            assert(has_node(old(self).children@, old(self).children@[i].desc@.id()));
                        }
                    }
                }
                msg_out.push(reply);
            },
            MsgBody::Accept => {},
            MsgBody::Reject => self.remove_parent_of_id(desc_sdr.get_id()),
            MsgBody::Leave => {
                self.remove_child_of_id(desc_sdr.get_id());
                proof {
                    assert forall|i: int| 0 <= i < self.children@.len() implies has_node(old(self).children@,
                        (#[trigger] self.children@[i]).desc@.id()) by {
                        assert(old(self).children@.contains(self.children@[i]));
                        let k = choose|k: int| 0 <= k < old(self).children@.len() && old(self).children@[k] == self.children@[i];
                    }
                }
            },
            MsgBody::ChangeParent(pid_new) => {
                self.change_parent(*pid_new, neighbours);
                proof {
                    lemma_first_contact(neighbours@, neighbours@.len() as int, *pid_new);
                    if let Some(k) = first_contact(neighbours@, neighbours@.len() as int, *pid_new) {
                        assert(contact_ids(neighbours@).contains(neighbours@[k].desc@.id()));
                    }
                    assert(self.children == old(self).children);
                    assert forall|i: int| 0 <= i < self.children@.len() implies has_node(old(self).children@,
                        (#[trigger] self.children@[i]).desc@.id()) by {
                        assert(old(self).children@[i] == self.children@[i]);
                    }
                }
            },
            MsgBody::AssignChild(appl) => self.add_assigned_child(appl, neighbours),
            MsgBody::Task(task) => {
                let mut relayed = self.relay_or_accept_task(task);
                msg_out.append(&mut relayed);
            },
            MsgBody::Subtask(subtask) => self.allocate_subtask(subtask),
        }
        proof {
            if self.children == old(self).children {
                assert forall|i: int| 0 <= i < self.children@.len() implies has_node(old(self).children@,
                    (#[trigger] self.children@[i]).desc@.id()) by {
                    assert(old(self).children@[i] == self.children@[i]);
                }
            }
        }
        msg_out
    }

    /// One tick of the node manager at time `now` (milliseconds):
    /// the adoption rate decays by the factor `decay_ppm` (millionths), the
    /// links to peers out of contact go, the messages picked from `msgs_in`
    /// are acted on in order, silent links go, the task state advances and
    /// the state messages are emitted. Returns the proposed velocity and the
    /// outgoing messages.
    pub fn update_node(
        &mut self,
        p: &PosVec,
        v: &Velocity,
        rm: &Vec<u32>,
        msgs_in: &Vec<Msg>,
        picked: &Vec<usize>,
        neighbours: &Vec<Contact>,
        now: u64,
        decay_ppm: u32,
    ) -> (r: (Velocity, Vec<Msg>))
        requires
            old(self).wf(),
            decay_ppm <= 1_000_000,
            forall|i: int| 0 <= i < neighbours@.len() ==> (#[trigger] neighbours@[i]).desc.nid@.len() > 0,
        ensures
            final(self).wf(),
            final(self).now == now,
            final(self).p == *p,
            final(self).v == *v,
            final(self).conf == old(self).conf,
            r.0 == final(self).next_v_spec(),
            elapsed(old(self).last_state_msg_t, now) > old(self).state_msg_duration ==> final(self).last_state_msg_t
                == now,
            (forall|q: int|
                0 <= q < picked@.len() && picked@[q] < msgs_in@.len() ==> !rm@.contains(
                    #[trigger] msgs_in@[picked@[q] as int].sender@.id(),
                )) && (forall|k: int| 0 <= k < neighbours@.len() ==> !rm@.contains((#[trigger] neighbours@[k]).desc@.id()))
                ==> no_links_in(*final(self), rm@),
            final(self).parent is None ==> final(self).nid@ == seq![final(self).conf.id],
            picked@.len() == 0 && rm@.len() == 0 && (old(self).parent matches Some(pn) && elapsed(pn.last_heard, now)
                <= old(self).node_lost_duration) && (old(self).state matches NodeState::InTask(tid, _)) && (exists|i: int|
                0 <= i < old(self).children@.len() && elapsed((#[trigger] old(self).children@[i]).last_heard, now)
                    > old(self).node_lost_duration && old(self).children@[i].desc.tsk == Some(old(self).state->InTask_0))
                ==> final(self).state == NodeState::InTask(old(self).state->InTask_0, TaskState::Failure)
                && final(self).subswarm_task_state_spec() == SubswarmTaskState::Fail(old(self).state->InTask_0),
            elapsed(old(self).last_state_msg_t, now) > old(self).state_msg_duration && (final(self).parent is Some
                || final(self).children@.len() > 0) ==> r.1@.len() > 0 && Self::is_connection_msg(
                *final(self),
                r.1@.last(),
            ),
            final(self).parent matches Some(pn) ==> elapsed(pn.last_heard, now)
                <= final(self).node_lost_duration,
            forall|i: int|
                0 <= i < final(self).children@.len() ==> elapsed(
                    (#[trigger] final(self).children@[i]).last_heard,
                    now,
                ) <= final(self).node_lost_duration,
    {
        self.now = now;
        proof {
            assert(i64::MIN * 1_000_000 <= self.child_adding_rate * decay_ppm <= i64::MAX * 1_000_000)
                by (nonlinear_arith)
                requires i64::MIN <= self.child_adding_rate <= i64::MAX, 0 <= decay_ppm <= 1_000_000;
        }
        let scaled: i128 = self.child_adding_rate as i128 * decay_ppm as i128 / 1_000_000;
        self.child_adding_rate = if scaled > i64::MAX as i128 {
            i64::MAX
        } else if scaled < i64::MIN as i128 {
            i64::MIN
        } else {
            scaled as i64
        };
        self.p = *p;
        self.v = *v;
        let mut msgs_out: Vec<Msg> = Vec::new();
        let ghost sb = *self;
        self.remove_no_contact_nodes(rm);
        let ghost s0 = *self;
        let ghost clean = (forall|q: int|
            0 <= q < picked@.len() && picked@[q] < msgs_in@.len() ==> !rm@.contains(
                #[trigger] msgs_in@[picked@[q] as int].sender@.id(),
            )) && (forall|k: int| 0 <= k < neighbours@.len() ==> !rm@.contains((#[trigger] neighbours@[k]).desc@.id()));
        proof {
            if rm@.len() == 0 {
                assert(s0 == sb);
            }
            assert forall|i: int| 0 <= i < s0.children@.len() implies !rm@.contains((#[trigger] s0.children@[i]).desc@.id()) by {
                if rm@.contains(s0.children@[i].desc@.id()) {
                    let q = choose|q: int| 0 <= q < rm@.len() && rm@[q] == s0.children@[i].desc@.id();
                    assert(has_node(s0.children@, rm@[q]));
                }
            }
            assert(no_links_in(s0, rm@));
        }
        let mut i: usize = 0;
        while i < picked.len()
            invariant
                i == 0 ==> *self == s0,
                i <= picked@.len(),
                rm@.len() == 0 ==> s0.children == old(self).children && s0.state == old(self).state && s0.parent
                    == old(self).parent,
                self.wf(),
                self.now == now,
                self.p == *p,
                self.v == *v,
                self.conf == old(self).conf,
                self.last_state_msg_t == old(self).last_state_msg_t,
                self.state_msg_duration == old(self).state_msg_duration,
                forall|q: int| 0 <= q < neighbours@.len() ==> (#[trigger] neighbours@[q]).desc.nid@.len() > 0,
                clean ==> no_links_in(*self, rm@),
                clean == ((forall|q: int|
                    0 <= q < picked@.len() && picked@[q] < msgs_in@.len() ==> !rm@.contains(
                        #[trigger] msgs_in@[picked@[q] as int].sender@.id(),
                    )) && (forall|k: int| 0 <= k < neighbours@.len() ==> !rm@.contains((#[trigger] neighbours@[k]).desc@.id()))),
            decreases picked.len() - i,
        {
            let k = picked[i];
            if k < msgs_in.len() && msgs_in[k].sender.nid.len() > 0 {
                let ghost prev = *self;
                let mut out = self.process_msg(&msgs_in[k], neighbours);
                proof {
                    if clean {
                        let sids = contact_ids(neighbours@).insert(msgs_in@[k as int].sender@.id());
                        assert forall|x: u32| sids.contains(x) implies !rm@.contains(x) by {
                            if x != msgs_in@[k as int].sender@.id() {
                                let kk = choose|kk: int| 0 <= kk < neighbours@.len() && (#[trigger] neighbours@[kk]).desc@.id() == x;
                            } else {
                                assert(picked@[i as int] == k);
                            }
                        }
                        lemma_links_keep_out(prev, *self, sids, rm@);
                    }
                }
                msgs_out.append(&mut out);
            }
            i += 1;
        }
        let ghost s1 = *self;
        let ghost lost_child = picked@.len() == 0 && rm@.len() == 0 && (old(self).parent matches Some(pn)
            && elapsed(pn.last_heard, now) <= old(self).node_lost_duration) && (old(self).state matches NodeState::InTask(tid, _))
            && (exists|i: int|
            0 <= i < old(self).children@.len() && elapsed((#[trigger] old(self).children@[i]).last_heard, now)
                > old(self).node_lost_duration && old(self).children@[i].desc.tsk == Some(old(self).state->InTask_0));
        proof {
            if lost_child {
                assert(s1.children == old(self).children);
                assert(s1.state == old(self).state);
                assert(s1.parent == old(self).parent);
                let i = choose|i: int|
                    0 <= i < old(self).children@.len() && elapsed((#[trigger] old(self).children@[i]).last_heard, now)
                        > old(self).node_lost_duration && old(self).children@[i].desc.tsk == Some(old(self).state->InTask_0);
                assert(s1.children@[i] == old(self).children@[i]);
            }
        }
        self.remove_no_connection_nodes();
        let ghost s2 = *self;
        proof {
            if clean {
                assert forall|i: int| 0 <= i < s2.children@.len() implies !rm@.contains((#[trigger] s2.children@[i]).desc@.id()) by {
                    assert(s1.children@.contains(s2.children@[i]));
                    let q = choose|q: int| 0 <= q < s1.children@.len() && s1.children@[q] == s2.children@[i];
                }
            }
        }
        self.manage_node_state();
        let ghost s3 = *self;
        self.maybe_generate_node_state_msg(neighbours, &mut msgs_out);
        proof {
            if clean {
                assert(no_links_in(s3, rm@));
                if !(self.parent == s3.parent) {
                    let pn = self.parent->Some_0;
                    let kk = choose|kk: int| 0 <= kk < neighbours@.len() && (#[trigger] neighbours@[kk]).desc@.id() == pn.desc@.id();
                }
                assert(no_links_in(*self, rm@));
            }
            if lost_child {
                assert(s2.state == NodeState::InTask(old(self).state->InTask_0, TaskState::Failure));
                assert(s2.parent is Some);
                assert(s3.state == s2.state);
                assert(self.state == s3.state);
            }
        }
        (self.calc_next_v(), msgs_out)
    }
}

/// A node's path is its parent's path followed by its own id, and it is
/// its own id alone at a root.
pub proof fn law_nid_consistency(m: NodeManager)
    requires
        m.wf(),
    ensures
        m.parent matches Some(pn) ==> m.nid@ == pn.desc.nid@.push(m.conf.id),
        m.parent is None ==> m.nid@ == seq![m.conf.id],
{
}

/// The parent a node records never has that node on its own path, so no
/// two linked nodes sit on each other's paths.
pub proof fn law_parent_path_excludes_self(m: NodeManager)
    requires
        m.wf(),
    ensures
        m.parent matches Some(pn) ==> !pn.desc.nid@.contains(m.conf.id),
        m.nid@.no_duplicates(),
{
    if let Some(pn) = m.parent {
        if pn.desc.nid@.contains(m.conf.id) {
            let k = choose|k: int| 0 <= k < pn.desc.nid@.len() && pn.desc.nid@[k] == m.conf.id;
            assert(m.nid@[k] == m.nid@[m.nid@.len() - 1]);
        }
    }
}

/// A node is a root exactly when it has no parent, and a root's path is a
/// single id (its own), so the root of a tree is the first id of every
/// member's path.
pub proof fn law_root_iff_no_parent(m: NodeManager)
    requires
        m.wf(),
    ensures
        m.parent is None <==> m.nid@.len() == 1,
        m.parent is None ==> m.nid@[0] == m.conf.id,
{
    if let Some(pn) = m.parent {
        assert(m.nid@.len() == pn.desc.nid@.len() + 1);
    }
}

/// Parent-candidate order: a bigger swarm first, then a smaller root id,
/// then a shorter distance.
pub open spec fn better_key(swm_a: u32, root_a: u32, d_a: int, swm_b: u32, root_b: u32, d_b: int) -> bool {
    swm_a > swm_b || (swm_a == swm_b && root_a < root_b) || (swm_a == swm_b && root_a == root_b && d_a
        < d_b)
}

/// A contact may be taken as parent when it was heard recently, is free,
/// and is in another tree.
pub open spec fn eligible_parent(c: Contact, now: u64, own_root: u32) -> bool {
    &&& elapsed(c.last_heard, now) < NEW_PARENT_FRESHNESS
    &&& c.desc.tsk.is_none()
    &&& c.desc@.root_id() != own_root
}

/// Index of the first of the first `n` contacts with id `id`.
pub open spec fn first_contact(nb: Seq<Contact>, n: int, id: u32) -> Option<int>
    decreases n,
{
    if n <= 0 {
        None
    } else {
        match first_contact(nb, n - 1, id) {
            Some(k) => Some(k),
            None => if nb[n - 1].desc@.id() == id {
                Some(n - 1)
            } else {
                None
            },
        }
    }
}

proof fn lemma_first_contact(nb: Seq<Contact>, n: int, id: u32)
    requires
        0 <= n <= nb.len(),
    ensures
        first_contact(nb, n, id) matches Some(k) ==> 0 <= k < n && nb[k].desc@.id() == id,
        first_contact(nb, n, id) is None ==> forall|i: int| 0 <= i < n ==> (#[trigger] nb[i]).desc@.id() != id,
    decreases n,
{
    if n > 0 {
        lemma_first_contact(nb, n - 1, id);
    }
}

/// Index of the first contact with id `id`.
pub fn find_contact(neighbours: &Vec<Contact>, id: u32) -> (r: Option<usize>)
    requires
        forall|i: int| 0 <= i < neighbours@.len() ==> (#[trigger] neighbours@[i]).desc.nid@.len() > 0,
    ensures
        r matches Some(k) ==> k < neighbours@.len() && neighbours@[k as int].desc@.id() == id,
        r is None ==> forall|i: int|
            0 <= i < neighbours@.len() ==> (#[trigger] neighbours@[i]).desc@.id() != id,
        match r {
            Some(k) => first_contact(neighbours@, neighbours@.len() as int, id) == Some(k as int),
            None => first_contact(neighbours@, neighbours@.len() as int, id) is None,
        },
{
    let mut k: usize = 0;
    while k < neighbours.len()
        invariant
            k <= neighbours@.len(),
            forall|i: int| 0 <= i < neighbours@.len() ==> (#[trigger] neighbours@[i]).desc.nid@.len() > 0,
            forall|i: int| 0 <= i < k ==> (#[trigger] neighbours@[i]).desc@.id() != id,
            first_contact(neighbours@, k as int, id) is None,
        decreases neighbours.len() - k,
    {
        if neighbours[k].desc.get_id() == id {
            proof {
                lemma_first_contact_stable(neighbours@, k as int + 1, neighbours@.len() as int, id);
            }
            return Some(k);
        }
        k += 1;
    }
    None
}

proof fn lemma_first_contact_stable(nb: Seq<Contact>, n: int, m: int, id: u32)
    requires
        0 <= n <= m <= nb.len(),
        first_contact(nb, n, id) is Some,
    ensures
        first_contact(nb, m, id) == first_contact(nb, n, id),
    decreases m - n,
{
    if m > n {
        lemma_first_contact_stable(nb, n, m - 1, id);
    }
}

/// Ids, among the first `n` children, of those aligned on task `tid`
/// but not yet allocated, that have a subtask in `m`.
pub open spec fn subtask_receivers(ns: Seq<Node>, n: int, tid: u32, m: Map<u32, Task>) -> Seq<u32>
    decreases n,
{
    if n <= 0 {
        Seq::empty()
    } else {
        let prev = subtask_receivers(ns, n - 1, tid, m);
        let c = ns[n - 1];
        if c.details.subswm_tsk.aligned_spec(tid) && !c.details.subswm_tsk.allocated_spec(tid) && m.contains_key(
            c.desc@.id(),
        ) {
            prev.push(c.desc@.id())
        } else {
            prev
        }
    }
}

/// An executor after checking position `p` at `now`: the hold starts when
/// on target and stops when off it.
pub open spec fn advanced_executor(te: TaskExecutor, p: PosVec, now: u64) -> TaskExecutor {
    TaskExecutor {
        on_pos_t: if on_target(p, te.pos_target) {
            if te.on_pos_t.is_none() {
                Some(now)
            } else {
                te.on_pos_t
            }
        } else {
            None
        },
        ..te
    }
}

/// Ids of the contacts.
pub open spec fn contact_ids(nb: Seq<Contact>) -> Set<u32> {
    Set::new(|x: u32| exists|k: int| 0 <= k < nb.len() && (#[trigger] nb[k]).desc@.id() == x)
}

/// Every link of `f` is one of `o` (by id) or has an id in `s`.
pub open spec fn links_from(o: NodeManager, f: NodeManager, s: Set<u32>) -> bool {
    &&& forall|i: int|
        0 <= i < f.children@.len() ==> has_node(o.children@, (#[trigger] f.children@[i]).desc@.id()) || s.contains(
            f.children@[i].desc@.id(),
        )
    &&& (f.parent matches Some(pn) ==> (o.parent matches Some(op) && op.desc@.id() == pn.desc@.id()) || s.contains(
        pn.desc@.id(),
    ))
}

/// No link of `m` has an id in `rm`.
pub open spec fn no_links_in(m: NodeManager, rm: Seq<u32>) -> bool {
    &&& forall|i: int| 0 <= i < m.children@.len() ==> !rm.contains((#[trigger] m.children@[i]).desc@.id())
    &&& (m.parent matches Some(pn) ==> !rm.contains(pn.desc@.id()))
}

/// Links that come from `o` or from ids outside `rm` keep `rm` out.
pub proof fn lemma_links_keep_out(o: NodeManager, f: NodeManager, s: Set<u32>, rm: Seq<u32>)
    requires
        links_from(o, f, s),
        no_links_in(o, rm),
        forall|x: u32| s.contains(x) ==> !rm.contains(x),
    ensures
        no_links_in(f, rm),
{
    assert forall|i: int| 0 <= i < f.children@.len() implies !rm.contains((#[trigger] f.children@[i]).desc@.id()) by {
        let x = f.children@[i].desc@.id();
        if has_node(o.children@, x) {
            let k = choose|k: int| 0 <= k < o.children@.len() && (#[trigger] o.children@[k]).desc@.id() == x;
        }
    }
}

/// What the divider needs of the children: id and subtree size, in order.
pub open spec fn child_infos(ns: Seq<Node>) -> Seq<ChildInfo> {
    ns.map_values(|n: Node| ChildInfo { id: n.desc@.id(), subswm_size: n.details.subswarm })
}

/// Sum of the subtree sizes the children report.
pub open spec fn children_subswarm_sum(ns: Seq<Node>) -> nat
    decreases ns.len(),
{
    if ns.len() == 0 {
        0
    } else {
        children_subswarm_sum(ns.drop_last()) + ns.last().details.subswarm as nat
    }
}

} // verus!
