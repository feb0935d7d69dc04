//! The message vocabulary shared by all agents, and the tree identifier
//! (`Nid`) that every message carries.

use vstd::prelude::*;

use crate::vector::{distance, seg_len, PosVec, Velocity};

verus! {

/// The path root -> ... -> self on the swarm tree.
pub type Nid = Vec<u32>;

/// Id of the ground control station pseudo-node.
pub const GCS_ID: u32 = 0;

/// A tree path is well formed when it is non-empty and holds no repeated id.
pub open spec fn nid_wf(nid: Seq<u32>) -> bool {
    nid.len() > 0 && nid.no_duplicates()
}

/// The parent id of a path: the second to last id, if there is one.
pub open spec fn parent_id_spec(nid: Seq<u32>) -> Option<u32> {
    if nid.len() > 1 {
        Some(nid[nid.len() - 2])
    } else {
        None
    }
}

/// Id of the node that a path leads to.
pub fn id_of(nid: &Nid) -> (r: u32)
    requires
        nid@.len() > 0,
    ensures
        r == nid@.last(),
{
    nid[nid.len() - 1]
}

/// Id of the root of a path.
pub fn root_id_of(nid: &Nid) -> (r: u32)
    requires
        nid@.len() > 0,
    ensures
        r == nid@[0],
{
    nid[0]
}

/// Whether a path designates a root node.
pub fn is_root_node(nid: &Nid) -> (r: bool)
    ensures
        r == (nid@.len() == 1),
{
    nid.len() == 1
}

/// Id of the parent of the node a path leads to, if it is not a root.
pub fn parent_id_of(nid: &Nid) -> (r: Option<u32>)
    ensures
        r == parent_id_spec(nid@),
{
    let len = nid.len();
    if len <= 1 {
        None
    } else {
        Some(nid[len - 2])
    }
}

/// Whether `ids` holds `id`.
pub fn ids_contain(ids: &Vec<u32>, id: u32) -> (r: bool)
    ensures
        r == ids@.contains(id),
{
    let mut i: usize = 0;
    while i < ids.len()
        invariant
            i <= ids@.len(),
            forall|j: int| 0 <= j < i ==> ids@[j] != id,
        decreases ids.len() - i,
    {
        if ids[i] == id {
            return true;
        }
        i += 1;
    }
    false
}

/// A node may become a descendant of the node at `p_nid` only when it is not
/// already one of that node's ancestors (or that node itself).
pub fn is_id_valid_descendant_of(id: u32, p_nid: &Nid) -> (r: bool)
    ensures
        r == !p_nid@.contains(id),
{
    !ids_contain(p_nid, id)
}

/// An exact copy of a list of ids.
pub fn copy_ids(ids: &Vec<u32>) -> (r: Vec<u32>)
    ensures
        r@ == ids@,
{
    let mut r: Vec<u32> = Vec::new();
    let mut i: usize = 0;
    while i < ids.len()
        invariant
            i <= ids@.len(),
            r@ == ids@.subrange(0, i as int),
        decreases ids.len() - i,
    {
        r.push(ids[i]);
        i += 1;
    }
    assert(r@ =~= ids@);
    r
}

/// The header every broadcast carries.
#[derive(Debug)]
pub struct NodeDesc {
    /// Path from the root to the sender.
    pub nid: Nid,
    pub p: PosVec,
    pub v: Velocity,
    /// Size of the whole swarm, as the root sees it.
    pub swm: u32,
    /// The task the sender is in, if any.
    pub tsk: Option<u32>,
}

/// Mathematical value of a node header.
pub struct NodeDescView {
    pub nid: Seq<u32>,
    pub p: PosVec,
    pub v: Velocity,
    pub swm: u32,
    pub tsk: Option<u32>,
}

impl View for NodeDesc {
    type V = NodeDescView;

    open spec fn view(&self) -> NodeDescView {
        NodeDescView { nid: self.nid@, p: self.p, v: self.v, swm: self.swm, tsk: self.tsk }
    }
}

impl NodeDescView {
    pub open spec fn id(self) -> u32 {
        self.nid.last()
    }

    pub open spec fn root_id(self) -> u32 {
        self.nid[0]
    }
}

/// The header of the ground control station.
pub fn get_gcs_desc() -> (r: NodeDesc)
    ensures
        r@.nid == seq![GCS_ID],
        r.swm == 0,
        r.tsk.is_none(),
{
    let mut nid: Nid = Vec::new();
    nid.push(GCS_ID);
    assert(nid@ =~= seq![GCS_ID]);
    NodeDesc {
        nid,
        p: PosVec { x: 0, y: 0, z: 0 },
        v: Velocity { vx: 0, vy: 0, vz: 0 },
        swm: 0,
        tsk: None,
    }
}

impl NodeDesc {
    /// An exact copy.
    pub fn copy(&self) -> (r: NodeDesc)
        ensures
            r@ == self@,
    {
        NodeDesc { nid: copy_ids(&self.nid), p: self.p, v: self.v, swm: self.swm, tsk: self.tsk }
    }

    pub fn get_id(&self) -> (r: u32)
        requires
            self.nid@.len() > 0,
        ensures
            r == self@.id(),
    {
        id_of(&self.nid)
    }

    pub fn get_root_id(&self) -> (r: u32)
        requires
            self.nid@.len() > 0,
        ensures
            r == self@.root_id(),
    {
        root_id_of(&self.nid)
    }

    pub fn is_root_node(&self) -> (r: bool)
        ensures
            r == (self.nid@.len() == 1),
    {
        is_root_node(&self.nid)
    }

    pub fn get_parent_id(&self) -> (r: Option<u32>)
        ensures
            r == parent_id_spec(self.nid@),
    {
        parent_id_of(&self.nid)
    }

    /// Whether the node `id` may hang below this node.
    pub fn is_valid_ancestor_of(&self, id: u32) -> (r: bool)
        ensures
            r == !self.nid@.contains(id),
    {
        is_id_valid_descendant_of(id, &self.nid)
    }

    /// Whether this header comes from the ground control station.
    pub fn is_gcs(&self) -> (r: bool)
        requires
            self.nid@.len() > 0,
        ensures
            r == (self@.id() == GCS_ID),
    {
        self.get_id() == GCS_ID
    }

    /// Whether the sender is in no task.
    pub fn is_free(&self) -> (r: bool)
        ensures
            r == self.tsk.is_none(),
    {
        self.tsk.is_none()
    }

    pub fn has_task_of_id(&self, tid: u32) -> (r: bool)
        ensures
            r == (self.tsk == Some(tid)),
    {
        match self.tsk {
            Some(t) => t == tid,
            None => false,
        }
    }

    /// Whether the sender declares `pid` as its parent.
    pub fn has_parent_of_id(&self, pid: u32) -> (r: bool)
        ensures
            r == (parent_id_spec(self.nid@) == Some(pid)),
    {
        match self.get_parent_id() {
            Some(p) => p == pid,
            None => false,
        }
    }
}

/// Task state of a whole subtree, reported upward.
#[derive(Clone, Copy, Debug, PartialEq, Eq, Structural)]
pub enum SubswarmTaskState {
    /// The subtree holds no task.
    NoTask,
    /// The node has the task; some child has not yet acknowledged it.
    Recv(u32),
    /// The whole subtree has received the task.
    Algn(u32),
    /// The node has been given its own part of the task.
    Allc(u32),
    /// The whole subtree has succeeded.
    Succ(u32),
    /// Some node of the subtree has failed.
    Fail(u32),
}

impl SubswarmTaskState {
    /// The subtree has received task `tid` throughout.
    pub open spec fn aligned_spec(self, tid: u32) -> bool {
        match self {
            SubswarmTaskState::Algn(t) | SubswarmTaskState::Allc(t) | SubswarmTaskState::Succ(t)
            | SubswarmTaskState::Fail(t) => t == tid,
            _ => false,
        }
    }

    /// The subtree root holds its own part of task `tid`.
    pub open spec fn allocated_spec(self, tid: u32) -> bool {
        match self {
            SubswarmTaskState::Allc(t) | SubswarmTaskState::Succ(t) | SubswarmTaskState::Fail(t) => t
                == tid,
            _ => false,
        }
    }

    pub fn is_alignment_done_for(&self, tid: u32) -> (r: bool)
        ensures
            r == self.aligned_spec(tid),
    {
        match *self {
            SubswarmTaskState::Algn(t) | SubswarmTaskState::Allc(t) | SubswarmTaskState::Succ(t)
            | SubswarmTaskState::Fail(t) => t == tid,
            _ => false,
        }
    }

    pub fn is_allocation_done_for(&self, tid: u32) -> (r: bool)
        ensures
            r == self.allocated_spec(tid),
    {
        match *self {
            SubswarmTaskState::Allc(t) | SubswarmTaskState::Succ(t) | SubswarmTaskState::Fail(t) => t
                == tid,
            _ => false,
        }
    }
}

/// What a node reports to its parent and children only.
#[derive(Clone, Copy, Debug, PartialEq, Eq, Structural)]
pub struct NodeDetails {
    /// Size of the subtree rooted at the sender.
    pub subswarm: u32,
    pub subswm_tsk: SubswarmTaskState,
}

impl NodeDetails {
    pub fn is_subswm_alignment_done_for_tsk(&self, tid: u32) -> (r: bool)
        ensures
            r == self.subswm_tsk.aligned_spec(tid),
    {
        self.subswm_tsk.is_alignment_done_for(tid)
    }

    pub fn is_subswm_allocation_done_for_tsk(&self, tid: u32) -> (r: bool)
        ensures
            r == self.subswm_tsk.allocated_spec(tid),
    {
        self.subswm_tsk.is_allocation_done_for(tid)
    }

    pub fn is_subswm_success_in_tsk(&self, tid: u32) -> (r: bool)
        ensures
            r == (self.subswm_tsk == SubswarmTaskState::Succ(tid)),
    {
        self.subswm_tsk == SubswarmTaskState::Succ(tid)
    }

    pub fn is_subswm_failure_in_tsk(&self, tid: u32) -> (r: bool)
        ensures
            r == (self.subswm_tsk == SubswarmTaskState::Fail(tid)),
    {
        self.subswm_tsk == SubswarmTaskState::Fail(tid)
    }
}

/// Length of a polyline: the sum of its segment lengths.
pub open spec fn polyline_length(pts: Seq<PosVec>) -> nat
    decreases pts.len(),
{
    if pts.len() < 2 {
        0
    } else {
        polyline_length(pts.drop_last()) + seg_len(pts[pts.len() - 2], pts[pts.len() - 1])
    }
}

/// A polyline to be covered by UAVs; `start` and `end` say whether its
/// first and last points must each be occupied by one.
#[derive(Debug)]
pub struct Line {
    pub points: Vec<PosVec>,
    pub start: bool,
    pub end: bool,
}

/// Mathematical value of a line.
pub struct LineView {
    pub points: Seq<PosVec>,
    pub start: bool,
    pub end: bool,
}

impl View for Line {
    type V = LineView;

    open spec fn view(&self) -> LineView {
        LineView { points: self.points@, start: self.start, end: self.end }
    }
}

impl LineView {
    /// Number of endpoints that must be occupied.
    pub open spec fn end_points(self) -> nat {
        (if self.start { 1nat } else { 0nat }) + (if self.end { 1nat } else { 0nat })
    }

    /// Fewest UAVs the line needs: two when both endpoints must be
    /// occupied, one otherwise.
    pub open spec fn least_uavs(self) -> nat {
        if self.start && self.end {
            2
        } else {
            1
        }
    }
}

/// An exact copy of a list of points.
pub fn copy_points(pts: &Vec<PosVec>) -> (r: Vec<PosVec>)
    ensures
        r@ == pts@,
{
    let mut r: Vec<PosVec> = Vec::new();
    let mut i: usize = 0;
    while i < pts.len()
        invariant
            i <= pts@.len(),
            r@ == pts@.subrange(0, i as int),
        decreases pts.len() - i,
    {
        r.push(pts[i]);
        i += 1;
    }
    assert(r@ =~= pts@);
    r
}

impl Line {
    pub fn copy(&self) -> (r: Line)
        ensures
            r@ == self@,
    {
        Line { points: copy_points(&self.points), start: self.start, end: self.end }
    }

    pub fn num_end_points(&self) -> (r: u32)
        ensures
            r == self@.end_points(),
    {
        (if self.start { 1u32 } else { 0u32 }) + (if self.end { 1u32 } else { 0u32 })
    }

    pub fn num_least_uavs(&self) -> (r: u32)
        ensures
            r == self@.least_uavs(),
    {
        if self.start && self.end {
            2
        } else {
            1
        }
    }

    /// Length of the polyline in millimetres (each segment rounded down).
    pub fn calc_length(&self) -> (r: u128)
        ensures
            r == polyline_length(self.points@),
    {
        let pts = &self.points;
        let mut total: u128 = 0;
        if pts.len() < 2 {
            return 0;
        }
        let mut i: usize = 1;
        while i < pts.len()
            invariant
                1 <= i <= pts@.len(),
                total == polyline_length(pts@.subrange(0, i as int)),
                total <= i * 0x4_0000_0000,
            decreases pts.len() - i,
        {
            let d = distance(&pts[i - 1], &pts[i]);
            proof {
                let s = pts@.subrange(0, i + 1);
                assert(s.drop_last() =~= pts@.subrange(0, i as int));
            }
            total = total + d as u128;
            i += 1;
        }
        assert(pts@.subrange(0, pts@.len() as int) =~= pts@);
        total
    }
}

/// A formation flight: polylines to cover, how long to hold the formation,
/// and the point (the parent's own target) that must stay in contact range.
#[derive(Debug)]
pub struct Task {
    pub id: u32,
    pub lines: Vec<Line>,
    /// Dwell time on target, in milliseconds.
    pub duration_ms: u64,
    pub comm_point: Option<PosVec>,
}

/// Mathematical value of a task.
pub struct TaskView {
    pub id: u32,
    pub lines: Seq<LineView>,
    pub duration_ms: u64,
    pub comm_point: Option<PosVec>,
}

impl View for Task {
    type V = TaskView;

    open spec fn view(&self) -> TaskView {
        TaskView {
            id: self.id,
            lines: self.lines@.map_values(|l: Line| l@),
            duration_ms: self.duration_ms,
            comm_point: self.comm_point,
        }
    }
}

/// An exact copy of a list of lines.
pub fn copy_lines(lines: &Vec<Line>) -> (r: Vec<Line>)
    ensures
        r@.map_values(|l: Line| l@) == lines@.map_values(|l: Line| l@),
{
    let mut r: Vec<Line> = Vec::new();
    let mut i: usize = 0;
    while i < lines.len()
        invariant
            i <= lines@.len(),
            r@.len() == i,
            forall|j: int| 0 <= j < i ==> (#[trigger] r@[j])@ == lines@[j]@,
        decreases lines.len() - i,
    {
        r.push(lines[i].copy());
        i += 1;
    }
    assert(r@.map_values(|l: Line| l@) =~= lines@.map_values(|l: Line| l@));
    r
}

impl Task {
    pub fn copy(&self) -> (r: Task)
        ensures
            r@ == self@,
    {
        Task {
            id: self.id,
            lines: copy_lines(&self.lines),
            duration_ms: self.duration_ms,
            comm_point: self.comm_point,
        }
    }
}

/// What a Join carries: the applicant's subtree and the tree it leaves.
#[derive(Clone, Copy, Debug, PartialEq, Eq, Structural)]
pub struct JoinAppl {
    pub dtl: NodeDetails,
    /// Root id of the tree the applicant comes from.
    pub src_tree: u32,
}

/// What an AssignChild carries: the child handed over and its subtree.
#[derive(Clone, Copy, Debug, PartialEq, Eq, Structural)]
pub struct AssignChildAppl {
    pub cid: u32,
    pub dtl: NodeDetails,
}

/// The body of a message.
#[derive(Debug)]
pub enum MsgBody {
    /// Liveness heartbeat.
    Empty,
    /// Periodic state refresh to parent and children.
    Connection(NodeDetails),
    /// The sender asks the receiver to adopt it.
    Join(JoinAppl),
    /// Adoption confirmed.
    Accept,
    /// Adoption refused.
    Reject,
    /// The sender no longer has the receiver as its parent.
    Leave,
    /// The parent orders the receiver to re-home to the named node.
    ChangeParent(u32),
    /// The parent hands a child over to the receiver.
    AssignChild(AssignChildAppl),
    /// A task travelling up to the root.
    Task(Task),
    /// A part of a task pushed down by a parent.
    Subtask(Task),
}

/// A message: its sender's header, its receivers (none means every
/// neighbour) and its body.
#[derive(Debug)]
pub struct Msg {
    pub sender: NodeDesc,
    pub to_ids: Vec<u32>,
    pub body: MsgBody,
}

impl Msg {
    /// A heartbeat broadcast.
    pub fn new_empty_msg(sender: NodeDesc) -> (r: Msg)
        ensures
            r.sender == sender,
            r.to_ids@.len() == 0,
            r.body is Empty,
    {
        Msg { sender, to_ids: Vec::new(), body: MsgBody::Empty }
    }

    /// A message addressed to one node.
    pub fn new_to(sender: NodeDesc, to: u32, body: MsgBody) -> (r: Msg)
        ensures
            r.sender == sender,
            r.to_ids@ == seq![to],
            r.body == body,
    {
        let mut to_ids: Vec<u32> = Vec::new();
        to_ids.push(to);
        assert(to_ids@ =~= seq![to]);
        Msg { sender, to_ids, body }
    }

    /// Whether the node `id` is to consume this message.
    pub fn is_for(&self, id: u32) -> (r: bool)
        ensures
            r == (self.to_ids@.len() == 0 || self.to_ids@.contains(id)),
    {
        self.to_ids.len() == 0 || ids_contain(&self.to_ids, id)
    }
}

} // verus!
