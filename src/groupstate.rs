//! Group-level bookkeeping: a swarm seen as nested groups of members.

use std::collections::{HashMap, HashSet};

use vstd::prelude::*;

use crate::vector::PosVec;

verus! {

broadcast use vstd::std_specs::hash::group_hash_axioms;

/// A group id: its founder's id and a tag.
pub type GrpId = (u32, u32);

/// The group path from the top group down to this one.
pub type GrpLevel = Vec<GrpId>;

/// A member of a group and its connections.
pub struct Member {
    pub p: PosVec,
    pub grp_conn: HashSet<u32>,
    pub parent_conn: HashSet<u32>,
    pub left_conn: HashSet<u32>,
    pub right_conn: HashSet<u32>,
    /// Freshness of the member's connection data; only the member itself
    /// produces it, so it orders updates across a group.
    pub version: u64,
}

impl Member {
    /// A member at `p` with no connection yet.
    pub fn new(p: &PosVec) -> (r: Member)
        ensures
            r.p == *p,
            r.grp_conn@.is_empty(),
            r.parent_conn@.is_empty(),
            r.left_conn@.is_empty(),
            r.right_conn@.is_empty(),
            r.version == 0,
    {
        Member {
            p: *p,
            grp_conn: HashSet::new(),
            parent_conn: HashSet::new(),
            left_conn: HashSet::new(),
            right_conn: HashSet::new(),
            version: 0,
        }
    }
}

/// What a group tells its parent group and its child groups.
pub struct GrpDesc {
    pub gid: GrpId,
    pub size: u32,
    pub centre: PosVec,
    /// Size of the groups below, flowing up.
    pub subswarm_size: u32,
    /// Size of the whole swarm, flowing down.
    pub swarm_size: u32,
}

/// The state of one group.
pub struct GrpState {
    pub level: GrpLevel,
    pub members: HashMap<u32, Member>,
    pub parent: Option<GrpDesc>,
    pub children: Vec<GrpDesc>,
}

impl GrpState {
    /// A group of one: member `id` at `p`, founding group `(id, tag)`.
    pub fn new_soliton(id: u32, p: &PosVec, tag: u32) -> (r: GrpState)
        ensures
            r.level@ == seq![(id, tag)],
            r.members@.dom() == set![id],
            r.members@[id].p == *p,
            r.members@[id].version == 0,
            r.members@[id].grp_conn@.is_empty(),
            r.members@[id].parent_conn@.is_empty(),
            r.members@[id].left_conn@.is_empty(),
            r.members@[id].right_conn@.is_empty(),
            r.parent.is_none(),
            r.children@.len() == 0,
    {
        let mut level: GrpLevel = Vec::new();
        level.push((id, tag));
        let mut members: HashMap<u32, Member> = HashMap::new();
        members.insert(id, Member::new(p));
        assert(level@ =~= seq![(id, tag)]);
        assert(members@.dom() =~= set![id]);
        GrpState { level, members, parent: None, children: Vec::new() }
    }
}

/// A proposal put to a group's vote.
pub struct Bill {
    /// Issuer id and tag, packed.
    pub bid: u64,
    pub pros: HashSet<u32>,
    pub cons: HashSet<u32>,
}

/// A group as one agent sees it.
pub struct Group {
    pub state: GrpState,
}

impl Group {
    /// A group of one.
    pub fn new_soliton(id: u32, p: &PosVec, tag: u32) -> (r: Group)
        ensures
            r.state.level@ == seq![(id, tag)],
            r.state.members@.dom() == set![id],
            r.state.members@[id].p == *p,
            r.state.parent.is_none(),
            r.state.children@.len() == 0,
    {
        Group { state: GrpState::new_soliton(id, p, tag) }
    }
}

} // verus!
