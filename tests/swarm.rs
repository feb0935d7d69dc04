use astro::astroconf::AstroConf;
use astro::collivoid::ColliVoid;
use astro::contacts::{Contact, Contacts};
use astro::control::Control;
use astro::msg::{get_gcs_desc, JoinAppl, Line, Msg, MsgBody, NodeDesc, NodeDetails, SubswarmTaskState, Task};
use astro::nm::{Node, NodeManager, NodeState, TaskState};
use astro::vector::{dist_sq, PosVec, Velocity};

const TICK_MS: u64 = 100;
// exp(-100 ms / 300 ms) in millionths
const DECAY_PPM: u32 = 716_531;

fn pv(x: i32, y: i32, z: i32) -> PosVec {
    PosVec { x, y, z }
}

fn zero_v() -> Velocity {
    Velocity { vx: 0, vy: 0, vz: 0 }
}

fn conf(id: u32) -> AstroConf {
    AstroConf { id, uav_radius: 100, msg_range: 20000, contact_range: 19000, max_v: 2000 }
}

fn desc(nid: Vec<u32>, p: PosVec, swm: u32, tsk: Option<u32>) -> NodeDesc {
    NodeDesc { nid, p, v: zero_v(), swm, tsk }
}

struct Agent {
    ctrl: Control,
    p: PosVec,
    v: Velocity,
    inbox: Vec<Msg>,
}

/// Runs one tick for every agent: each receives what was sent last tick by
/// the agents within message range, then moves at its safe velocity.
fn step(agents: &mut Vec<Agent>, now: u64, gcs: Vec<Msg>) {
    let mut outputs: Vec<(PosVec, Vec<Msg>)> = Vec::new();
    let mut gcs = Some(gcs);
    for a in agents.iter_mut() {
        let mut inbox = std::mem::take(&mut a.inbox);
        if let Some(g) = gcs.as_ref() {
            for m in g {
                inbox.push(Msg { sender: get_gcs_desc(), to_ids: m.to_ids.clone(), body: copy_body(&m.body) });
            }
        }
        let (v, out) = a.ctrl.update(&a.p, &a.v, &inbox, now, DECAY_PPM);
        a.v = v;
        outputs.push((a.p, out));
    }
    gcs.take();
    for (i, (p_from, out)) in outputs.into_iter().enumerate() {
        for m in out {
            for (j, b) in agents.iter_mut().enumerate() {
                if i != j && dist_sq(&p_from, &b.p) <= 20000u128 * 20000u128 {
                    b.inbox.push(Msg { sender: m.sender.copy(), to_ids: m.to_ids.clone(), body: copy_body(&m.body) });
                }
            }
        }
    }
    for a in agents.iter_mut() {
        a.p = PosVec {
            x: a.p.x + a.v.vx * TICK_MS as i32 / 1000,
            y: a.p.y + a.v.vy * TICK_MS as i32 / 1000,
            z: a.p.z + a.v.vz * TICK_MS as i32 / 1000,
        };
    }
}

fn copy_body(b: &MsgBody) -> MsgBody {
    match b {
        MsgBody::Empty => MsgBody::Empty,
        MsgBody::Connection(d) => MsgBody::Connection(*d),
        MsgBody::Join(a) => MsgBody::Join(*a),
        MsgBody::Accept => MsgBody::Accept,
        MsgBody::Reject => MsgBody::Reject,
        MsgBody::Leave => MsgBody::Leave,
        MsgBody::ChangeParent(id) => MsgBody::ChangeParent(*id),
        MsgBody::AssignChild(a) => MsgBody::AssignChild(*a),
        MsgBody::Task(t) => MsgBody::Task(t.copy()),
        MsgBody::Subtask(t) => MsgBody::Subtask(t.copy()),
    }
}

fn agent(id: u32, p: PosVec, now: u64) -> Agent {
    Agent { ctrl: Control::new(&conf(id), &p, &zero_v(), now), p, v: zero_v(), inbox: Vec::new() }
}

#[test]
fn two_agent_merger() {
    let mut agents = vec![agent(1, pv(0, 0, 10000), 0), agent(2, pv(3000, 0, 10000), 0)];
    let mut merged_at = None;
    for tick in 1..=30u64 {
        step(&mut agents, tick * TICK_MS, vec![]);
        let a2 = &agents[1].ctrl.nm;
        if a2.nid == vec![1, 2] && a2.get_swarm_size() == 2 && merged_at.is_none() {
            merged_at = Some(tick);
        }
    }
    assert!(merged_at.is_some());
    let a2 = &agents[1].ctrl.nm;
    assert_eq!(a2.get_parent_id(), Some(1));
    assert_eq!(a2.nid, vec![1, 2]);
    assert_eq!(a2.get_swarm_size(), 2);
    assert!(agents[0].ctrl.nm.is_root_node());
    assert_eq!(agents[0].ctrl.nm.get_subswarm_size(), 2);
}

#[test]
fn four_agents_converge_to_one_tree_under_the_lowest_id() {
    let mut agents = vec![
        agent(4, pv(0, 0, 10000), 0),
        agent(2, pv(3000, 0, 10000), 0),
        agent(3, pv(0, 3000, 10000), 0),
        agent(1, pv(3000, 3000, 10000), 0),
    ];
    for tick in 1..=100u64 {
        step(&mut agents, tick * TICK_MS, vec![]);
    }
    for a in agents.iter() {
        assert_eq!(a.ctrl.nm.nid[0], 1);
        assert_eq!(a.ctrl.nm.get_swarm_size(), 4);
    }
    let roots = agents.iter().filter(|a| a.ctrl.nm.is_root_node()).count();
    assert_eq!(roots, 1);
}

#[test]
fn line_flight_of_two_agents() {
    let mut agents = vec![agent(2, pv(0, 14000, 10000), 0), agent(3, pv(0, 16000, 10000), 0)];
    let start = pv(0, 10000, 10000);
    let end = pv(0, 20000, 10000);
    let task = Task {
        id: 0,
        lines: vec![Line { points: vec![start, end], start: true, end: true }],
        duration_ms: 10_000,
        comm_point: None,
    };
    let mut arrived_at: Option<u64> = None;
    let mut done_at: Option<u64> = None;
    for tick in 1..=400u64 {
        let now = tick * TICK_MS;
        let gcs = if tick == 30 {
            vec![Msg { sender: get_gcs_desc(), to_ids: vec![2, 3], body: MsgBody::Task(task.copy()) }]
        } else {
            vec![]
        };
        step(&mut agents, now, gcs);
        let near = |a: &Agent, t: &PosVec| dist_sq(&a.p, t) <= 500u128 * 500u128;
        if arrived_at.is_none() && near(&agents[0], &start) && near(&agents[1], &end) {
            arrived_at = Some(now);
        }
        if done_at.is_none() && agents[0].ctrl.nm.tm.old_tasks.contains(&0) {
            done_at = Some(now);
        }
    }
    let arrived = arrived_at.expect("both agents reach their endpoints");
    let done = done_at.expect("the task terminates");
    assert!(done >= arrived + 10_000 - TICK_MS);
    assert_eq!(agents[0].ctrl.nm.state, NodeState::Free);
    assert!(agents[0].ctrl.nm.tm.add_task_if_new(&task) == false);
}

#[test]
fn lost_child_fails_the_task() {
    let c = conf(2);
    let mut nm = NodeManager::new_root_node(&c, &pv(0, 0, 0), &zero_v(), 0);
    assert!(nm.set_parent(&desc(vec![1], pv(0, 1000, 0), 3, Some(7))));
    assert_eq!(nm.state, NodeState::InTask(7, TaskState::InProgress));
    nm.parent.as_mut().unwrap().last_heard = 5_000;
    nm.children.push(Node {
        desc: desc(vec![1, 2, 3], pv(1000, 0, 0), 3, Some(7)),
        details: NodeDetails { subswarm: 1, subswm_tsk: SubswarmTaskState::Algn(7) },
        last_heard: 0,
    });
    let (_, _) = nm.update_node(&pv(0, 0, 0), &zero_v(), &vec![], &vec![], &vec![], &vec![], 4_000, DECAY_PPM);
    assert_eq!(nm.children.len(), 1);
    let (_, _) = nm.update_node(&pv(0, 0, 0), &zero_v(), &vec![], &vec![], &vec![], &vec![], 5_100, DECAY_PPM);
    assert_eq!(nm.children.len(), 0);
    assert!(matches!(nm.state, NodeState::InTask(7, TaskState::Failure)));
    assert_eq!(nm.get_subswarm_task_state(), SubswarmTaskState::Fail(7));
}

#[test]
fn join_that_would_close_a_cycle_is_rejected() {
    let mut nm = NodeManager::new_root_node(&conf(1), &pv(0, 0, 0), &zero_v(), 0);
    let x = desc(vec![1, 2, 3], pv(1000, 0, 0), 3, None);
    let appl = JoinAppl { dtl: NodeDetails { subswarm: 1, subswm_tsk: SubswarmTaskState::NoTask }, src_tree: 1 };
    let reply = nm.add_child_or_reject(&x, &appl);
    assert!(matches!(reply.body, MsgBody::Reject));
    assert_eq!(reply.to_ids, vec![3]);
    assert!(nm.parent.is_none());
    assert!(nm.children.is_empty());
    let mut child = NodeManager::new_root_node(&conf(3), &pv(0, 0, 0), &zero_v(), 0);
    assert!(!child.set_parent(&desc(vec![1, 3, 5], pv(0, 0, 0), 3, None)));
    assert!(child.parent.is_none());
    assert_eq!(child.nid, vec![3]);
}

#[test]
fn join_from_another_tree_is_accepted() {
    let mut nm = NodeManager::new_root_node(&conf(1), &pv(0, 0, 0), &zero_v(), 0);
    let x = desc(vec![1, 5], pv(1000, 0, 0), 1, None);
    let appl = JoinAppl { dtl: NodeDetails { subswarm: 1, subswm_tsk: SubswarmTaskState::NoTask }, src_tree: 5 };
    let reply = nm.add_child_or_reject(&x, &appl);
    assert!(matches!(reply.body, MsgBody::Accept));
    assert!(nm.has_child_of_id(5));
    assert_eq!(nm.get_subswarm_size(), 2);
    let y = desc(vec![1, 6], pv(1000, 0, 0), 1, None);
    let appl6 = JoinAppl { src_tree: 6, ..appl };
    assert!(matches!(nm.add_child_or_reject(&y, &appl6).body, MsgBody::Reject));
}

#[test]
fn contact_hysteresis() {
    let mut cs = Contacts::new(&pv(0, 0, 0), 10000);
    let from = |x: i32| Msg::new_empty_msg(desc(vec![2], pv(x, 0, 0), 1, None));
    let u = cs.update(&pv(0, 0, 0), &vec![from(9500)], 0);
    assert!(u.added.is_empty());
    let u = cs.update(&pv(0, 0, 0), &vec![from(9000)], 100);
    assert_eq!(u.added, vec![2]);
    assert_eq!(u.msgs, vec![0]);
    let u = cs.update(&pv(0, 0, 0), &vec![from(10000)], 200);
    assert!(u.removed.is_empty());
    assert_eq!(cs.get_contacts().len(), 1);
    let u = cs.update(&pv(0, 0, 0), &vec![from(10001)], 300);
    assert_eq!(u.removed, vec![2]);
    let u = cs.update(&pv(0, 0, 0), &vec![from(9500)], 400);
    assert!(u.added.is_empty());
    assert!(cs.get_contacts().is_empty());
}

#[test]
fn silent_contacts_are_lost_and_gcs_passes() {
    let mut cs = Contacts::new(&pv(0, 0, 0), 10000);
    let m = Msg::new_empty_msg(desc(vec![2], pv(100, 0, 0), 1, None));
    cs.update(&pv(0, 0, 0), &vec![m], 0);
    let g = Msg::new_empty_msg(get_gcs_desc());
    let far = Msg::new_empty_msg(desc(vec![9], pv(50000, 0, 0), 1, None));
    let u = cs.update(&pv(0, 0, 0), &vec![far, g], 3001);
    assert_eq!(u.removed, vec![2]);
    assert_eq!(u.msgs, vec![1]);
}

fn contact_at(p: PosVec, now: u64) -> Contact {
    Contact { desc: desc(vec![2], p, 1, None), last_heard: now }
}

#[test]
fn collision_dodge_strips_motion_toward_a_close_neighbour() {
    let cv = ColliVoid::new(&conf(1));
    // half the evasion distance (five radii of 100 mm) away
    let n = vec![contact_at(pv(250, 0, 0), 0)];
    let v = cv.get_safe_v(&Velocity { vx: 1000, vy: 0, vz: 0 }, &pv(0, 0, 0), &n, 0);
    assert_eq!(v.vx, 0);
    let v2 = cv.get_safe_v(&Velocity { vx: 1000, vy: 300, vz: 0 }, &pv(0, 0, 0), &n, 0);
    assert!(v2.vx <= 0);
}

#[test]
fn collision_filter_leaves_far_neighbours_alone() {
    let cv = ColliVoid::new(&conf(1));
    let n = vec![contact_at(pv(20000, 0, 0), 0)];
    let aim = Velocity { vx: 1000, vy: -200, vz: 30 };
    assert_eq!(cv.get_safe_v(&aim, &pv(0, 0, 0), &n, 0), aim);
    assert_eq!(cv.get_safe_v(&aim, &pv(0, 0, 0), &vec![], 0), aim);
}

#[test]
fn follow_parent_velocity() {
    let mut nm = NodeManager::new_root_node(&conf(2), &pv(0, 0, 0), &zero_v(), 0);
    assert_eq!(nm.calc_next_v(), zero_v());
    assert!(nm.set_parent(&desc(vec![1], pv(12000, 0, 0), 1, None)));
    assert_eq!(nm.nid, vec![1, 2]);
    assert_eq!(nm.calc_next_v(), Velocity { vx: 1000, vy: 0, vz: 0 });
    assert!(nm.set_parent(&desc(vec![1], pv(9000, 0, 0), 1, None)));
    assert_eq!(nm.calc_next_v(), zero_v());
}

#[test]
fn root_queues_tasks_and_non_root_relays_them() {
    let mut root = NodeManager::new_root_node(&conf(1), &pv(0, 0, 0), &zero_v(), 0);
    let t = Task { id: 4, lines: vec![], duration_ms: 1, comm_point: None };
    assert!(root.relay_or_accept_task(&t).is_empty());
    assert_eq!(root.tm.queued_tasks.len(), 1);
    root.manage_root_node_state();
    assert_eq!(root.state, NodeState::InTask(4, TaskState::InProgress));
    let mut child = NodeManager::new_root_node(&conf(2), &pv(0, 0, 0), &zero_v(), 0);
    assert!(child.set_parent(&desc(vec![1], pv(0, 0, 0), 1, None)));
    let out = child.relay_or_accept_task(&t);
    assert_eq!(out.len(), 1);
    assert_eq!(out[0].to_ids, vec![1]);
}

#[test]
fn crowded_filter_still_never_heads_into_the_nearest() {
    let cv = ColliVoid::new(&conf(1));
    let n = vec![
        contact_at(pv(300, 100, 0), 0),
        contact_at(pv(-2000, 0, 0), 0),
        contact_at(pv(0, 3000, 0), 0),
        contact_at(pv(0, 0, 4000), 0),
    ];
    let v = cv.get_safe_v(&Velocity { vx: 2000, vy: 500, vz: 0 }, &pv(0, 0, 0), &n, 0);
    assert!(v.vx as i64 * 300 + v.vy as i64 * 100 <= 0);
}
