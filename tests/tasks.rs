use astro::msg::{Line, Task};
use astro::tm::{divide_line, divide_line_groups, distribute_uav_to_lines, split_line_for_uav_group, ChildInfo, LineSplit, TaskDivider, TaskExecutor, TaskManager};
use astro::vector::PosVec;

fn pv(x: i32, y: i32, z: i32) -> PosVec {
    PosVec { x, y, z }
}

fn line(points: Vec<PosVec>, start: bool, end: bool) -> Line {
    Line { points, start, end }
}

fn task(id: u32) -> Task {
    Task { id, lines: vec![line(vec![pv(0, 0, 0), pv(10000, 0, 0)], true, true)], duration_ms: 1000, comm_point: None }
}

#[test]
fn finished_task_ids_are_never_queued_again() {
    let mut tm = TaskManager::new();
    assert!(tm.add_task_if_new(&task(1)));
    assert!(!tm.add_task_if_new(&task(1)));
    let t = tm.pop_queued_task().unwrap();
    assert_eq!(t.id, 1);
    tm.set_current_task(t);
    assert!(!tm.add_task_if_new(&task(1)));
    tm.clear_current_task();
    assert!(tm.old_tasks.contains(&1));
    assert!(!tm.add_task_if_new(&task(1)));
    assert!(tm.add_task_if_new(&task(2)));
    assert!(tm.pop_queued_task().is_some());
    assert!(tm.pop_queued_task().is_none());
}

#[test]
fn executor_needs_the_dwell_time() {
    let mut te = TaskExecutor::new(&pv(0, 0, 0), 10_000);
    assert_eq!(te.advance(&pv(600, 0, 0), 0), None);
    assert_eq!(te.on_pos_t, None);
    assert_eq!(te.advance(&pv(400, 0, 0), 1000), None);
    assert_eq!(te.advance(&pv(0, 300, 0), 10_999), None);
    assert_eq!(te.advance(&pv(0, 0, 0), 11_000), Some(true));
    assert_eq!(te.advance(&pv(0, 0, 501), 12_000), None);
    assert_eq!(te.on_pos_t, None);
}

#[test]
fn surplus_goes_to_the_most_loaded_line() {
    let lines = vec![
        line(vec![pv(0, 0, 0), pv(10000, 0, 0)], true, true),
        line(vec![pv(0, 0, 0), pv(40000, 0, 0)], false, false),
    ];
    assert_eq!(distribute_uav_to_lines(&lines, 2), None);
    assert_eq!(distribute_uav_to_lines(&lines, 3), Some(vec![2, 1]));
    assert_eq!(distribute_uav_to_lines(&lines, 5), Some(vec![2, 3]));
    let d = distribute_uav_to_lines(&lines, 9).unwrap();
    assert_eq!(d.iter().sum::<u32>(), 9);
}

#[test]
fn dividing_a_line_keeps_its_geometry() {
    let l = line(vec![pv(0, 0, 0), pv(10000, 0, 0), pv(10000, 10000, 0)], true, true);
    let (a, b) = divide_line(l, 1, 4);
    assert_eq!(a.points, vec![pv(0, 0, 0), pv(5000, 0, 0)]);
    assert_eq!(b.points, vec![pv(5000, 0, 0), pv(10000, 0, 0), pv(10000, 10000, 0)]);
    assert!(a.start && !a.end);
    assert!(!b.start && b.end);
    let (c, d) = divide_line(line(vec![pv(0, 0, 0), pv(10000, 0, 0), pv(10000, 10000, 0)], false, false), 3, 4);
    assert_eq!(c.points.last(), Some(&pv(10000, 5000, 0)));
    assert_eq!(d.points[0], pv(10000, 5000, 0));
    assert_eq!(c.calc_length() + d.calc_length(), 20000);
}

#[test]
fn splitting_for_a_group() {
    match split_line_for_uav_group(line(vec![pv(0, 0, 0), pv(10000, 0, 0)], true, true), 2, 3) {
        Some(LineSplit::Whole(_, left)) => assert_eq!(left, 1),
        _ => panic!("expected the whole line"),
    }
    match split_line_for_uav_group(line(vec![pv(0, 0, 0), pv(10000, 0, 0)], true, true), 2, 1) {
        Some(LineSplit::Part(a, b, left)) => {
            assert_eq!(left, 1);
            assert_eq!(a.points, vec![pv(0, 0, 0), pv(5000, 0, 0)]);
            assert_eq!(b.points[0], pv(5000, 0, 0));
        },
        _ => panic!("expected a division"),
    }
    assert!(split_line_for_uav_group(line(vec![pv(0, 0, 0)], false, false), 2, 1).is_none());
}

#[test]
fn groups_conserve_uavs() {
    let lines = vec![line(vec![pv(0, 0, 0), pv(30000, 0, 0)], true, true)];
    let g = divide_line_groups(&lines, &vec![4], &vec![1, 2, 1]).unwrap();
    assert_eq!(g.len(), 3);
    assert_eq!(g[0].len(), 1);
    assert!(g[0][0].start && !g[0][0].end);
    assert!(!g[1][0].start && !g[1][0].end);
    assert!(!g[2][0].start && g[2][0].end);
    assert_eq!(g[2][0].points.last(), Some(&pv(30000, 0, 0)));
}

#[test]
fn divide_task_assigns_endpoints() {
    let t = Task {
        id: 0,
        lines: vec![line(vec![pv(0, 10000, 10000), pv(0, 20000, 10000)], true, true)],
        duration_ms: 10_000,
        comm_point: None,
    };
    let mut td = TaskDivider::new(t);
    assert!(td.divide_task(&vec![ChildInfo { id: 3, subswm_size: 1 }], 19000));
    assert_eq!(td.own_subtask.unwrap().pos_target, pv(0, 10000, 10000));
    let sub = td.get_child_subtask(3).unwrap();
    assert_eq!(sub.comm_point, Some(pv(0, 10000, 10000)));
    assert_eq!(sub.lines.len(), 1);
    assert!(!sub.lines[0].start && sub.lines[0].end);
    assert_eq!(sub.lines[0].points, vec![pv(0, 15000, 10000), pv(0, 20000, 10000)]);
    let mut child = TaskDivider::new(sub.copy());
    assert!(child.divide_task(&vec![], 19000));
    assert_eq!(child.own_subtask.unwrap().pos_target, pv(0, 20000, 10000));
    let mut far = TaskDivider::new(sub.copy());
    assert!(!far.divide_task(&vec![], 9000));
    assert!(far.own_subtask.is_none());
}

#[test]
fn too_few_uavs_fail_division() {
    let t = Task { id: 0, lines: vec![line(vec![pv(0, 0, 0), pv(1000, 0, 0)], true, true)], duration_ms: 1, comm_point: None };
    let mut td = TaskDivider::new(t);
    assert!(!td.divide_task(&vec![], 10000));
    let empty = Task { id: 1, lines: vec![], duration_ms: 1, comm_point: None };
    assert!(!TaskDivider::new(empty).divide_task(&vec![], 10000));
}
