//! Task management: the queue of tasks at a root, the division of a task
//! over a subtree, and the monitor of arrival on an assigned target.

use std::collections::{HashMap, HashSet, VecDeque};

use vstd::prelude::*;

use crate::msg::{polyline_length, Line, LineView, Task, TaskView};
use crate::vector::{dist_sq, dist_sq_spec, distance, interp, interp_spec, seg_len, PosVec};

verus! {

broadcast use vstd::std_specs::hash::group_hash_axioms;

/// A UAV is on its target when closer than this, in millimetres.
pub const DEFAULT_POS_MAINTAIN_PRECISION: u64 = 500;

/// Within the arrival precision of `target`.
pub open spec fn on_target(p: PosVec, target: PosVec) -> bool {
    dist_sq_spec(p, target) <= DEFAULT_POS_MAINTAIN_PRECISION * DEFAULT_POS_MAINTAIN_PRECISION
}

/// Monitors whether the UAV holds its assigned target position long enough.
#[derive(Clone, Copy, Debug, PartialEq, Eq, Structural)]
pub struct TaskExecutor {
    pub pos_target: PosVec,
    /// Since when (milliseconds) the UAV has been on target, if it is.
    pub on_pos_t: Option<u64>,
    /// How long (milliseconds) the target must be held.
    pub succ_duration: u64,
}

/// Result of an executor at time `now`: success once the target has been
/// held for the dwell time, otherwise still in progress. It never fails.
pub open spec fn executor_result(on_pos_t: Option<u64>, succ_duration: u64, now: u64) -> Option<bool> {
    match on_pos_t {
        Some(t) => if now >= t && now - t >= succ_duration || now < t && succ_duration == 0 {
            Some(true)
        } else {
            None
        },
        None => None,
    }
}

impl TaskExecutor {
    /// A fresh executor for a target.
    pub open spec fn new_spec(pos_target: PosVec, succ_duration: u64) -> TaskExecutor {
        TaskExecutor { pos_target, on_pos_t: None, succ_duration }
    }

    pub fn new(pos_target: &PosVec, succ_duration: u64) -> (r: TaskExecutor)
        ensures
            r == TaskExecutor::new_spec(*pos_target, succ_duration),
    {
        TaskExecutor { pos_target: *pos_target, on_pos_t: None, succ_duration }
    }

    /// Records whether `pos` is on target at `now` and reports the result.
    pub fn advance(&mut self, pos: &PosVec, now: u64) -> (r: Option<bool>)
        ensures
            final(self).pos_target == old(self).pos_target,
            final(self).succ_duration == old(self).succ_duration,
            final(self).on_pos_t == (if on_target(*pos, old(self).pos_target) {
                if old(self).on_pos_t.is_none() {
                    Some(now)
                } else {
                    old(self).on_pos_t
                }
            } else {
                None
            }),
            r == executor_result(final(self).on_pos_t, final(self).succ_duration, now),
    {
        let precision_sq: u128 = (DEFAULT_POS_MAINTAIN_PRECISION as u128) * (
        DEFAULT_POS_MAINTAIN_PRECISION as u128);
        if dist_sq(pos, &self.pos_target) <= precision_sq {
            if self.on_pos_t.is_none() {
                self.on_pos_t = Some(now);
            }
        } else {
            self.on_pos_t = None;
        }
        self.get_result(now)
    }

    /// Success once the target has been held for the dwell time; `None`
    /// while in progress. Elapsed time saturates at zero.
    pub fn get_result(&self, now: u64) -> (r: Option<bool>)
        ensures
            r == executor_result(self.on_pos_t, self.succ_duration, now),
    {
        match self.on_pos_t {
            Some(t) => {
                let elapsed: u64 = if now >= t { now - t } else { 0 };
                if elapsed >= self.succ_duration {
                    Some(true)
                } else {
                    None
                }
            },
            None => None,
        }
    }
}

/// Mathematical value of a task manager: the id of the current task, the
/// queued tasks and the ids of finished tasks.
pub struct TaskManagerView {
    pub current: Option<u32>,
    pub queued: Seq<TaskView>,
    pub old_tasks: Set<u32>,
}

/// A task id is new when it is not current, not queued and not finished.
pub open spec fn task_is_new(m: TaskManagerView, tid: u32) -> bool {
    &&& m.current != Some(tid)
    &&& !m.old_tasks.contains(tid)
    &&& forall|i: int| 0 <= i < m.queued.len() ==> #[trigger] m.queued[i].id != tid
}

/// Queue the task if its id is new.
pub open spec fn add_task_spec(m: TaskManagerView, t: TaskView) -> TaskManagerView {
    if task_is_new(m, t.id) {
        TaskManagerView { queued: m.queued.push(t), ..m }
    } else {
        m
    }
}

/// Drop the current task, remembering its id as finished.
pub open spec fn clear_current_spec(m: TaskManagerView) -> TaskManagerView {
    match m.current {
        Some(tid) => TaskManagerView { current: None, old_tasks: m.old_tasks.insert(tid), ..m },
        None => m,
    }
}

/// A task that has finished is never queued again, whatever else is
/// queued or running.
pub proof fn law_finished_task_never_requeued(m: TaskManagerView, t: TaskView)
    requires
        m.old_tasks.contains(t.id),
    ensures
        add_task_spec(m, t) == m,
        add_task_spec(clear_current_spec(m), t) == clear_current_spec(m),
{
}

/// A task that ran is finished once it is cleared, and can no longer be
/// queued.
pub proof fn law_cleared_task_is_finished(m: TaskManagerView, t: TaskView)
    requires
        m.current == Some(t.id),
    ensures
        add_task_spec(clear_current_spec(m), t) == clear_current_spec(m),
        clear_current_spec(m).old_tasks.contains(t.id),
{
}

/// The queue of tasks (at the root), the task being carried out and the
/// ids of finished tasks.
pub struct TaskManager {
    pub task_exec: Option<TaskDivider>,
    pub queued_tasks: VecDeque<Task>,
    pub old_tasks: HashSet<u32>,
}

impl View for TaskManager {
    type V = TaskManagerView;

    open spec fn view(&self) -> TaskManagerView {
        TaskManagerView {
            current: match self.task_exec {
                Some(td) => Some(td.task.id),
                None => None,
            },
            queued: self.queued_tasks@.map_values(|t: Task| t@),
            old_tasks: self.old_tasks@,
        }
    }
}

impl TaskManager {
    pub fn new() -> (r: TaskManager)
        ensures
            r@.current.is_none(),
            r@.queued.len() == 0,
            r@.old_tasks.is_empty(),
    {
        let r = TaskManager { task_exec: None, queued_tasks: VecDeque::new(), old_tasks: HashSet::new() };
        assert(r@.queued =~= Seq::<TaskView>::empty());
        r
    }

    pub fn get_current_task(&self) -> (r: Option<&TaskDivider>)
        ensures
            r == match self.task_exec {
                Some(ref td) => Some(td),
                None => None::<&TaskDivider>,
            },
    {
        self.task_exec.as_ref()
    }

    /// Starts carrying out `task`, with nothing divided yet.
    pub fn set_current_task(&mut self, task: Task)
        ensures
            final(self).task_exec matches Some(td) && td.task == task && td.own_subtask.is_none()
                && td.child_subtask@.is_empty(),
            final(self).queued_tasks == old(self).queued_tasks,
            final(self).old_tasks@ == old(self).old_tasks@,
    {
        self.task_exec = Some(TaskDivider::new(task));
    }

    /// Drops the current task, remembering its id as finished.
    pub fn clear_current_task(&mut self)
        ensures
            final(self)@ == clear_current_spec(old(self)@),
            final(self).task_exec.is_none(),
    {
        match &self.task_exec {
            Some(te) => {
                let tid = te.get_tid();
                self.old_tasks.insert(tid);
                self.task_exec = None;
            },
            None => {},
        }
    }

    /// Takes the oldest queued task.
    pub fn pop_queued_task(&mut self) -> (r: Option<Task>)
        ensures
            final(self).task_exec == old(self).task_exec,
            final(self).old_tasks@ == old(self).old_tasks@,
            old(self)@.queued.len() == 0 ==> r.is_none() && final(self)@ == old(self)@,
            old(self)@.queued.len() > 0 ==> (r matches Some(t) && t@ == old(self)@.queued[0]
                && final(self)@.queued == old(self)@.queued.drop_first()),
    {
        let r = self.queued_tasks.pop_front();
        proof {
            if r.is_some() {
                assert(self@.queued =~= old(self)@.queued.drop_first());
            }
        }
        r
    }

    pub fn is_task_new(&self, task: &Task) -> (r: bool)
        ensures
            r == task_is_new(self@, task.id),
    {
        let current = match &self.task_exec {
            Some(te) => te.get_tid() == task.id,
            None => false,
        };
        if current || self.old_tasks.contains(&task.id) {
            return false;
        }
        let mut i: usize = 0;
        while i < self.queued_tasks.len()
            invariant
                i <= self.queued_tasks@.len(),
                forall|j: int| 0 <= j < i ==> #[trigger] self@.queued[j].id != task.id,
            decreases self.queued_tasks.len() - i,
        {
            if self.queued_tasks[i].id == task.id {
                assert(self@.queued[i as int].id == task.id);
                return false;
            }
            i += 1;
        }
        true
    }

    /// Queues a copy of `task` when its id is new; says whether it did.
    pub fn add_task_if_new(&mut self, task: &Task) -> (r: bool)
        ensures
            r == task_is_new(old(self)@, task.id),
            final(self)@ == add_task_spec(old(self)@, task@),
            final(self).task_exec == old(self).task_exec,
    {
        if self.is_task_new(task) {
            self.queued_tasks.push_back(task.copy());
            assert(self@.queued =~= old(self)@.queued.push(task@));
            true
        } else {
            false
        }
    }
}

/// Id and subtree size of a child, as the divider needs them.
#[derive(Clone, Copy, Debug, PartialEq, Eq, Structural)]
pub struct ChildInfo {
    pub id: u32,
    pub subswm_size: u32,
}

/// Divides one task into a target for this UAV and a subtask per child.
pub struct TaskDivider {
    pub task: Task,
    pub own_subtask: Option<TaskExecutor>,
    pub child_subtask: HashMap<u32, Task>,
}

impl TaskDivider {
    pub fn new(task: Task) -> (r: TaskDivider)
        ensures
            r.task == task,
            r.own_subtask.is_none(),
            r.child_subtask@.is_empty(),
    {
        TaskDivider { task, own_subtask: None, child_subtask: HashMap::new() }
    }

    pub fn get_tid(&self) -> (r: u32)
        ensures
            r == self.task.id,
    {
        self.task.id
    }

    /// Whether the task has been divided (which also means the subtree was
    /// aligned on it).
    pub fn is_task_divided(&self) -> (r: bool)
        ensures
            r == self.own_subtask.is_some(),
    {
        self.own_subtask.is_some()
    }

    /// This agent's own part, once the task is divided.
    pub fn get_own_subtask(&self) -> (r: Option<&TaskExecutor>)
        ensures
            r == match self.own_subtask {
                Some(ref te) => Some(te),
                None => None::<&TaskExecutor>,
            },
    {
        self.own_subtask.as_ref()
    }

    pub fn get_child_subtask(&self, cid: u32) -> (r: Option<&Task>)
        ensures
            self.child_subtask@.contains_key(cid) ==> r == Some(&self.child_subtask@[cid]),
            !self.child_subtask@.contains_key(cid) ==> r.is_none(),
    {
        self.child_subtask.get(&cid)
    }
}

/// Length of the first `k` points of a polyline.
pub open spec fn prefix_length(pts: Seq<PosVec>, k: int) -> nat {
    polyline_length(pts.take(k))
}

/// Length of a polyline, saturating at `u64::MAX` millimetres.
pub open spec fn capped_length(pts: Seq<PosVec>) -> nat {
    if polyline_length(pts) > u64::MAX {
        u64::MAX as nat
    } else {
        polyline_length(pts)
    }
}

/// Arc length at which a polyline is divided at ratio `num / den`.
pub open spec fn split_target(pts: Seq<PosVec>, num: nat, den: nat) -> nat {
    capped_length(pts) * num / den
}

/// `idx` is the first point at which the arc length reaches `len1`.
pub open spec fn is_break_index(pts: Seq<PosVec>, len1: nat, idx: int) -> bool {
    &&& 1 <= idx < pts.len()
    &&& prefix_length(pts, idx + 1) >= len1
    &&& forall|k: int| 1 <= k < idx ==> #[trigger] prefix_length(pts, k + 1) < len1
}

/// The point at arc length `len1`, on the segment ending at point `idx`.
pub open spec fn breakpoint(pts: Seq<PosVec>, len1: nat, idx: int) -> PosVec {
    interp_spec(
        pts[idx - 1],
        pts[idx],
        len1 - prefix_length(pts, idx),
        seg_len(pts[idx - 1], pts[idx]) as int,
    )
}

/// `(a, b)` is `line` divided at arc length `len1`: `a` runs from the first
/// point to the breakpoint and `b` from the breakpoint to the last point.
/// The breakpoint needs no UAV: `a` keeps the start flag and `b` the end flag.
pub open spec fn is_division(line: LineView, len1: nat, a: LineView, b: LineView) -> bool {
    exists|idx: int|
        {
            &&& #[trigger] is_break_index(line.points, len1, idx)
            &&& a.points == line.points.take(idx).push(breakpoint(line.points, len1, idx))
            &&& b.points == seq![breakpoint(line.points, len1, idx)] + line.points.skip(idx)
            &&& a.start == line.start && !a.end
            &&& !b.start && b.end == line.end
        }
}

/// The two parts of a divided line share the breakpoint, and without it
/// they are the original polyline: the first part's points, then the
/// second's.
pub proof fn law_division_keeps_polyline(line: LineView, len1: nat, a: LineView, b: LineView)
    requires
        is_division(line, len1, a, b),
    ensures
        a.points.drop_last() + b.points.drop_first() == line.points,
        a.points.last() == b.points[0],
        !a.end && !b.start,
{
    let idx = choose|idx: int|
        {
            &&& #[trigger] is_break_index(line.points, len1, idx)
            &&& a.points == line.points.take(idx).push(breakpoint(line.points, len1, idx))
            &&& b.points == seq![breakpoint(line.points, len1, idx)] + line.points.skip(idx)
            &&& a.start == line.start && !a.end
            &&& !b.start && b.end == line.end
        };
    assert(a.points.drop_last() =~= line.points.take(idx));
    assert(b.points.drop_first() =~= line.points.skip(idx));
    assert(line.points.take(idx) + line.points.skip(idx) =~= line.points);
}

proof fn lemma_prefix_step(pts: Seq<PosVec>, k: int)
    requires
        1 <= k < pts.len(),
    ensures
        prefix_length(pts, k + 1) == prefix_length(pts, k) + seg_len(pts[k - 1], pts[k]),
{
    assert(pts.take(k + 1).drop_last() =~= pts.take(k));
}

/// Divides a polyline in two at ratio `num / den` of its length.
pub fn divide_line(line: Line, num: u64, den: u64) -> (r: (Line, Line))
    requires
        0 < num < den <= 0x100_0000_0000,
        line.points@.len() >= 2,
    ensures
        is_division(line@, split_target(line.points@, num as nat, den as nat), r.0@, r.1@),
{
    let pts = &line.points;
    let n = pts.len();
    let total = line.calc_length();
    let capped: u128 = if total > u64::MAX as u128 { u64::MAX as u128 } else { total };
    proof {
        assert(capped * num <= 0xFFFF_FFFF_FFFF_FFFF * 0x100_0000_0000) by (nonlinear_arith)
            requires
                capped <= 0xFFFF_FFFF_FFFF_FFFF,
                num <= 0x100_0000_0000,
        ;
        assert((capped as int) * (num as int) / (den as int) <= capped as int) by (nonlinear_arith)
            requires
                num < den,
                den > 0,
                capped >= 0,
        ;
        assert(pts@.take(n as int) =~= pts@);
        assert(pts@.take(1).drop_last() =~= Seq::<PosVec>::empty());
    }
    let len1: u128 = capped * (num as u128) / (den as u128);
    let ghost len1_n: nat = len1 as nat;
    let mut cur: u128 = 0;
    let mut i: usize = 1;
    let mut found: bool = false;
    while i < n && !found
        invariant
            1 <= i <= n,
            n == pts@.len(),
            len1 <= polyline_length(pts@),
            !found ==> cur == prefix_length(pts@, i as int),
            !found ==> forall|k: int| 1 <= k < i ==> #[trigger] prefix_length(pts@, k + 1) < len1,
            found ==> i < n && is_break_index(pts@, len1_n, i as int) && cur == prefix_length(
                pts@,
                i as int,
            ),
            cur <= i * 0x4_0000_0000,
            cur <= len1,
            len1_n == len1,
        decreases n - i, if found { 0int } else { 1int },
    {
        let d = distance(&pts[i - 1], &pts[i]);
        proof {
            lemma_prefix_step(pts@, i as int);
        }
        if cur + d as u128 >= len1 {
            assert(cur == prefix_length(pts@, i as int));
            assert(d == seg_len(pts@[i - 1], pts@[i as int]));
            assert(prefix_length(pts@, i + 1) == prefix_length(pts@, i as int) + seg_len(pts@[i - 1], pts@[i as int]));
            assert(prefix_length(pts@, i + 1) >= len1_n);
            assert(is_break_index(pts@, len1_n, i as int));
            found = true;
        } else {
            cur = cur + d as u128;
            i += 1;
        }
    }
    proof {
        if !found {
            assert(i == n);
            assert(prefix_length(pts@, (n - 1) + 1) < len1);
            assert(false);
        }
    }
    let idx = i;
    let seg = distance(&pts[idx - 1], &pts[idx]);
    proof {
        lemma_prefix_step(pts@, idx as int);
    }
    let w: u64 = (len1 - cur) as u64;
    let bp = interp(&pts[idx - 1], &pts[idx], w, seg);
    let mut first: Vec<PosVec> = Vec::new();
    let mut j: usize = 0;
    while j < idx
        invariant
            j <= idx < pts@.len(),
            first@ == pts@.take(j as int),
        decreases idx - j,
    {
        first.push(pts[j]);
        j += 1;
        assert(first@ =~= pts@.take(j as int));
    }
    first.push(bp);
    let mut second: Vec<PosVec> = Vec::new();
    second.push(bp);
    let mut j: usize = idx;
    while j < n
        invariant
            idx <= j <= n,
            n == pts@.len(),
            second@ == seq![bp] + pts@.subrange(idx as int, j as int),
        decreases n - j,
    {
        second.push(pts[j]);
        j += 1;
        assert(second@ =~= seq![bp] + pts@.subrange(idx as int, j as int));
    }
    assert(pts@.subrange(idx as int, n as int) =~= pts@.skip(idx as int));
    let a = Line { points: first, start: line.start, end: false };
    let b = Line { points: second, start: false, end: line.end };
    assert(is_break_index(line.points@, len1_n, idx as int));
    assert(bp == breakpoint(line.points@, len1_n, idx as int));
    assert(a@.points == line.points@.take(idx as int).push(breakpoint(line.points@, len1_n, idx as int)));
    assert(b@.points == seq![breakpoint(line.points@, len1_n, idx as int)] + line.points@.skip(idx as int));
    assert(a@.start == line@.start && !a@.end && !b@.start && b@.end == line@.end);
    let ghost k = idx as int;
    assert({
        &&& is_break_index(line@.points, len1_n, k)
        &&& a@.points == line@.points.take(k).push(breakpoint(line@.points, len1_n, k))
        &&& b@.points == seq![breakpoint(line@.points, len1_n, k)] + line@.points.skip(k)
        &&& a@.start == line@.start && !a@.end
        &&& !b@.start && b@.end == line@.end
    });
    assert(is_division(line@, len1_n, a@, b@));
    (a, b)
}

/// Sum of a sequence of naturals.
pub open spec fn seq_sum(s: Seq<nat>) -> nat
    decreases s.len(),
{
    if s.len() == 0 {
        0
    } else {
        seq_sum(s.drop_last()) + s.last()
    }
}

proof fn lemma_seq_sum_update(s: Seq<nat>, j: int, v: nat)
    requires
        0 <= j < s.len(),
    ensures
        seq_sum(s.update(j, v)) + s[j] == seq_sum(s) + v,
    decreases s.len(),
{
    if j < s.len() - 1 {
        assert(s.update(j, v).drop_last() =~= s.drop_last().update(j, v));
        lemma_seq_sum_update(s.drop_last(), j, v);
    } else {
        assert(s.update(j, v).drop_last() =~= s.drop_last());
    }
}

proof fn lemma_seq_sum_elem(s: Seq<nat>, j: int)
    requires
        0 <= j < s.len(),
    ensures
        s[j] <= seq_sum(s),
    decreases s.len(),
{
    if j < s.len() - 1 {
        lemma_seq_sum_elem(s.drop_last(), j);
    }
}

proof fn lemma_seq_sum_push(s: Seq<nat>, v: nat)
    ensures
        seq_sum(s.push(v)) == seq_sum(s) + v,
{
    assert(s.push(v).drop_last() =~= s);
}

/// Naturals of a list of `u32`.
pub open spec fn nats(s: Seq<u32>) -> Seq<nat> {
    s.map_values(|x: u32| x as nat)
}

/// The fewest UAVs each line needs.
pub open spec fn least_distrib(lines: Seq<LineView>) -> Seq<nat> {
    lines.map_values(|l: LineView| l.least_uavs())
}

/// Twice the effective UAV count of a line holding `d` UAVs: each required
/// endpoint absorbs half a UAV.
pub open spec fn eff2(l: LineView, d: nat) -> int {
    2 * d - l.end_points()
}

/// Line `i` is at least as loaded (length per effective UAV) as line `j`.
pub open spec fn load_ge(lines: Seq<LineView>, d: Seq<nat>, i: int, j: int) -> bool {
    capped_length(lines[i].points) * eff2(lines[j], d[j]) >= capped_length(lines[j].points) * eff2(
        lines[i],
        d[i],
    )
}

/// The most loaded of the first `n` lines; the last one among equals.
pub open spec fn most_loaded(lines: Seq<LineView>, d: Seq<nat>, n: nat) -> nat
    decreases n,
{
    if n <= 1 {
        0
    } else {
        let j = most_loaded(lines, d, (n - 1) as nat);
        if load_ge(lines, d, n - 1, j as int) {
            (n - 1) as nat
        } else {
            j
        }
    }
}

/// The allocation after giving `k` surplus UAVs, one at a time, each to the
/// most loaded line.
pub open spec fn distribute_steps(lines: Seq<LineView>, k: nat) -> Seq<nat>
    decreases k,
{
    if k == 0 {
        least_distrib(lines)
    } else {
        let prev = distribute_steps(lines, (k - 1) as nat);
        let j = most_loaded(lines, prev, lines.len()) as int;
        prev.update(j, prev[j] + 1)
    }
}

proof fn lemma_most_loaded_range(lines: Seq<LineView>, d: Seq<nat>, n: nat)
    requires
        n >= 1,
    ensures
        most_loaded(lines, d, n) < n,
    decreases n,
{
    if n > 1 {
        lemma_most_loaded_range(lines, d, (n - 1) as nat);
    }
}

/// Subdivision conserves UAVs: after `k` surplus UAVs are handed out, the
/// lines hold the fewest they need plus `k`, and each at least its fewest.
pub proof fn law_distribution_conserves_uavs(lines: Seq<LineView>, k: nat)
    requires
        lines.len() > 0,
    ensures
        distribute_steps(lines, k).len() == lines.len(),
        seq_sum(distribute_steps(lines, k)) == seq_sum(least_distrib(lines)) + k,
        forall|i: int|
            0 <= i < lines.len() ==> #[trigger] distribute_steps(lines, k)[i] >= lines[i].least_uavs(),
    decreases k,
{
    if k > 0 {
        law_distribution_conserves_uavs(lines, (k - 1) as nat);
        let prev = distribute_steps(lines, (k - 1) as nat);
        lemma_most_loaded_range(lines, prev, lines.len());
        let j = most_loaded(lines, prev, lines.len()) as int;
        lemma_seq_sum_update(prev, j, prev[j] + 1);
    }
}

/// Distributes `subswm_size` UAVs over the lines of a task: each line gets
/// its fewest, then each surplus UAV goes to the most loaded line. `None`
/// when there are too few UAVs for the fewest.
pub fn distribute_uav_to_lines(lines: &Vec<Line>, subswm_size: u32) -> (r: Option<Vec<u32>>)
    requires
        lines@.len() > 0,
    ensures
        match r {
            None => subswm_size < seq_sum(least_distrib(lines@.map_values(|l: Line| l@))),
            Some(d) => subswm_size >= seq_sum(least_distrib(lines@.map_values(|l: Line| l@)))
                && nats(d@) == distribute_steps(
                lines@.map_values(|l: Line| l@),
                (subswm_size - seq_sum(least_distrib(lines@.map_values(|l: Line| l@)))) as nat,
            ),
        },
{
    let ghost lv = lines@.map_values(|l: Line| l@);
    let n = lines.len();
    let mut distrib: Vec<u32> = Vec::new();
    let mut lens: Vec<u64> = Vec::new();
    let mut eps: Vec<u32> = Vec::new();
    let mut least: u128 = 0;
    let mut i: usize = 0;
    while i < n
        invariant
            i <= n == lines@.len(),
            lv == lines@.map_values(|l: Line| l@),
            distrib@.len() == i && lens@.len() == i && eps@.len() == i,
            nats(distrib@) == least_distrib(lv).take(i as int),
            forall|k: int| 0 <= k < i ==> #[trigger] lens@[k] == capped_length(lv[k].points),
            forall|k: int| 0 <= k < i ==> #[trigger] eps@[k] == lv[k].end_points(),
            least == seq_sum(least_distrib(lv).take(i as int)),
            least <= 2 * i,
        decreases n - i,
    {
        let l = &lines[i];
        let m = l.num_least_uavs();
        let len = l.calc_length();
        lens.push(if len > u64::MAX as u128 { u64::MAX } else { len as u64 });
        eps.push(l.num_end_points());
        distrib.push(m);
        proof {
            assert(least_distrib(lv).take(i + 1) =~= least_distrib(lv).take(i as int).push(m as nat));
            lemma_seq_sum_push(least_distrib(lv).take(i as int), m as nat);
            assert(nats(distrib@) =~= least_distrib(lv).take(i + 1));
        }
        least = least + m as u128;
        i += 1;
    }
    assert(least_distrib(lv).take(n as int) =~= least_distrib(lv));
    if (subswm_size as u128) < least {
        return None;
    }
    let surplus: u32 = (subswm_size as u128 - least) as u32;
    let mut k: u32 = 0;
    proof {
        law_distribution_conserves_uavs(lv, 0);
    }
    while k < surplus
        invariant
            n == lines@.len() == distrib@.len() == lens@.len() == eps@.len(),
            n > 0,
            lv == lines@.map_values(|l: Line| l@),
            k <= surplus,
            least + surplus == subswm_size,
            forall|q: int| 0 <= q < n ==> #[trigger] lens@[q] == capped_length(lv[q].points),
            forall|q: int| 0 <= q < n ==> #[trigger] eps@[q] == lv[q].end_points(),
            nats(distrib@) == distribute_steps(lv, k as nat),
            seq_sum(least_distrib(lv)) == least,
        decreases surplus - k,
    {
        proof {
            law_distribution_conserves_uavs(lv, k as nat);
        }
        let ghost d = nats(distrib@);
        let mut best: usize = 0;
        let mut q: usize = 1;
        while q < n
            invariant
                1 <= q <= n == lines@.len() == distrib@.len() == lens@.len() == eps@.len(),
                d == nats(distrib@),
                d.len() == n,
                lv.len() == n,
                best == most_loaded(lv, d, q as nat),
                best < q,
                forall|p: int| 0 <= p < n ==> #[trigger] lens@[p] == capped_length(lv[p].points),
                forall|p: int| 0 <= p < n ==> #[trigger] eps@[p] == lv[p].end_points(),
                forall|p: int| 0 <= p < n ==> #[trigger] d[p] >= lv[p].least_uavs(),
            decreases n - q,
        {
            proof {
                assert(d[q as int] == distrib@[q as int]);
                assert(d[best as int] == distrib@[best as int]);
                assert(d[q as int] >= lv[q as int].least_uavs());
                assert(d[best as int] >= lv[best as int].least_uavs());
            }
            let eq: u64 = 2 * distrib[q] as u64 - eps[q] as u64;
            let eb: u64 = 2 * distrib[best] as u64 - eps[best] as u64;
            proof {
                assert(lens@[q as int] as int * eb <= 0xFFFF_FFFF_FFFF_FFFF * 0x2_0000_0000)
                    by (nonlinear_arith)
                    requires
                        lens@[q as int] <= 0xFFFF_FFFF_FFFF_FFFF,
                        eb <= 0x2_0000_0000,
                ;
                assert(lens@[best as int] as int * eq <= 0xFFFF_FFFF_FFFF_FFFF * 0x2_0000_0000)
                    by (nonlinear_arith)
                    requires
                        lens@[best as int] <= 0xFFFF_FFFF_FFFF_FFFF,
                        eq <= 0x2_0000_0000,
                ;
            }
            if lens[q] as u128 * eb as u128 >= lens[best] as u128 * eq as u128 {
                best = q;
            }
            q += 1;
        }
        proof {
            lemma_seq_sum_elem(d, best as int);
            assert(d[best as int] == distrib@[best as int]);
        }
        let cur = distrib[best];
        distrib.set(best, cur + 1);
        proof {
            assert(nats(distrib@) =~= d.update(best as int, d[best as int] + 1));
        }
        k += 1;
    }
    Some(distrib)
}

proof fn lemma_seq_sum_take(s: Seq<nat>, i: int)
    requires
        0 <= i < s.len(),
    ensures
        seq_sum(s.take(i + 1)) == seq_sum(s.take(i)) + s[i],
        seq_sum(s.take(i)) + s[i] <= seq_sum(s),
    decreases s.len() - i,
{
    assert(s.take(i + 1).drop_last() =~= s.take(i));
    if i + 1 < s.len() {
        lemma_seq_sum_take(s, i + 1);
    } else {
        assert(s.take(i + 1) =~= s);
    }
}

/// Arc length at which a group of `uavs` UAVs stops on a line still
/// holding `distrib` (more than `uavs`): each part's length is proportional
/// to its UAV count, a required endpoint absorbing half a UAV.
pub open spec fn split_len1(line: LineView, distrib: nat, uavs: nat) -> nat {
    split_target(
        line.points,
        (2 * uavs - (if line.start { 1int } else { 0int })) as nat,
        (2 * uavs - (if line.start { 1int } else { 0int }) + 2 * (distrib - uavs) - (if line.end {
            1int
        } else {
            0int
        })) as nat,
    )
}

/// The point index at which a polyline reaches arc length `len1`.
pub open spec fn break_at(pts: Seq<PosVec>, len1: nat) -> int {
    choose|idx: int| is_break_index(pts, len1, idx)
}

/// `line` divided at arc length `len1`, as a value.
pub open spec fn divide_spec(line: LineView, len1: nat) -> (LineView, LineView) {
    let idx = break_at(line.points, len1);
    let bp = breakpoint(line.points, len1, idx);
    (
        LineView { points: line.points.take(idx).push(bp), start: line.start, end: false },
        LineView { points: seq![bp] + line.points.skip(idx), start: false, end: line.end },
    )
}

proof fn lemma_break_unique(pts: Seq<PosVec>, len1: nat, i1: int, i2: int)
    requires
        is_break_index(pts, len1, i1),
        is_break_index(pts, len1, i2),
    ensures
        i1 == i2,
{
    if i1 < i2 {
        assert(prefix_length(pts, i1 + 1) < len1);
    } else if i2 < i1 {
        assert(prefix_length(pts, i2 + 1) < len1);
    }
}

/// A division is unique: it is `divide_spec`.
pub proof fn lemma_division_unique(line: LineView, len1: nat, a: LineView, b: LineView)
    requires
        is_division(line, len1, a, b),
    ensures
        (a, b) == divide_spec(line, len1),
{
    let idx = choose|idx: int|
        {
            &&& #[trigger] is_break_index(line.points, len1, idx)
            &&& a.points == line.points.take(idx).push(breakpoint(line.points, len1, idx))
            &&& b.points == seq![breakpoint(line.points, len1, idx)] + line.points.skip(idx)
            &&& a.start == line.start && !a.end
            &&& !b.start && b.end == line.end
        };
    lemma_break_unique(line.points, len1, idx, break_at(line.points, len1));
}

/// The state of carving lines into groups: the groups made, the group
/// being filled, the current line (or what is left of it) and the UAVs it
/// still holds, and the UAVs the current group still takes.
pub struct Carving {
    pub groups: Seq<Seq<LineView>>,
    pub grp: Seq<LineView>,
    pub li: int,
    pub cur: LineView,
    pub distrib: int,
    pub gi: int,
    pub uavs: int,
}

/// A line of no point.
pub open spec fn empty_line() -> LineView {
    LineView { points: Seq::empty(), start: false, end: false }
}

/// One carving step: the current group takes the whole current line when
/// it fits, and otherwise the part of it that its UAVs cover; a used-up
/// line gives way to the next, a filled group to the next.
pub open spec fn carve_step(lines: Seq<LineView>, dv: Seq<nat>, gs: Seq<nat>, c: Carving) -> Carving {
    let whole = c.distrib <= c.uavs;
    let parts = divide_spec(c.cur, split_len1(c.cur, c.distrib as nat, c.uavs as nat));
    let piece = if whole { c.cur } else { parts.0 };
    let grp1 = c.grp.push(piece);
    let li1 = if whole { c.li + 1 } else { c.li };
    let cur1 = if whole {
        if li1 < lines.len() { lines[li1] } else { empty_line() }
    } else {
        parts.1
    };
    let distrib1 = if whole {
        if li1 < lines.len() { dv[li1] as int } else { 0 }
    } else {
        c.distrib - c.uavs
    };
    let uavs1 = if whole { c.uavs - c.distrib } else { 0 };
    if uavs1 == 0 {
        Carving {
            groups: c.groups.push(grp1),
            grp: Seq::empty(),
            li: li1,
            cur: cur1,
            distrib: distrib1,
            gi: c.gi + 1,
            uavs: if c.gi + 1 < gs.len() { gs[c.gi + 1] as int } else { 0 },
        }
    } else {
        Carving { groups: c.groups, grp: grp1, li: li1, cur: cur1, distrib: distrib1, gi: c.gi, uavs: uavs1 }
    }
}

/// Carving steps until the lines are used up, at most `fuel` of them.
pub open spec fn carve_run(lines: Seq<LineView>, dv: Seq<nat>, gs: Seq<nat>, c: Carving, fuel: nat) -> Carving
    decreases fuel,
{
    if fuel == 0 || c.li >= lines.len() {
        c
    } else {
        carve_run(lines, dv, gs, carve_step(lines, dv, gs, c), (fuel - 1) as nat)
    }
}

/// The groups that carving `lines` (line `i` holding `dv[i]` UAVs) into
/// groups of `gs[j]` UAVs gives, each a list of consecutive pieces.
pub open spec fn groups_spec(lines: Seq<LineView>, dv: Seq<nat>, gs: Seq<nat>) -> Seq<Seq<LineView>> {
    let init = Carving {
        groups: Seq::empty(),
        grp: Seq::empty(),
        li: 0,
        cur: lines[0],
        distrib: dv[0] as int,
        gi: 0,
        uavs: gs[0] as int,
    };
    carve_run(lines, dv, gs, init, seq_sum(dv)).groups
}

/// Mathematical value of a list of groups of lines.
pub open spec fn groups_view(g: Seq<Vec<Line>>) -> Seq<Seq<LineView>> {
    g.map_values(|v: Vec<Line>| v@.map_values(|l: Line| l@))
}

/// Result of carving `uavs` UAVs off a line that still holds `distrib`.
pub enum LineSplit {
    /// The whole line fits in the group; the group keeps this many UAVs.
    Whole(Line, u32),
    /// The group is filled by the first part; the rest of the line keeps
    /// this many UAVs.
    Part(Line, Line, u32),
}

/// Takes from a line holding `distrib` UAVs the part for a group of
/// `uavs`. When the line does not fit, it is divided so that each part's
/// length is proportional to its UAV count, a required endpoint absorbing
/// half a UAV. `None` when the line must be divided but has under two points.
pub fn split_line_for_uav_group(line: Line, distrib: u32, uavs: u32) -> (r: Option<LineSplit>)
    requires
        distrib >= 1,
        uavs >= 1,
    ensures
        distrib <= uavs ==> (r matches Some(LineSplit::Whole(l, left)) && l == line && left == uavs
            - distrib),
        distrib > uavs && line.points@.len() < 2 ==> r.is_none(),
        distrib > uavs && line.points@.len() >= 2 ==> (r matches Some(LineSplit::Part(a, b, left))
            && left == distrib - uavs && is_division(
            line@,
            split_len1(line@, distrib as nat, uavs as nat),
            a@,
            b@,
        ) && a.points@.len() >= 2 && b.points@.len() >= 2),
{
    if distrib <= uavs {
        Some(LineSplit::Whole(line, uavs - distrib))
    } else if line.points.len() < 2 {
        None
    } else {
        let left_distrib = distrib - uavs;
        let weight_split: u64 = 2 * uavs as u64 - (if line.start { 1u64 } else { 0u64 });
        let weight_left: u64 = 2 * left_distrib as u64 - (if line.end { 1u64 } else { 0u64 });
        let ghost l = line@;
        let (a, b) = divide_line(line, weight_split, weight_split + weight_left);
        proof {
            let len1 = split_target(l.points, weight_split as nat, (weight_split + weight_left) as nat);
            let idx = choose|idx: int|
                {
                    &&& #[trigger] is_break_index(l.points, len1, idx)
                    &&& a@.points == l.points.take(idx).push(breakpoint(l.points, len1, idx))
                    &&& b@.points == seq![breakpoint(l.points, len1, idx)] + l.points.skip(idx)
                    &&& a@.start == l.start && !a@.end
                    &&& !b@.start && b@.end == l.end
                };
            assert(b@.points.len() == 1 + l.points.len() - idx);
            assert(a@.points.len() == idx + 1);
        }
        Some(LineSplit::Part(a, b, left_distrib))
    }
}

/// Group weights of a subdivision: one UAV for this agent, then each
/// child's subtree, in the children's order.
pub open spec fn group_weights(children: Seq<ChildInfo>) -> Seq<nat> {
    seq![1nat] + child_weights(children)
}

/// The groups of lines a subdivision gives: this agent's first, then one
/// per child in the children's order.
pub open spec fn division_groups(lines: Seq<Line>, children: Seq<ChildInfo>) -> Seq<Seq<LineView>> {
    groups_spec(
        lines.map_values(|l: Line| l@),
        distribute_steps(
            lines.map_values(|l: Line| l@),
            (subswarm_total(children) - seq_sum(least_distrib(lines.map_values(|l: Line| l@)))) as nat,
        ),
        group_weights(children),
    )
}

/// UAVs the first line gets when the lines are shared over this UAV and
/// the children's subtrees.
pub open spec fn first_line_share(lines: Seq<Line>, children: Seq<ChildInfo>) -> nat {
    distribute_steps(
        lines.map_values(|l: Line| l@),
        (subswarm_total(children) - seq_sum(least_distrib(lines.map_values(|l: Line| l@)))) as nat,
    )[0]
}

/// Arc length at which a group of one UAV stops on a line holding `d0`.
pub open spec fn first_share_target(line: LineView, d0: nat) -> nat {
    let s: int = if line.start { 1 } else { 0 };
    let e: int = if line.end { 1 } else { 0 };
    split_target(line.points, (2 - s) as nat, (2 - s + 2 * (d0 - 1) - e) as nat)
}

/// The first piece a group of one UAV takes of a line holding `d0` UAVs:
/// the whole line when it holds one, otherwise its part up to where one
/// UAV's share (an end to occupy counting half) gives way to the rest.
pub open spec fn first_piece_ok(line: LineView, d0: nat, piece: LineView) -> bool {
    if d0 <= 1 {
        piece == line
    } else {
        exists|b: LineView|
            #[trigger] is_division(line, first_share_target(line, d0), piece, b)
    }
}

/// Where a UAV alone on `piece` goes: its first point if that must be
/// occupied, else its last point if that must be, else its midpoint.
pub open spec fn own_target_ok(piece: LineView, p: PosVec) -> bool {
    if piece.start {
        piece.points.len() > 0 && p == piece.points[0]
    } else if piece.end {
        piece.points.len() > 0 && p == piece.points.last()
    } else if piece.points.len() >= 2 {
        exists|a: LineView, b: LineView|
            #[trigger] is_division(piece, split_target(piece.points, 1, 2), a, b) && p == a.points.last()
    } else {
        piece.points.len() == 1 && p == piece.points[0]
    }
}

/// Carves the lines, in order, into consecutive groups of the given sizes
/// (in UAVs), line `i` holding `distrib_vec[i]` UAVs. `None` when a line
/// that must be divided has under two points.
pub fn divide_line_groups(lines: &Vec<Line>, distrib_vec: &Vec<u32>, grp_sizes: &Vec<u32>) -> (r:
    Option<Vec<Vec<Line>>>)
    requires
        lines@.len() == distrib_vec@.len() > 0,
        grp_sizes@.len() > 0,
        forall|i: int| 0 <= i < distrib_vec@.len() ==> #[trigger] distrib_vec@[i] >= 1,
        forall|j: int| 0 <= j < grp_sizes@.len() ==> #[trigger] grp_sizes@[j] >= 1,
        seq_sum(nats(distrib_vec@)) == seq_sum(nats(grp_sizes@)),
    ensures
        r is None ==> exists|i: int|
            0 <= i < lines@.len() && #[trigger] lines@[i].points@.len() < 2,
        r matches Some(g) ==> g@.len() == grp_sizes@.len(),
        r matches Some(g) ==> forall|j: int| 0 <= j < g@.len() ==> #[trigger] g@[j]@.len() >= 1,
        r matches Some(g) ==> (grp_sizes@[0] == 1 ==> g@[0]@.len() == 1),
        r matches Some(g) ==> (grp_sizes@[0] == 1 ==> first_piece_ok(lines@[0]@, distrib_vec@[0] as nat, g@[0]@[0]@)),
        (forall|i: int| 0 <= i < lines@.len() ==> (#[trigger] lines@[i]).points@.len() >= 2) ==> (r matches Some(
            g,
        ) && forall|j: int, k: int|
            0 <= j < g@.len() && 0 <= k < g@[j]@.len() ==> (#[trigger] g@[j]@[k]).points@.len() >= 2),
        r matches Some(g) ==> groups_view(g@) == groups_spec(
            lines@.map_values(|l: Line| l@),
            nats(distrib_vec@),
            nats(grp_sizes@),
        ),
{
    let n = lines.len();
    let m = grp_sizes.len();
    let ghost dd = nats(distrib_vec@);
    let ghost gg = nats(grp_sizes@);
    let mut groups: Vec<Vec<Line>> = Vec::new();
    let mut grp: Vec<Line> = Vec::new();
    let mut li: usize = 0;
    let mut gi: usize = 0;
    let mut cur: Line = lines[0].copy();
    let mut distrib: u32 = distrib_vec[0];
    let mut uavs: u32 = grp_sizes[0];
    let ghost mut cd: int = 0;
    let ghost all2 = forall|i: int| 0 <= i < lines@.len() ==> (#[trigger] lines@[i]).points@.len() >= 2;
    let ghost lv = lines@.map_values(|l: Line| l@);
    let ghost mut st = Carving {
        groups: Seq::empty(),
        grp: Seq::empty(),
        li: 0,
        cur: lv[0],
        distrib: dd[0] as int,
        gi: 0,
        uavs: gg[0] as int,
    };
    let ghost mut steps: int = 0;
    proof {
        assert(groups_view(groups@) =~= st.groups);
        assert(grp@.map_values(|l: Line| l@) =~= st.grp);
        assert(dd.take(0) =~= Seq::<nat>::empty());
        assert(gg.take(0) =~= Seq::<nat>::empty());
        assert(dd[0] == distrib_vec@[0]);
        assert(gg[0] == grp_sizes@[0]);
    }
    while li < n
        invariant
            n == lines@.len() == distrib_vec@.len() == dd.len(),
            m == grp_sizes@.len() == gg.len(),
            dd == nats(distrib_vec@),
            gg == nats(grp_sizes@),
            n > 0 && m > 0,
            forall|i: int| 0 <= i < distrib_vec@.len() ==> #[trigger] distrib_vec@[i] >= 1,
            forall|j: int| 0 <= j < grp_sizes@.len() ==> #[trigger] grp_sizes@[j] >= 1,
            seq_sum(dd) == seq_sum(gg),
            li <= n,
            gi <= m,
            li < n ==> 1 <= distrib <= dd[li as int] && cd == seq_sum(dd.take(li as int)) + dd[li as int]
                - distrib,
            li == n ==> cd == seq_sum(dd),
            gi < m ==> 1 <= uavs <= gg[gi as int] && cd == seq_sum(gg.take(gi as int)) + gg[gi as int]
                - uavs,
            gi == m ==> cd == seq_sum(gg),
            li < n ==> (cur.points@.len() < 2 ==> cur.points@ == lines@[li as int].points@),
            groups@.len() == gi,
            forall|j: int| 0 <= j < gi ==> #[trigger] groups@[j]@.len() >= 1,
            gi > 0 && gg[0] == 1 ==> groups@[0]@.len() == 1,
            gi == 0 && gg[0] == 1 ==> grp@.len() == 0 && uavs == 1 && li == 0 && cur@ == lines@[0]@ && distrib
                == distrib_vec@[0],
            gi > 0 && gg[0] == 1 ==> first_piece_ok(lines@[0]@, distrib_vec@[0] as nat, groups@[0]@[0]@),
            li == n ==> grp@.len() == 0,
            all2 == forall|i: int| 0 <= i < lines@.len() ==> (#[trigger] lines@[i]).points@.len() >= 2,
            all2 && li < n ==> cur.points@.len() >= 2,
            all2 ==> forall|k: int| 0 <= k < grp@.len() ==> (#[trigger] grp@[k]).points@.len() >= 2,
            all2 ==> forall|j: int, k: int|
                0 <= j < groups@.len() && 0 <= k < groups@[j]@.len() ==> (#[trigger] groups@[j]@[k]).points@.len() >= 2,
            lv == lines@.map_values(|l: Line| l@),
            groups_view(groups@) == st.groups,
            grp@.map_values(|l: Line| l@) == st.grp,
            li == st.li && gi == st.gi && uavs == st.uavs && distrib == st.distrib && cur@ == st.cur,
            0 <= steps <= cd,
            groups_spec(lv, dd, gg) == carve_run(lv, dd, gg, st, (seq_sum(dd) - steps) as nat).groups,
        decreases seq_sum(dd) - cd,
    {
        let ghost nst = carve_step(lv, dd, gg, st);
        let ghost cur_v = cur@;
        proof {
            lemma_seq_sum_take(dd, li as int);
            assert(seq_sum(dd) - steps >= 1);
            assert(carve_run(lv, dd, gg, st, (seq_sum(dd) - steps) as nat) == carve_run(
                lv,
                dd,
                gg,
                nst,
                (seq_sum(dd) - steps - 1) as nat,
            ));
        }
        proof {
            lemma_seq_sum_take(dd, li as int);
            if gi == m {
                assert(false);
            }
            lemma_seq_sum_take(gg, gi as int);
        }
        let split = split_line_for_uav_group(cur, distrib, uavs);
        let ghost grp0 = grp@;
        let ghost groups0 = groups@;
        let ghost mut piece_v: LineView = empty_line();
        match split {
            None => {
                return None;
            },
            Some(LineSplit::Whole(l, left)) => {
                proof {
                    assert(l@ == cur_v);
                    piece_v = l@;
                    if gi == 0 && gg[0] == 1 {
                        assert(first_piece_ok(lines@[0]@, distrib_vec@[0] as nat, l@));
                    }
                }
                grp.push(l);
                proof {
                    cd = cd + distrib;
                }
                uavs = left;
                li += 1;
                if li < n {
                    cur = lines[li].copy();
                    distrib = distrib_vec[li];
                    proof {
                        assert(dd[li as int] == distrib_vec@[li as int]);
                        assert(lv[li as int] == lines@[li as int]@);
                    }
                } else {
                    cur = Line { points: Vec::new(), start: false, end: false };
                    proof {
                        assert(cur@ == empty_line());
                    }
                    distrib = 0;
                    proof {
                        assert(dd.take(n as int) =~= dd);
                    }
                }
            },
            Some(LineSplit::Part(a, b, left)) => {
                proof {
                    lemma_division_unique(cur_v, split_len1(cur_v, distrib as nat, uavs as nat), a@, b@);
                    piece_v = a@;
                    if gi == 0 && gg[0] == 1 {
                        assert(is_division(lines@[0]@, first_share_target(lines@[0]@, distrib_vec@[0] as nat), a@, b@));
                        assert(first_piece_ok(lines@[0]@, distrib_vec@[0] as nat, a@));
                    }
                }
                grp.push(a);
                proof {
                    cd = cd + uavs;
                }
                cur = b;
                distrib = left;
                uavs = 0;
            },
        }
        proof {
            if all2 {
                assert forall|k: int| 0 <= k < grp@.len() implies (#[trigger] grp@[k]).points@.len() >= 2 by {
                    if k < grp0.len() {
                        assert(grp@[k] == grp0[k]);
                    }
                }
            }
        }
        let ghost gpush = grp@;
        proof {
            assert(gpush.map_values(|l: Line| l@) =~= st.grp.push(piece_v));
        }
        if uavs == 0 {
            let ghost g1 = grp@;
            groups.push(grp);
            proof {
                assert(groups_view(groups@) =~= st.groups.push(st.grp.push(piece_v)));
            }
            proof {
                if gi == 0 && gg[0] == 1 {
                    assert(groups@[0]@ == g1);
                    assert(g1[0] == grp0.push(g1[0])[0]);
                }
                if gi > 0 {
                    assert(groups@[0] == groups0[0]);
                }
                if all2 {
                    assert forall|j: int, k: int|
                        0 <= j < groups@.len() && 0 <= k < groups@[j]@.len() implies (#[trigger] groups@[j]@[k]).points@.len()
                        >= 2 by {
                        if j < groups0.len() {
                            assert(groups@[j] == groups0[j]);
                        } else {
                            assert(groups@[j]@ == g1);
                        }
                    }
                }
            }
            grp = Vec::new();
            gi += 1;
            if gi < m {
                uavs = grp_sizes[gi];
                proof {
                    assert(gg[gi as int] == grp_sizes@[gi as int]);
                    lemma_seq_sum_take(gg, gi as int);
                }
            } else {
                proof {
                    assert(gg.take(m as int) =~= gg);
                }
            }
        }
        proof {
            if li == n && gi < m {
                lemma_seq_sum_take(gg, gi as int);
                assert(false);
            }
            if gi == m && li < n {
                lemma_seq_sum_take(dd, li as int);
                assert(false);
            }
            assert(groups_view(groups@) =~= nst.groups);
            assert(grp@.map_values(|l: Line| l@) =~= nst.grp);
            assert(li == nst.li && gi == nst.gi && uavs == nst.uavs && distrib == nst.distrib && cur@ == nst.cur);
            st = nst;
            steps = steps + 1;
        }
    }
    proof {
        if gi < m {
            lemma_seq_sum_take(gg, gi as int);
        }
        assert(carve_run(lv, dd, gg, st, (seq_sum(dd) - steps) as nat) == st);
    }
    Some(groups)
}

/// Total UAVs of the subtree: this UAV and each child's subtree.
pub open spec fn subswarm_total(children: Seq<ChildInfo>) -> nat
    decreases children.len(),
{
    if children.len() == 0 {
        1
    } else {
        subswarm_total(children.drop_last()) + children.last().subswm_size as nat
    }
}

/// Subtree sizes the children report.
pub open spec fn child_weights(children: Seq<ChildInfo>) -> Seq<nat> {
    children.map_values(|c: ChildInfo| c.subswm_size as nat)
}

proof fn lemma_subswarm_total(children: Seq<ChildInfo>)
    ensures
        subswarm_total(children) == 1 + seq_sum(child_weights(children)),
    decreases children.len(),
{
    if children.len() > 0 {
        lemma_subswarm_total(children.drop_last());
        assert(child_weights(children).drop_last() =~= child_weights(children.drop_last()));
    }
}

proof fn lemma_subswarm_total_take(children: Seq<ChildInfo>, k: int)
    requires
        0 <= k <= children.len(),
    ensures
        subswarm_total(children.take(k)) <= subswarm_total(children),
    decreases children.len() - k,
{
    if k < children.len() {
        lemma_subswarm_total_take(children, k + 1);
        assert(children.take(k + 1).drop_last() =~= children.take(k));
    } else {
        assert(children.take(k) =~= children);
    }
}

/// The conditions under which a task can always be divided over a
/// subtree: it has lines, each of at least two points; each child reports
/// a non-empty subtree; the subtree size fits a `u32` and covers the fewest
/// UAVs the lines need.
pub open spec fn divisible(lines: Seq<Line>, children: Seq<ChildInfo>) -> bool {
    &&& lines.len() > 0
    &&& forall|i: int| 0 <= i < lines.len() ==> (#[trigger] lines[i]).points@.len() >= 2
    &&& forall|i: int| 0 <= i < children.len() ==> (#[trigger] children[i]).subswm_size >= 1
    &&& subswarm_total(children) <= u32::MAX
    &&& subswarm_total(children) >= seq_sum(least_distrib(lines.map_values(|l: Line| l@)))
}

/// Subdivision conserves the subtree: the UAVs handed out over the lines
/// number exactly the children's weights plus one for this UAV, and every
/// line gets at least the UAVs it needs.
pub proof fn law_subdivision_conservation(lines: Seq<LineView>, children: Seq<ChildInfo>)
    requires
        lines.len() > 0,
        subswarm_total(children) >= seq_sum(least_distrib(lines)),
    ensures
        seq_sum(distribute_steps(lines, (subswarm_total(children) - seq_sum(least_distrib(lines))) as nat))
            == seq_sum(child_weights(children)) + 1,
        forall|i: int|
            0 <= i < lines.len() ==> #[trigger] distribute_steps(
                lines,
                (subswarm_total(children) - seq_sum(least_distrib(lines))) as nat,
            )[i] >= lines[i].least_uavs(),
{
    lemma_subswarm_total(children);
    law_distribution_conserves_uavs(lines, (subswarm_total(children) - seq_sum(least_distrib(lines))) as nat);
}

impl TaskDivider {
    /// Splits the task into this UAV's target and one group of lines per
    /// child, in the children's order. `None` when the task cannot be
    /// divided over this subtree: it has no line, a child reports an empty
    /// subtree, there are too few UAVs, or a line to divide has under two
    /// points.
    pub fn divide_pos_own_and_line_groups(&self, children_info: &Vec<ChildInfo>) -> (r: Option<
        (PosVec, Vec<Vec<Line>>),
    >)
        ensures
            r matches Some((_, g)) ==> g@.len() == children_info@.len(),
            r matches Some((_, g)) ==> self.task.lines@.len() > 0 && subswarm_total(children_info@)
                >= seq_sum(least_distrib(self.task.lines@.map_values(|l: Line| l@))),
            self.task.lines@.len() == 0 ==> r.is_none(),
            subswarm_total(children_info@) < seq_sum(
                least_distrib(self.task.lines@.map_values(|l: Line| l@)),
            ) ==> r.is_none(),
            divisible(self.task.lines@, children_info@) ==> r.is_some(),
            r matches Some((p, _)) ==> exists|piece: LineView|
                #[trigger] first_piece_ok(self.task.lines@[0]@, first_line_share(self.task.lines@, children_info@), piece)
                    && own_target_ok(piece, p),
            r matches Some((_, g)) ==> groups_view(g@) == division_groups(self.task.lines@, children_info@).drop_first(),
            r is Some ==> division_groups(self.task.lines@, children_info@).len() == children_info@.len() + 1,
    {
        let lines = &self.task.lines;
        if lines.len() == 0 {
            return None;
        }
        let mut total: u64 = 1;
        let mut grp_sizes: Vec<u32> = Vec::new();
        grp_sizes.push(1);
        let mut i: usize = 0;
        proof {
            assert(nats(grp_sizes@) =~= seq![1nat]);
            assert(seq![1nat].drop_last() =~= Seq::<nat>::empty());
            assert(seq_sum(Seq::<nat>::empty()) == 0);
            assert(seq_sum(seq![1nat]) == 1);
            assert(children_info@.take(0) =~= Seq::<ChildInfo>::empty());
            assert(group_weights(children_info@.take(0)) =~= seq![1nat]);
        }
        while i < children_info.len()
            invariant
                i <= children_info@.len(),
                total == subswarm_total(children_info@.take(i as int)),
                total <= u32::MAX,
                grp_sizes@.len() == i + 1,
                grp_sizes@[0] == 1,
                seq_sum(nats(grp_sizes@)) == total,
                forall|j: int| 0 <= j < grp_sizes@.len() ==> #[trigger] grp_sizes@[j] >= 1,
                nats(grp_sizes@) == group_weights(children_info@.take(i as int)),
            decreases children_info.len() - i,
        {
            let c = children_info[i];
            proof {
                assert(children_info@.take(i + 1).drop_last() =~= children_info@.take(i as int));
                lemma_subswarm_total_take(children_info@, i + 1);
            }
            if c.subswm_size == 0 {
                return None;
            }
            if total + c.subswm_size as u64 > u32::MAX as u64 {
                // the subtree cannot hold more UAVs than a size field counts
                return None;
            }
            let ghost before = grp_sizes@;
            grp_sizes.push(c.subswm_size);
            proof {
                assert(nats(grp_sizes@) =~= nats(before).push(c.subswm_size as nat));
                lemma_seq_sum_push(nats(before), c.subswm_size as nat);
                assert(group_weights(children_info@.take(i + 1)) =~= group_weights(children_info@.take(i as int)).push(
                    c.subswm_size as nat,
                ));
            }
            total = total + c.subswm_size as u64;
            i += 1;
        }
        proof {
            assert(children_info@.take(children_info@.len() as int) =~= children_info@);
        }
        let distrib_vec = match distribute_uav_to_lines(lines, total as u32) {
            Some(d) => d,
            None => {
                return None;
            },
        };
        let ghost lv = lines@.map_values(|l: Line| l@);
        proof {
            law_distribution_conserves_uavs(lv, (total - seq_sum(least_distrib(lv))) as nat);
            assert forall|q: int| 0 <= q < distrib_vec@.len() implies #[trigger] distrib_vec@[q] >= 1 by {
                assert(nats(distrib_vec@)[q] == distrib_vec@[q]);
            }
        }
        let mut groups = match divide_line_groups(lines, &distrib_vec, &grp_sizes) {
            Some(g) => g,
            None => {
                return None;
            },
        };
        let ghost g0 = groups@;
        proof {
            assert(nats(grp_sizes@) == group_weights(children_info@));
            assert(groups_view(groups@) == division_groups(self.task.lines@, children_info@));
            assert(groups@.len() == children_info@.len() + 1);
        }
        let mut own_grp = groups.remove(0);
        let own_line = own_grp.remove(0);
        let ghost piece = own_line@;
        proof {
            assert(own_line == g0[0]@[0]);
            assert(nats(distrib_vec@)[0] == distrib_vec@[0]);
            assert(lines@.map_values(|l: Line| l@)[0] == lines@[0]@);
            assert(first_piece_ok(lines@[0]@, distrib_vec@[0] as nat, piece));
            assert(first_line_share(self.task.lines@, children_info@) == distrib_vec@[0]);
        }
        let pos_own: PosVec = if own_line.start {
            if own_line.points.len() == 0 {
                return None;
            }
            own_line.points[0]
        } else if own_line.end {
            if own_line.points.len() == 0 {
                return None;
            }
            own_line.points[own_line.points.len() - 1]
        } else if own_line.points.len() >= 2 {
            let (a, b) = divide_line(own_line, 1, 2);
            proof {
                let l = own_line@;
                let len1 = split_target(l.points, 1, 2);
                let idx = choose|idx: int|
                    {
                        &&& #[trigger] is_break_index(l.points, len1, idx)
                        &&& a@.points == l.points.take(idx).push(breakpoint(l.points, len1, idx))
                        &&& b@.points == seq![breakpoint(l.points, len1, idx)] + l.points.skip(idx)
                        &&& a@.start == l.start && !a@.end
                        &&& !b@.start && b@.end == l.end
                    };
                assert(a@.points.len() == idx + 1);
            }
            proof {
                assert(is_division(piece, split_target(piece.points, 1, 2), a@, b@));
            }
            a.points[a.points.len() - 1]
        } else if own_line.points.len() == 1 {
            own_line.points[0]
        } else {
            return None;
        };
        proof {
            assert(own_target_ok(piece, pos_own));
            assert(groups@ == g0.drop_first());
            assert(groups_view(groups@) =~= groups_view(g0).drop_first());
        }
        Some((pos_own, groups))
    }

    /// Divides the task over this UAV and its children. Fails, changing
    /// nothing, when the task cannot be divided or when this UAV's target
    /// would lie `comm_range` or farther from the point its parent holds.
    #[verifier::rlimit(100)]
    #[verifier::spinoff_prover]
    pub fn divide_task(&mut self, children_info: &Vec<ChildInfo>, comm_range: u64) -> (r: bool)
        ensures
            final(self).task == old(self).task,
            !r ==> final(self).own_subtask == old(self).own_subtask && final(self).child_subtask@
                == old(self).child_subtask@,
            r ==> (final(self).own_subtask matches Some(te) && te.on_pos_t.is_none() && te.succ_duration
                == old(self).task.duration_ms && (old(self).task.comm_point matches Some(cp)
                ==> dist_sq_spec(te.pos_target, cp) < comm_range * comm_range) && forall|i: int|
                0 <= i < children_info@.len() ==> {
                    &&& #[trigger] final(self).child_subtask@.contains_key(children_info@[i].id)
                    &&& final(self).child_subtask@[children_info@[i].id].id == old(self).task.id
                    &&& final(self).child_subtask@[children_info@[i].id].duration_ms == old(
                        self,
                    ).task.duration_ms
                    &&& final(self).child_subtask@[children_info@[i].id].comm_point == Some(
                        te.pos_target,
                    )
                }),
            r ==> (forall|c: u32| #[trigger] final(self).child_subtask@.contains_key(c) ==> (
            old(self).child_subtask@.contains_key(c) || exists|i: int|
                0 <= i < children_info@.len() && children_info@[i].id == c)),
            old(self).task.lines@.len() == 0 ==> !r,
            subswarm_total(children_info@) < seq_sum(
                least_distrib(old(self).task.lines@.map_values(|l: Line| l@)),
            ) ==> !r,
            divisible(old(self).task.lines@, children_info@) && old(self).task.comm_point is None ==> r,
            r ==> exists|piece: LineView|
                #[trigger] first_piece_ok(old(self).task.lines@[0]@, first_line_share(old(self).task.lines@, children_info@), piece)
                    && own_target_ok(piece, final(self).own_subtask->Some_0.pos_target),
            divisible(old(self).task.lines@, children_info@) && !r ==> (old(self).task.comm_point matches Some(cp)
                && exists|piece: LineView, p: PosVec|
                first_piece_ok(old(self).task.lines@[0]@, first_line_share(old(self).task.lines@, children_info@), piece)
                    && #[trigger] own_target_ok(piece, p) && dist_sq_spec(p, cp) >= comm_range * comm_range),
            r ==> forall|i: int|
                0 <= i < children_info@.len() && (forall|j: int|
                    0 <= j < children_info@.len() && j != i ==> children_info@[j].id != children_info@[i].id)
                    ==> (#[trigger] final(self).child_subtask@[children_info@[i].id])@.lines == division_groups(
                    old(self).task.lines@,
                    children_info@,
                )[i + 1],
    {
        let (pos_own, mut groups) = match self.divide_pos_own_and_line_groups(children_info) {
            Some(x) => x,
            None => {
                return false;
            },
        };
        proof {
            assert(comm_range * comm_range <= 0xFFFF_FFFF_FFFF_FFFF * 0xFFFF_FFFF_FFFF_FFFF)
                by (nonlinear_arith)
                requires
                    comm_range <= 0xFFFF_FFFF_FFFF_FFFF,
            ;
        }
        if let Some(cp) = &self.task.comm_point {
            if dist_sq(&pos_own, cp) >= (comm_range as u128) * (comm_range as u128) {
                return false;
            }
        }
        self.own_subtask = Some(TaskExecutor::new(&pos_own, self.task.duration_ms));
        let n = children_info.len();
        let mut i: usize = 0;
        let ghost start_map = self.child_subtask@;
        let ghost gv = groups_view(groups@);
        proof {
            assert(gv.skip(0) =~= gv);
        }
        while i < n
            invariant
                n == children_info@.len(),
                i <= n,
                groups@.len() == n - i,
                self.task == old(self).task,
                self.own_subtask == Some(TaskExecutor::new_spec(pos_own, old(self).task.duration_ms)),
                forall|k: int|
                    0 <= k < i ==> {
                        &&& #[trigger] self.child_subtask@.contains_key(children_info@[k].id)
                        &&& self.child_subtask@[children_info@[k].id].id == old(self).task.id
                        &&& self.child_subtask@[children_info@[k].id].duration_ms == old(
                            self,
                        ).task.duration_ms
                        &&& self.child_subtask@[children_info@[k].id].comm_point == Some(pos_own)
                    },
                forall|c: u32| #[trigger] self.child_subtask@.contains_key(c) ==> (
                start_map.contains_key(c) || exists|k: int|
                    0 <= k < i && children_info@[k].id == c),
                gv.len() == n,
                groups_view(groups@) == gv.skip(i as int),
                forall|k: int|
                    0 <= k < i && (forall|j: int|
                        0 <= j < children_info@.len() && j != k ==> children_info@[j].id != children_info@[k].id)
                        ==> (#[trigger] self.child_subtask@[children_info@[k].id])@.lines == gv[k],
            decreases n - i,
        {
            let ghost gs0 = groups@;
            let grp = groups.remove(0);
            proof {
                assert(groups_view(gs0)[0] == gv[i as int]);
                assert(grp@.map_values(|l: Line| l@) == gv[i as int]);
                assert(groups@ =~= gs0.subrange(1, gs0.len() as int));
                assert(groups_view(groups@) =~= groups_view(gs0).subrange(1, gs0.len() as int));
                assert(groups_view(groups@) =~= gv.skip(i + 1));
            }
            let cid = children_info[i].id;
            let ghost before = self.child_subtask@;
            let t = Task { id: self.task.id, lines: grp, duration_ms: self.task.duration_ms, comm_point: Some(pos_own) };
            let ghost tv = t;
            self.child_subtask.insert(cid, t);
            proof {
                assert(self.child_subtask@ == before.insert(cid, tv));
                assert forall|k: int| 0 <= k < i + 1 implies {
                    &&& #[trigger] self.child_subtask@.contains_key(children_info@[k].id)
                    &&& self.child_subtask@[children_info@[k].id].id == old(self).task.id
                    &&& self.child_subtask@[children_info@[k].id].duration_ms == old(
                        self,
                    ).task.duration_ms
                    &&& self.child_subtask@[children_info@[k].id].comm_point == Some(pos_own)
                } by {
                    if children_info@[k].id != cid {
                        assert(before.contains_key(children_info@[k].id));
                        assert(self.child_subtask@[children_info@[k].id] == before[children_info@[k].id]);
                    } else {
                        assert(self.child_subtask@[cid].id == self.task.id);
                    }
                }
                assert forall|k: int|
                    0 <= k < i + 1 && (forall|j: int|
                        0 <= j < children_info@.len() && j != k ==> children_info@[j].id != children_info@[k].id)
                        implies (#[trigger] self.child_subtask@[children_info@[k].id])@.lines == gv[k] by {
                    if k < i {
                        assert(children_info@[i as int].id != children_info@[k].id);
                    }
                }
            }
            i += 1;
        }
        proof {
            let dg = division_groups(old(self).task.lines@, children_info@);
            assert(gv == dg.drop_first());
            assert forall|k: int| 0 <= k < gv.len() implies gv[k] == dg[k + 1] by {}
        }
        true
    }
}

} // verus!
