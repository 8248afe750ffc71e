//! The preemptive priority scheduler's decisions.
//!
//! Three priority classes and explicit time slices. The task table is shared by
//! all CPUs; a CPU claims a task by moving it from `Ready` to `Running`. A task
//! belongs to a CPU from then on until the CPU has switched away from it and
//! schedules again: only then is its stack known to be saved. Whatever state
//! the task is in meanwhile, no other CPU takes it.
use crate::smp::{PerCpu, Smp, IDLE_INDEX, MAX_CPUS};
use crate::text::{dec, push_dec};
use vstd::prelude::*;

verus! {

/// No task: the CPU's own idle context.
pub const MAIN_INDEX: usize = usize::MAX;
pub const PRIO_RT: u8 = 0;
pub const PRIO_NORMAL: u8 = 1;
pub const PRIO_IDLE: u8 = 2;
/// Exit status of a killed task.
pub const KILLED: u32 = 137;

#[derive(Clone, Copy, PartialEq, Eq, Debug, Structural)]
pub enum State {
    Running,
    Ready,
    Sleeping,
    Blocked,
    Dead,
}

/// What the scheduler knows of a task.
#[derive(Clone, Copy, PartialEq, Eq, Debug, Structural)]
pub struct Task {
    pub id: u64,
    /// Top of the kernel stack that interrupts from user mode land on.
    pub kstack_top: u64,
    pub state: State,
    /// The CPU that runs the task, or ran it last.
    pub owner_cpu: u8,
    pub priority: u8,
    /// Milliseconds left before a peer gets the CPU.
    pub slice_left: u32,
    /// Deadline of a sleeping task.
    pub sleep_until_ms: u64,
    pub blocked_on_input: bool,
    pub blocked_on_raw: bool,
    /// 0 for a task of the kernel.
    pub parent_id: u64,
    pub exit_code: u32,
    /// The parent has taken the exit status.
    pub reaped: bool,
    pub blocked_on_child: bool,
    pub linux_abi: bool,
}

/// Milliseconds granted when a task is picked.
pub open spec fn slice_of(prio: u8) -> u32 {
    if prio == PRIO_NORMAL {
        8
    } else {
        1
    }
}

fn fresh_slice(prio: u8) -> (r: u32)
    ensures
        r == slice_of(prio),
{
    if prio == PRIO_NORMAL {
        8
    } else {
        1
    }
}

/// Counters of the stall diagnostic.
#[derive(Clone, Copy, PartialEq, Eq, Debug, Structural)]
pub struct Stall {
    /// Ticks in a row that the current task was kept.
    pub kept: u32,
    /// Ticks in a row that a due task was not made ready.
    pub stuck: u32,
    pub kept_reported: bool,
    pub stuck_reported: bool,
}

/// The task table, the CPUs and the stall counters.
pub struct Sched {
    pub tasks: Vec<Task>,
    pub next_id: u64,
    pub smp: Smp,
    pub stall: Stall,
}

/// No two tasks share an id, and ids are above 0.
pub open spec fn ids_ok(ts: Seq<Task>) -> bool {
    &&& forall|i: int| 0 <= i < ts.len() ==> (#[trigger] ts[i]).id > 0
    &&& forall|i: int, j: int|
        0 <= i < ts.len() && 0 <= j < ts.len() && (#[trigger] ts[i]).id == (#[trigger] ts[j]).id
            ==> i == j
}

/// A CPU's task indices are in the table.
pub open spec fn cpu_ok(c: PerCpu, n: nat) -> bool {
    &&& c.current == IDLE_INDEX || c.current < n
    &&& c.pending_prev == IDLE_INDEX || c.pending_prev < n
}

/// No CPU runs a task that another one runs or has yet to release.
pub open spec fn apart(cpus: Seq<PerCpu>) -> bool {
    forall|a: int, b: int|
        0 <= a < 4 && 0 <= b < 4 && a != b && (#[trigger] cpus[a]).current != IDLE_INDEX
            ==> cpus[a].current != (#[trigger] cpus[b]).current && cpus[a].current
            != cpus[b].pending_prev
}

/// CPU `c` runs task `i` or has yet to release it.
pub open spec fn is_with(cpus: Seq<PerCpu>, c: u8, i: int) -> bool {
    c < 4 && (cpus[c as int].current == i || cpus[c as int].pending_prev == i)
}

/// A running task is with the CPU that owns it.
pub open spec fn manned(ts: Seq<Task>, cpus: Seq<PerCpu>) -> bool {
    forall|i: int|
        0 <= i < ts.len() && (#[trigger] ts[i]).state == State::Running ==> is_with(
            cpus,
            ts[i].owner_cpu,
            i,
        )
}

impl Sched {
    pub open spec fn wf(&self) -> bool {
        &&& ids_ok(self.tasks@)
        &&& apart(self.smp.cpus@)
        &&& manned(self.tasks@, self.smp.cpus@)
        &&& forall|i: int| 0 <= i < self.tasks@.len() ==> (#[trigger] self.tasks@[i]).id < self.next_id
        &&& forall|c: int| 0 <= c < 4 ==> cpu_ok(#[trigger] self.smp.cpus@[c], self.tasks@.len())
        &&& 0 < self.next_id
    }

    /// The task that runs on CPU `me`.
    pub open spec fn cur(&self, me: usize) -> usize {
        self.smp.cpus@[me as int].current
    }

    /// Only the tasks may differ.
    pub open spec fn same_but_tasks(&self, o: Sched) -> bool {
        &&& self.next_id == o.next_id
        &&& self.smp == o.smp
        &&& self.stall == o.stall
    }
}

/// An empty table.
pub fn new_sched() -> (s: Sched)
    ensures
        s.wf(),
        s.tasks@.len() == 0,
        s.next_id == 1,
        s.smp.low_page == 0,
        forall|c: int| 0 <= c < 4 ==> #[trigger] s.smp.cpus@[c] == PerCpu::fresh(c as u64),
        s.stall == (Stall { kept: 0, stuck: 0, kept_reported: false, stuck_reported: false }),
{
    let smp = crate::smp::new_smp();
    assert forall|c: int| 0 <= c < 4 implies cpu_ok(#[trigger] smp.cpus@[c], 0) by {
        assert(smp.cpus@[c] == PerCpu::fresh(c as u64));
    }
    Sched {
        tasks: Vec::new(),
        next_id: 1,
        smp,
        stall: Stall { kept: 0, stuck: 0, kept_reported: false, stuck_reported: false },
    }
}

/// A fresh task.
pub open spec fn fresh_task(id: u64, priority: u8, parent_id: u64, cpu: u8, kstack_top: u64) -> Task {
    Task {
        id,
        kstack_top,
        state: State::Ready,
        owner_cpu: cpu,
        priority,
        slice_left: slice_of(priority),
        sleep_until_ms: 0,
        blocked_on_input: false,
        blocked_on_raw: false,
        parent_id,
        exit_code: 0,
        reaped: false,
        blocked_on_child: false,
        linux_abi: false,
    }
}

/// `n` is `o` with one task added.
pub open spec fn spawned(o: Sched, n: Sched, t: Task) -> bool {
    &&& n.tasks@ == o.tasks@.push(t)
    &&& n.next_id == o.next_id + 1
    &&& n.smp == o.smp
    &&& n.stall == o.stall
}

/// Add a task owned by `cpu`; returns its id.
fn add_task(s: &mut Sched, priority: u8, parent_id: u64, cpu: u8, kstack_top: u64) -> (id: u64)
    requires
        old(s).wf(),
        old(s).next_id < u64::MAX,
        old(s).tasks@.len() < IDLE_INDEX,
    ensures
        final(s).wf(),
        dead_stay(old(s).tasks@, final(s).tasks@),
        id == old(s).next_id,
        spawned(*old(s), *final(s), fresh_task(id, priority, parent_id, cpu, kstack_top)),
{
    let id = s.next_id;
    s.next_id = id + 1;
    s.tasks.push(
        Task {
            id,
            kstack_top,
            state: State::Ready,
            owner_cpu: cpu,
            priority,
            slice_left: fresh_slice(priority),
            sleep_until_ms: 0,
            blocked_on_input: false,
            blocked_on_raw: false,
            parent_id,
            exit_code: 0,
            reaped: false,
            blocked_on_child: false,
            linux_abi: false,
        },
    );
    proof {
        let o = old(s).tasks@;
        assert forall|c: int| 0 <= c < 4 implies cpu_ok(
            #[trigger] s.smp.cpus@[c],
            s.tasks@.len(),
        ) by {
            assert(cpu_ok(old(s).smp.cpus@[c], o.len()));
        }
        assert forall|i: int|
            0 <= i < s.tasks@.len() && (#[trigger] s.tasks@[i]).state == State::Running implies is_with(
            s.smp.cpus@,
            s.tasks@[i].owner_cpu,
            i,
        ) by {
            assert(s.tasks@[i] == o[i]);
        }
    }
    id
}

/// Spawn a kernel task of normal priority.
pub fn spawn(s: &mut Sched, me: u8, kstack_top: u64) -> (id: u64)
    requires
        old(s).wf(),
        old(s).next_id < u64::MAX,
        old(s).tasks@.len() < IDLE_INDEX,
    ensures
        final(s).wf(),
        dead_stay(old(s).tasks@, final(s).tasks@),
        id == old(s).next_id,
        spawned(*old(s), *final(s), fresh_task(id, PRIO_NORMAL, 0, me, kstack_top)),
{
    add_task(s, PRIO_NORMAL, 0, me, kstack_top)
}

/// Spawn a kernel task with a given priority.
pub fn spawn_prio(s: &mut Sched, priority: u8, me: u8, kstack_top: u64) -> (id: u64)
    requires
        old(s).wf(),
        old(s).next_id < u64::MAX,
        old(s).tasks@.len() < IDLE_INDEX,
    ensures
        final(s).wf(),
        dead_stay(old(s).tasks@, final(s).tasks@),
        id == old(s).next_id,
        spawned(*old(s), *final(s), fresh_task(id, priority, 0, me, kstack_top)),
{
    add_task(s, priority, 0, me, kstack_top)
}

/// Spawn a kernel task as a child of `parent_id`.
pub fn spawn_with_parent(s: &mut Sched, priority: u8, parent_id: u64, me: u8, kstack_top: u64) -> (id:
    u64)
    requires
        old(s).wf(),
        old(s).next_id < u64::MAX,
        old(s).tasks@.len() < IDLE_INDEX,
    ensures
        final(s).wf(),
        dead_stay(old(s).tasks@, final(s).tasks@),
        id == old(s).next_id,
        spawned(*old(s), *final(s), fresh_task(id, priority, parent_id, me, kstack_top)),
{
    add_task(s, priority, parent_id, me, kstack_top)
}

/// Spawn a kernel task that CPU `cpu` owns at first.
pub fn spawn_on_cpu(s: &mut Sched, priority: u8, cpu: u8, kstack_top: u64) -> (id: u64)
    requires
        old(s).wf(),
        old(s).next_id < u64::MAX,
        old(s).tasks@.len() < IDLE_INDEX,
    ensures
        final(s).wf(),
        dead_stay(old(s).tasks@, final(s).tasks@),
        id == old(s).next_id,
        spawned(*old(s), *final(s), fresh_task(id, priority, 0, cpu, kstack_top)),
{
    add_task(s, priority, 0, cpu, kstack_top)
}

/// Spawn a user task as a child of `parent_id`.
pub fn spawn_user_with_parent(s: &mut Sched, parent_id: u64, me: u8, kstack_top: u64) -> (id: u64)
    requires
        old(s).wf(),
        old(s).next_id < u64::MAX,
        old(s).tasks@.len() < IDLE_INDEX,
    ensures
        final(s).wf(),
        dead_stay(old(s).tasks@, final(s).tasks@),
        id == old(s).next_id,
        spawned(*old(s), *final(s), fresh_task(id, PRIO_NORMAL, parent_id, me, kstack_top)),
{
    add_task(s, PRIO_NORMAL, parent_id, me, kstack_top)
}

/// The id of the task on CPU `me`, 0 where it is idle.
pub open spec fn cur_id(s: Sched, me: usize) -> u64 {
    if s.cur(me) == IDLE_INDEX {
        0
    } else {
        s.tasks@[s.cur(me) as int].id
    }
}

/// Spawn a user task as a child of the current one.
pub fn spawn_user(s: &mut Sched, me: usize, kstack_top: u64) -> (id: u64)
    requires
        old(s).wf(),
        me < MAX_CPUS,
        old(s).next_id < u64::MAX,
        old(s).tasks@.len() < IDLE_INDEX,
    ensures
        final(s).wf(),
        dead_stay(old(s).tasks@, final(s).tasks@),
        id == old(s).next_id,
        spawned(
            *old(s),
            *final(s),
            fresh_task(id, PRIO_NORMAL, cur_id(*old(s), me), me as u8, kstack_top),
        ),
{
    let parent = current_task_id(s, me);
    spawn_user_with_parent(s, parent, me as u8, kstack_top)
}

/// The current task's index, `usize::MAX` where CPU `me` is idle.
pub fn current_index(s: &Sched, me: usize) -> (r: usize)
    requires
        me < MAX_CPUS,
    ensures
        r == s.cur(me),
{
    s.smp.cpus[me].current
}

/// Task switches on CPU `me` so far. Sampled before and after a piece of code,
/// it tells whether the CPU switched in between.
pub fn switches_this_cpu(s: &Sched, me: usize) -> (r: u64)
    requires
        me < MAX_CPUS,
    ensures
        r == s.smp.cpus@[me as int].switches,
{
    s.smp.cpus[me].switches
}

/// The current task's id, 0 where CPU `me` is idle.
pub fn current_task_id(s: &Sched, me: usize) -> (r: u64)
    requires
        s.wf(),
        me < MAX_CPUS,
    ensures
        r == cur_id(*s, me),
{
    let cur = s.smp.cpus[me].current;
    assert(cpu_ok(s.smp.cpus@[me as int], s.tasks@.len()));
    if cur == IDLE_INDEX {
        0
    } else {
        s.tasks[cur].id
    }
}

/// The id of the current task's parent, 0 for none.
pub fn current_parent_id(s: &Sched, me: usize) -> (r: u64)
    requires
        s.wf(),
        me < MAX_CPUS,
    ensures
        r == if s.cur(me) == IDLE_INDEX {
            0
        } else {
            s.tasks@[s.cur(me) as int].parent_id
        },
{
    let cur = s.smp.cpus[me].current;
    assert(cpu_ok(s.smp.cpus@[me as int], s.tasks@.len()));
    if cur == IDLE_INDEX {
        0
    } else {
        s.tasks[cur].parent_id
    }
}

/// Does the current task use the Linux conventions?
pub fn current_is_linux(s: &Sched, me: usize) -> (r: bool)
    requires
        s.wf(),
        me < MAX_CPUS,
    ensures
        r == (s.cur(me) != IDLE_INDEX && s.tasks@[s.cur(me) as int].linux_abi),
{
    let cur = s.smp.cpus[me].current;
    assert(cpu_ok(s.smp.cpus@[me as int], s.tasks@.len()));
    cur != IDLE_INDEX && s.tasks[cur].linux_abi
}

/// A task with this id is at place `i`.
pub open spec fn id_at(ts: Seq<Task>, i: int, id: u64) -> bool {
    0 <= i < ts.len() && ts[i].id == id
}

/// Find a task by id.
pub fn find_task(s: &Sched, id: u64) -> (r: Option<usize>)
    ensures
        match r {
            Some(i) => id_at(s.tasks@, i as int, id) && forall|k: int|
                0 <= k < i ==> (#[trigger] s.tasks@[k]).id != id,
            None => forall|k: int| 0 <= k < s.tasks@.len() ==> (#[trigger] s.tasks@[k]).id != id,
        },
{
    let mut i: usize = 0;
    while i < s.tasks.len()
        invariant
            i <= s.tasks@.len(),
            forall|k: int| 0 <= k < i ==> (#[trigger] s.tasks@[k]).id != id,
        decreases s.tasks@.len() - i,
    {
        if s.tasks[i].id == id {
            return Some(i);
        }
        i += 1;
    }
    None
}

/// What is dead stays dead and keeps its exit status, and a status that was
/// taken stays taken.
pub open spec fn dead_stay(a: Seq<Task>, b: Seq<Task>) -> bool {
    &&& a.len() <= b.len()
    &&& forall|i: int|
        0 <= i < a.len() && (#[trigger] a[i]).state == State::Dead ==> still_dead(a[i], b[i])
}

/// The task is dead as before; its status may have been taken since.
pub open spec fn still_dead(t: Task, u: Task) -> bool {
    u.state == State::Dead && u.id == t.id && u.exit_code == t.exit_code && (t.reaped ==> u.reaped)
}

/// `n` is `o` with task `i` replaced by `t`.
pub open spec fn with_task(o: Sched, n: Sched, i: int, t: Task) -> bool {
    n.tasks@ == o.tasks@.update(i, t) && n.same_but_tasks(o)
}

/// Replace a task by one with the same id.
fn put_task(s: &mut Sched, i: usize, t: Task)
    requires
        old(s).wf(),
        i < old(s).tasks@.len(),
        t.id == old(s).tasks@[i as int].id,
        t.state == State::Running ==> is_with(old(s).smp.cpus@, t.owner_cpu, i as int),
        old(s).tasks@[i as int].state == State::Dead ==> still_dead(old(s).tasks@[i as int], t),
    ensures
        final(s).wf(),
        dead_stay(old(s).tasks@, final(s).tasks@),
        with_task(*old(s), *final(s), i as int, t),
{
    s.tasks.set(i, t);
    proof {
        lemma_ids_update(old(s).tasks@, i as int, t);
        assert forall|k: int|
            0 <= k < s.tasks@.len() && (#[trigger] s.tasks@[k]).state == State::Running implies is_with(
            s.smp.cpus@,
            s.tasks@[k].owner_cpu,
            k,
        ) by {
            if k != i {
                assert(s.tasks@[k] == old(s).tasks@[k]);
            }
        }
    }
}

proof fn lemma_ids_update(ts: Seq<Task>, i: int, t: Task)
    requires
        ids_ok(ts),
        0 <= i < ts.len(),
        t.id == ts[i].id,
    ensures
        ids_ok(ts.update(i, t)),
        forall|k: int| 0 <= k < ts.len() ==> (#[trigger] ts.update(i, t)[k]).id == ts[k].id,
{
    let us = ts.update(i, t);
    assert forall|k: int| 0 <= k < ts.len() implies (#[trigger] us[k]).id == ts[k].id by {}
}

/// Mark a task as using the Linux conventions; an unknown id is ignored.
pub fn set_linux_abi(s: &mut Sched, id: u64)
    requires
        old(s).wf(),
    ensures
        final(s).wf(),
        dead_stay(old(s).tasks@, final(s).tasks@),
        forall|i: int| #[trigger]
            id_at(old(s).tasks@, i, id) ==> with_task(
                *old(s),
                *final(s),
                i,
                Task { linux_abi: true, ..old(s).tasks@[i] },
            ),
        (forall|i: int| !#[trigger] id_at(old(s).tasks@, i, id)) ==> *final(s) == *old(s),
{
    match find_task(s, id) {
        Some(i) => {
            let mut t = s.tasks[i];
            t.linux_abi = true;
            proof {
                assert(id_at(s.tasks@, i as int, id));
            }
            put_task(s, i, t);
        },
        None => {},
    }
}

/// What the current task becomes when it exits with `code`.
pub open spec fn exited(t: Task, code: u32) -> Task {
    Task { state: State::Dead, exit_code: code, reaped: false, ..t }
}

/// `n` is `o` with the current task of CPU `me` replaced by `t`, unchanged
/// where the CPU is idle or the task, killed from elsewhere, is dead.
pub open spec fn with_current(o: Sched, n: Sched, me: usize, t: Task) -> bool {
    if o.cur(me) == IDLE_INDEX || cur_task(o, me).state == State::Dead {
        n == o
    } else {
        with_task(o, n, o.cur(me) as int, t)
    }
}

/// The current task of CPU `me`.
pub open spec fn cur_task(s: Sched, me: usize) -> Task {
    s.tasks@[s.cur(me) as int]
}

/// The current task exits with `code`: it becomes a zombie that its parent can
/// reap. One that was killed already keeps that status.
pub fn record_exit(s: &mut Sched, me: usize, code: u32)
    requires
        old(s).wf(),
        me < MAX_CPUS,
    ensures
        final(s).wf(),
        dead_stay(old(s).tasks@, final(s).tasks@),
        with_current(*old(s), *final(s), me, exited(cur_task(*old(s), me), code)),
{
    let cur = s.smp.cpus[me].current;
    assert(cpu_ok(s.smp.cpus@[me as int], s.tasks@.len()));
    if cur != IDLE_INDEX && s.tasks[cur].state != State::Dead {
        let mut t = s.tasks[cur];
        t.state = State::Dead;
        t.exit_code = code;
        t.reaped = false;
        put_task(s, cur, t);
    }
}

/// The current task is done.
pub fn mark_current_dead(s: &mut Sched, me: usize)
    requires
        old(s).wf(),
        me < MAX_CPUS,
    ensures
        final(s).wf(),
        dead_stay(old(s).tasks@, final(s).tasks@),
        with_current(*old(s), *final(s), me, exited(cur_task(*old(s), me), 0)),
{
    record_exit(s, me, 0);
}

/// Kill task `pid`, unless it is the current one or dead. The CPU that ran it
/// is returned so that it can be told.
pub fn kill(s: &mut Sched, me: usize, pid: u64) -> (r: Option<u8>)
    requires
        old(s).wf(),
        me < MAX_CPUS,
    ensures
        final(s).wf(),
        dead_stay(old(s).tasks@, final(s).tasks@),
        forall|i: int| #[trigger]
            id_at(old(s).tasks@, i, pid) && i != old(s).cur(me) && old(s).tasks@[i].state
                != State::Dead ==> r == Some(old(s).tasks@[i].owner_cpu) && with_task(
                *old(s),
                *final(s),
                i,
                exited(old(s).tasks@[i], KILLED),
            ),
        (forall|i: int| #[trigger]
            id_at(old(s).tasks@, i, pid) ==> i == old(s).cur(me) || old(s).tasks@[i].state
                == State::Dead) ==> r is None && *final(s) == *old(s),
{
    match find_task(s, pid) {
        Some(i) => {
            assert(id_at(s.tasks@, i as int, pid));
            if i != s.smp.cpus[me].current && s.tasks[i].state != State::Dead {
                let mut t = s.tasks[i];
                let cpu = t.owner_cpu;
                t.state = State::Dead;
                t.exit_code = KILLED;
                t.reaped = false;
                put_task(s, i, t);
                Some(cpu)
            } else {
                None
            }
        },
        None => None,
    }
}

/// Task `i` is a child of task `parent`, and `pid` names it (0 names any).
pub open spec fn is_child(ts: Seq<Task>, i: int, parent: u64, pid: u64) -> bool {
    0 <= i < ts.len() && ts[i].parent_id == parent && (pid == 0 || ts[i].id == pid)
}

/// A child that can be waited for: not yet dead and reaped.
pub open spec fn waitable(ts: Seq<Task>, i: int, parent: u64, pid: u64) -> bool {
    is_child(ts, i, parent, pid) && (ts[i].state != State::Dead || !ts[i].reaped)
}

/// A child whose exit status can be taken.
pub open spec fn reapable(ts: Seq<Task>, i: int, parent: u64, pid: u64) -> bool {
    is_child(ts, i, parent, pid) && ts[i].state == State::Dead && !ts[i].reaped
}

/// Has the current task a child to wait for?
pub fn child_waitable(s: &Sched, me: usize, pid: u64) -> (r: bool)
    requires
        s.wf(),
        me < MAX_CPUS,
    ensures
        r == (s.cur(me) != IDLE_INDEX && exists|i: int| #[trigger]
            waitable(s.tasks@, i, cur_id(*s, me), pid)),
{
    let cur = s.smp.cpus[me].current;
    assert(cpu_ok(s.smp.cpus@[me as int], s.tasks@.len()));
    if cur == IDLE_INDEX {
        return false;
    }
    let cur_id = s.tasks[cur].id;
    let mut i: usize = 0;
    while i < s.tasks.len()
        invariant
            i <= s.tasks@.len(),
            s.cur(me) != IDLE_INDEX,
            cur_id == crate::scheduler::cur_id(*s, me),
            forall|k: int| 0 <= k < i ==> !#[trigger] waitable(s.tasks@, k, cur_id, pid),
        decreases s.tasks@.len() - i,
    {
        let t = s.tasks[i];
        if t.parent_id == cur_id && (pid == 0 || t.id == pid) {
            if t.state != State::Dead || !t.reaped {
                assert(waitable(s.tasks@, i as int, cur_id, pid));
                return true;
            }
        }
        i += 1;
    }
    false
}

/// `i` is the first child of `parent` whose status can be taken.
pub open spec fn first_reapable(ts: Seq<Task>, i: int, parent: u64, pid: u64) -> bool {
    reapable(ts, i, parent, pid) && forall|k: int|
        0 <= k < i ==> !#[trigger] reapable(ts, k, parent, pid)
}

/// Take the exit status of a dead child of the current task.
pub fn try_reap(s: &mut Sched, me: usize, pid: u64) -> (r: Option<(u64, u32)>)
    requires
        old(s).wf(),
        me < MAX_CPUS,
    ensures
        final(s).wf(),
        dead_stay(old(s).tasks@, final(s).tasks@),
        match r {
            Some((id, code)) => old(s).cur(me) != IDLE_INDEX && exists|i: int|
                {
                    &&& #[trigger] first_reapable(old(s).tasks@, i, cur_id(*old(s), me), pid)
                    &&& id == old(s).tasks@[i].id
                    &&& code == old(s).tasks@[i].exit_code
                    &&& with_task(
                        *old(s),
                        *final(s),
                        i,
                        Task { reaped: true, ..old(s).tasks@[i] },
                    )
                },
            None => *final(s) == *old(s) && (old(s).cur(me) == IDLE_INDEX || forall|i: int|
                !#[trigger] reapable(old(s).tasks@, i, cur_id(*old(s), me), pid)),
        },
{
    let cur = s.smp.cpus[me].current;
    assert(cpu_ok(s.smp.cpus@[me as int], s.tasks@.len()));
    if cur == IDLE_INDEX {
        return None;
    }
    let cur_id = s.tasks[cur].id;
    let mut i: usize = 0;
    while i < s.tasks.len()
        invariant
            *s == *old(s),
            s.wf(),
            i <= s.tasks@.len(),
            old(s).cur(me) != IDLE_INDEX,
            cur_id == crate::scheduler::cur_id(*old(s), me),
            forall|k: int| 0 <= k < i ==> !#[trigger] reapable(s.tasks@, k, cur_id, pid),
        decreases s.tasks@.len() - i,
    {
        let t = s.tasks[i];
        if t.parent_id == cur_id && (pid == 0 || t.id == pid) {
            if t.state == State::Dead && !t.reaped {
                assert(first_reapable(s.tasks@, i as int, cur_id, pid));
                let mut u = t;
                u.reaped = true;
                put_task(s, i, u);
                return Some((t.id, t.exit_code));
            }
        }
        i += 1;
    }
    None
}

/// A status that was taken cannot be taken again.
pub proof fn law_reap_once(ts: Seq<Task>, i: int, parent: u64, pid: u64)
    requires
        reapable(ts, i, parent, pid),
    ensures
        !reapable(ts.update(i, Task { reaped: true, ..ts[i] }), i, parent, pid),
        !waitable(ts.update(i, Task { reaped: true, ..ts[i] }), i, parent, pid),
        forall|j: int|
            j != i && #[trigger] reapable(ts, j, parent, pid) ==> reapable(
                ts.update(i, Task { reaped: true, ..ts[i] }),
                j,
                parent,
                pid,
            ),
{
}

/// What a blocked task waits for.
pub enum WaitFor {
    Line,
    Raw,
    Child,
}

/// The task blocked, with a mark for what it waits for and for nothing else.
pub open spec fn blocked_on(t: Task, w: WaitFor) -> Task {
    Task {
        state: State::Blocked,
        blocked_on_input: w is Line,
        blocked_on_raw: w is Raw,
        blocked_on_child: w is Child,
        ..t
    }
}

/// Block the current task, whatever it waited for before.
fn block_current(s: &mut Sched, me: usize, w: WaitFor)
    requires
        old(s).wf(),
        me < MAX_CPUS,
    ensures
        final(s).wf(),
        dead_stay(old(s).tasks@, final(s).tasks@),
        with_current(*old(s), *final(s), me, blocked_on(cur_task(*old(s), me), w)),
{
    let cur = s.smp.cpus[me].current;
    assert(cpu_ok(s.smp.cpus@[me as int], s.tasks@.len()));
    if cur != IDLE_INDEX && s.tasks[cur].state != State::Dead {
        let mut t = s.tasks[cur];
        t.state = State::Blocked;
        t.blocked_on_input = matches!(w, WaitFor::Line);
        t.blocked_on_raw = matches!(w, WaitFor::Raw);
        t.blocked_on_child = matches!(w, WaitFor::Child);
        put_task(s, cur, t);
    }
}

/// The current task waits for a child to die.
pub fn block_on_child(s: &mut Sched, me: usize)
    requires
        old(s).wf(),
        me < MAX_CPUS,
    ensures
        final(s).wf(),
        dead_stay(old(s).tasks@, final(s).tasks@),
        with_current(*old(s), *final(s), me, blocked_on(cur_task(*old(s), me), WaitFor::Child)),
{
    block_current(s, me, WaitFor::Child);
}

/// The current task waits for a line of input.
pub fn block_current_on_input(s: &mut Sched, me: usize)
    requires
        old(s).wf(),
        me < MAX_CPUS,
    ensures
        final(s).wf(),
        dead_stay(old(s).tasks@, final(s).tasks@),
        with_current(*old(s), *final(s), me, blocked_on(cur_task(*old(s), me), WaitFor::Line)),
{
    block_current(s, me, WaitFor::Line);
}

/// The current task waits for a raw input event.
pub fn block_current_on_raw_input(s: &mut Sched, me: usize)
    requires
        old(s).wf(),
        me < MAX_CPUS,
    ensures
        final(s).wf(),
        dead_stay(old(s).tasks@, final(s).tasks@),
        with_current(*old(s), *final(s), me, blocked_on(cur_task(*old(s), me), WaitFor::Raw)),
{
    block_current(s, me, WaitFor::Raw);
}

/// The current task sleeps until `wake_ms`.
pub fn sleep_current(s: &mut Sched, me: usize, wake_ms: u64)
    requires
        old(s).wf(),
        me < MAX_CPUS,
    ensures
        final(s).wf(),
        dead_stay(old(s).tasks@, final(s).tasks@),
        with_current(
            *old(s),
            *final(s),
            me,
            Task {
                state: State::Sleeping,
                sleep_until_ms: wake_ms,
                blocked_on_input: false,
                blocked_on_raw: false,
                ..cur_task(*old(s), me)
            },
        ),
{
    let cur = s.smp.cpus[me].current;
    assert(cpu_ok(s.smp.cpus@[me as int], s.tasks@.len()));
    if cur != IDLE_INDEX && s.tasks[cur].state != State::Dead {
        let mut t = s.tasks[cur];
        t.state = State::Sleeping;
        t.sleep_until_ms = wake_ms;
        t.blocked_on_input = false;
        t.blocked_on_raw = false;
        put_task(s, cur, t);
    }
}

/// The current task offers the CPU: it becomes ready where it was running.
pub fn yield_current(s: &mut Sched, me: usize)
    requires
        old(s).wf(),
        me < MAX_CPUS,
    ensures
        final(s).wf(),
        dead_stay(old(s).tasks@, final(s).tasks@),
        old(s).cur(me) != IDLE_INDEX && cur_task(*old(s), me).state == State::Running ==> with_task(
            *old(s),
            *final(s),
            old(s).cur(me) as int,
            Task { state: State::Ready, ..cur_task(*old(s), me) },
        ),
        old(s).cur(me) == IDLE_INDEX || cur_task(*old(s), me).state != State::Running
            ==> *final(s) == *old(s),
{
    let cur = s.smp.cpus[me].current;
    assert(cpu_ok(s.smp.cpus@[me as int], s.tasks@.len()));
    if cur != IDLE_INDEX && s.tasks[cur].state == State::Running {
        let mut t = s.tasks[cur];
        t.state = State::Ready;
        put_task(s, cur, t);
    }
}

/// Make a sleeping task ready before its time; returns whether it was asleep.
pub fn wake_task_now(s: &mut Sched, id: u64) -> (r: bool)
    requires
        old(s).wf(),
    ensures
        final(s).wf(),
        dead_stay(old(s).tasks@, final(s).tasks@),
        forall|i: int| #[trigger]
            id_at(old(s).tasks@, i, id) && old(s).tasks@[i].state == State::Sleeping ==> r
                && with_task(
                *old(s),
                *final(s),
                i,
                Task { state: State::Ready, ..old(s).tasks@[i] },
            ),
        (forall|i: int| #[trigger]
            id_at(old(s).tasks@, i, id) ==> old(s).tasks@[i].state != State::Sleeping) ==> !r
            && *final(s) == *old(s),
{
    match find_task(s, id) {
        Some(i) => {
            assert(id_at(s.tasks@, i as int, id));
            if s.tasks[i].state == State::Sleeping {
                let mut t = s.tasks[i];
                t.state = State::Ready;
                put_task(s, i, t);
                true
            } else {
                false
            }
        },
        None => false,
    }
}

/// Change a live task's priority; `false` where there is none with this id.
pub fn set_priority(s: &mut Sched, id: u64, priority: u8) -> (r: bool)
    requires
        old(s).wf(),
    ensures
        final(s).wf(),
        dead_stay(old(s).tasks@, final(s).tasks@),
        forall|i: int| #[trigger]
            id_at(old(s).tasks@, i, id) && old(s).tasks@[i].state != State::Dead ==> r && with_task(
                *old(s),
                *final(s),
                i,
                Task { priority, ..old(s).tasks@[i] },
            ),
        (forall|i: int| #[trigger]
            id_at(old(s).tasks@, i, id) ==> old(s).tasks@[i].state == State::Dead) ==> !r
            && *final(s) == *old(s),
{
    match find_task(s, id) {
        Some(i) => {
            assert(id_at(s.tasks@, i as int, id));
            if s.tasks[i].state != State::Dead {
                let mut t = s.tasks[i];
                t.priority = priority;
                put_task(s, i, t);
                true
            } else {
                false
            }
        },
        None => false,
    }
}

/// Has the status of zombie `pid` been taken? A pid that does not exist counts
/// as reaped.
pub fn is_reaped(s: &Sched, pid: u64) -> (r: bool)
    requires
        s.wf(),
    ensures
        r == forall|i: int| #[trigger] id_at(s.tasks@, i, pid) ==> s.tasks@[i].reaped,
{
    match find_task(s, pid) {
        Some(i) => {
            assert(id_at(s.tasks@, i as int, pid));
            s.tasks[i].reaped
        },
        None => true,
    }
}

/// Is a task ready that CPU `me` owns?
pub fn has_ready_tasks(s: &Sched, me: usize) -> (r: bool)
    ensures
        r == exists|i: int|
            0 <= i < s.tasks@.len() && (#[trigger] s.tasks@[i]).state == State::Ready
                && s.tasks@[i].owner_cpu == me,
{
    let mut i: usize = 0;
    while i < s.tasks.len()
        invariant
            i <= s.tasks@.len(),
            forall|k: int|
                0 <= k < i ==> !((#[trigger] s.tasks@[k]).state == State::Ready
                    && s.tasks@[k].owner_cpu == me),
        decreases s.tasks@.len() - i,
    {
        if s.tasks[i].state == State::Ready && s.tasks[i].owner_cpu as usize == me {
            return true;
        }
        i += 1;
    }
    false
}

// ---------------------------------------------------------------------------
// The wake pass
// ---------------------------------------------------------------------------

/// What waiting tasks wait for: the time, a line, a raw event.
#[derive(Clone, Copy, PartialEq, Eq, Debug)]
pub struct Events {
    pub now_ms: u64,
    pub line_pending: bool,
    pub raw_pending: bool,
}

/// Task `i` has a dead child whose status was not taken.
pub open spec fn has_zombie(ts: Seq<Task>, i: int) -> bool {
    exists|j: int| #[trigger] reapable(ts, j, ts[i].id, 0)
}

/// Nobody will take this zombie's status: its parent is the kernel, dead or
/// gone.
pub open spec fn orphaned(ts: Seq<Task>, i: int) -> bool {
    ts[i].parent_id == 0 || forall|p: int| #[trigger]
        id_at(ts, p, ts[i].parent_id) ==> ts[p].state == State::Dead
}

/// Task `i` after the wake pass: ready where what it waits for has come.
pub open spec fn woken(ts: Seq<Task>, i: int, e: Events) -> Task {
    let t = ts[i];
    let ready = Task { state: State::Ready, ..t };
    if t.state == State::Sleeping {
        if e.now_ms >= t.sleep_until_ms {
            ready
        } else {
            t
        }
    } else if t.state == State::Blocked {
        if t.blocked_on_input {
            if e.line_pending {
                ready
            } else {
                t
            }
        } else if t.blocked_on_raw {
            if e.raw_pending {
                ready
            } else {
                t
            }
        } else if t.blocked_on_child {
            if has_zombie(ts, i) {
                ready
            } else {
                t
            }
        } else {
            t
        }
    } else if t.state == State::Dead && !t.reaped && orphaned(ts, i) {
        Task { reaped: true, ..t }
    } else {
        t
    }
}

/// The table after the wake pass.
pub open spec fn wake_pass(ts: Seq<Task>, e: Events) -> Seq<Task> {
    Seq::new(ts.len(), |i: int| woken(ts, i, e))
}

/// The table in the middle of the wake pass: the first `n` tasks done.
pub open spec fn partly_woken(ts: Seq<Task>, e: Events, n: int) -> Seq<Task> {
    Seq::new(
        ts.len(),
        |i: int|
            if i < n {
                woken(ts, i, e)
            } else {
                ts[i]
            },
    )
}

/// What the pass asks of other tasks does not depend on how far it has come.
proof fn lemma_pass_is_stable(ts: Seq<Task>, e: Events, n: int, i: int)
    requires
        ids_ok(ts),
        0 <= n <= i < ts.len(),
    ensures
        ts[i].state == State::Blocked ==> has_zombie(partly_woken(ts, e, n), i) == has_zombie(ts, i),
        orphaned(partly_woken(ts, e, n), i) == orphaned(ts, i),
{
    let us = partly_woken(ts, e, n);
    assert forall|k: int| 0 <= k < ts.len() implies (#[trigger] us[k]).id == ts[k].id
        && us[k].parent_id == ts[k].parent_id && (us[k].state == State::Dead <==> ts[k].state
        == State::Dead) by {}
    assert forall|p: int| #[trigger] id_at(us, p, ts[i].parent_id) <==> id_at(
        ts,
        p,
        ts[i].parent_id,
    ) by {}
    assert(orphaned(us, i) == orphaned(ts, i)) by {
        if orphaned(ts, i) && ts[i].parent_id != 0 {
            assert forall|p: int| #[trigger] id_at(us, p, us[i].parent_id) implies us[p].state
                == State::Dead by {
                assert(id_at(ts, p, ts[i].parent_id));
            }
        }
        if orphaned(us, i) && ts[i].parent_id != 0 {
            assert forall|p: int| #[trigger] id_at(ts, p, ts[i].parent_id) implies ts[p].state
                == State::Dead by {
                assert(id_at(us, p, us[i].parent_id));
            }
        }
    }
    if ts[i].state == State::Blocked {
        // A child of a live task is not reaped by the pass.
        assert forall|j: int| #[trigger] reapable(us, j, ts[i].id, 0) <==> reapable(
            ts,
            j,
            ts[i].id,
            0,
        ) by {
            if 0 <= j < ts.len() && ts[j].parent_id == ts[i].id {
                assert(id_at(ts, i, ts[j].parent_id));
                assert(!orphaned(ts, j));
            }
        }
        if has_zombie(ts, i) {
            let j = choose|j: int| #[trigger] reapable(ts, j, ts[i].id, 0);
            assert(reapable(us, j, us[i].id, 0));
        }
        if has_zombie(us, i) {
            let j = choose|j: int| #[trigger] reapable(us, j, us[i].id, 0);
            assert(reapable(ts, j, ts[i].id, 0));
        }
    }
}

fn has_dead_unreaped_child(s: &Sched, i: usize) -> (r: bool)
    requires
        i < s.tasks@.len(),
    ensures
        r == has_zombie(s.tasks@, i as int),
{
    let parent = s.tasks[i].id;
    let mut j: usize = 0;
    while j < s.tasks.len()
        invariant
            i < s.tasks@.len(),
            parent == s.tasks@[i as int].id,
            j <= s.tasks@.len(),
            forall|k: int| 0 <= k < j ==> !#[trigger] reapable(s.tasks@, k, parent, 0),
        decreases s.tasks@.len() - j,
    {
        let t = s.tasks[j];
        if t.parent_id == parent && t.state == State::Dead && !t.reaped {
            assert(reapable(s.tasks@, j as int, parent, 0));
            return true;
        }
        j += 1;
    }
    false
}

fn is_orphaned(s: &Sched, i: usize) -> (r: bool)
    requires
        s.wf(),
        i < s.tasks@.len(),
    ensures
        r == orphaned(s.tasks@, i as int),
{
    let parent = s.tasks[i].parent_id;
    if parent == 0 {
        return true;
    }
    match find_task(s, parent) {
        Some(p) => {
            assert(id_at(s.tasks@, p as int, parent));
            s.tasks[p].state == State::Dead
        },
        None => true,
    }
}

/// The wake pass: tasks whose condition is met become ready, and zombies that
/// nobody will wait for are reaped.
pub fn wake_state(s: &mut Sched, e: Events)
    requires
        old(s).wf(),
    ensures
        final(s).wf(),
        dead_stay(old(s).tasks@, final(s).tasks@),
        final(s).tasks@ == wake_pass(old(s).tasks@, e),
        final(s).same_but_tasks(*old(s)),
{
    let ghost ts = s.tasks@;
    let n = s.tasks.len();
    let mut i: usize = 0;
    assert(s.tasks@ =~= partly_woken(ts, e, 0));
    while i < n
        invariant
            i <= n == ts.len(),
            ts == old(s).tasks@,
            ids_ok(ts),
            s.wf(),
            s.tasks@ == partly_woken(ts, e, i as int),
            s.same_but_tasks(*old(s)),
            dead_stay(ts, s.tasks@),
        decreases n - i,
    {
        proof {
            lemma_pass_is_stable(ts, e, i as int, i as int);
        }
        let t = s.tasks[i];
        assert(t == ts[i as int]);
        let mut u = t;
        match t.state {
            State::Sleeping => {
                if e.now_ms >= t.sleep_until_ms {
                    u.state = State::Ready;
                }
            },
            State::Blocked => {
                if t.blocked_on_input {
                    if e.line_pending {
                        u.state = State::Ready;
                    }
                } else if t.blocked_on_raw {
                    if e.raw_pending {
                        u.state = State::Ready;
                    }
                } else if t.blocked_on_child {
                    if has_dead_unreaped_child(s, i) {
                        u.state = State::Ready;
                    }
                }
            },
            State::Dead => {
                if !t.reaped {
                    if is_orphaned(s, i) {
                        u.reaped = true;
                    }
                }
            },
            _ => {},
        }
        assert(u == woken(ts, i as int, e));
        put_task(s, i, u);
        assert(s.tasks@ =~= partly_woken(ts, e, i + 1));
        i += 1;
    }
    assert(s.tasks@ =~= wake_pass(ts, e));
}

/// A task that blocks is woken by what it waits for and by nothing else,
/// whatever it waited for before.
pub proof fn law_blocked_until_it_comes(ts: Seq<Task>, i: int, t: Task, w: WaitFor, e: Events)
    requires
        0 <= i < ts.len(),
        ts[i] == blocked_on(t, w),
    ensures
        wake_pass(ts, e)[i] == (Task {
            state: if match w {
                WaitFor::Line => e.line_pending,
                WaitFor::Raw => e.raw_pending,
                WaitFor::Child => has_zombie(ts, i),
            } {
                State::Ready
            } else {
                State::Blocked
            },
            ..ts[i]
        }),
{
}

/// The pass wakes exactly the tasks that are due and never touches a running
/// one.
pub proof fn law_wake_pass(ts: Seq<Task>, e: Events, i: int)
    requires
        0 <= i < ts.len(),
    ensures
        ts[i].state == State::Running || ts[i].state == State::Ready ==> wake_pass(ts, e)[i]
            == ts[i],
        ts[i].state == State::Dead ==> wake_pass(ts, e)[i].state == State::Dead,
        ts[i].state == State::Sleeping ==> (wake_pass(ts, e)[i].state == State::Ready <==> e.now_ms
            >= ts[i].sleep_until_ms),
        wake_pass(ts, e)[i].id == ts[i].id,
        wake_pass(ts, e)[i].exit_code == ts[i].exit_code,
{
}

// ---------------------------------------------------------------------------
// Picking
// ---------------------------------------------------------------------------

/// Ready tasks are looked at in turn, starting behind the current one.
pub open spec fn turn(i: int, start: int, n: int) -> int {
    (i - start + n) % n
}

/// `a` goes before `b`: more urgent; as urgent, owned by CPU `me` rather than
/// not; else earlier in turn.
pub open spec fn goes_before(ts: Seq<Task>, me: usize, start: int, a: int, b: int) -> bool {
    let n = ts.len() as int;
    if ts[a].priority != ts[b].priority {
        ts[a].priority < ts[b].priority
    } else if (ts[a].owner_cpu == me) != (ts[b].owner_cpu == me) {
        ts[a].owner_cpu == me
    } else {
        turn(a, start, n) < turn(b, start, n)
    }
}

/// Another CPU than `me` runs task `i` or has yet to release it.
pub open spec fn held(cpus: Seq<PerCpu>, me: usize, i: int) -> bool {
    exists|c: int|
        0 <= c < 4 && c != me && ((#[trigger] cpus[c]).current == i || cpus[c].pending_prev == i)
}

/// CPU `me` may take task `i`: it is ready, and no other CPU holds it.
pub open spec fn on_offer(ts: Seq<Task>, cpus: Seq<PerCpu>, me: usize, i: int) -> bool {
    0 <= i < ts.len() && ts[i].state == State::Ready && !held(cpus, me, i)
}

/// Task `b` is the one to run: it goes before every other task on offer.
pub open spec fn is_pick(ts: Seq<Task>, cpus: Seq<PerCpu>, me: usize, start: int, b: usize) -> bool {
    if b == IDLE_INDEX {
        forall|i: int| !#[trigger] on_offer(ts, cpus, me, i)
    } else {
        &&& on_offer(ts, cpus, me, b as int)
        &&& forall|i: int| #[trigger]
            on_offer(ts, cpus, me, i) && i != b ==> goes_before(ts, me, start, b as int, i)
    }
}

/// Does another CPU than `me` hold task `i`?
fn is_held(s: &Sched, me: usize, i: usize) -> (r: bool)
    ensures
        r == held(s.smp.cpus@, me, i as int),
{
    let mut c: usize = 0;
    while c < MAX_CPUS
        invariant
            c <= 4,
            forall|k: int|
                0 <= k < c && k != me ==> (#[trigger] s.smp.cpus@[k]).current != i
                    && s.smp.cpus@[k].pending_prev != i,
        decreases 4 - c,
    {
        if c != me && (s.smp.cpus[c].current == i || s.smp.cpus[c].pending_prev == i) {
            return true;
        }
        c += 1;
    }
    false
}

/// Pick the task to run on CPU `me`, `usize::MAX` for none.
fn pick(s: &Sched, me: usize, start: usize) -> (b: usize)
    requires
        s.tasks@.len() > 0,
        s.tasks@.len() < IDLE_INDEX,
        start <= s.tasks@.len(),
    ensures
        is_pick(s.tasks@, s.smp.cpus@, me, start as int, b),
{
    let ghost ts = s.tasks@;
    let ghost cpus = s.smp.cpus@;
    let n = s.tasks.len();
    let mut best: usize = IDLE_INDEX;
    let mut k: usize = 0;
    let mut idx: usize = if start == n {
        0
    } else {
        start
    };
    proof {
        let m = n as int;
        let a = start as int;
        assert(a % m == if a == m {
            0
        } else {
            a
        }) by (nonlinear_arith)
            requires
                0 <= a <= m,
                0 < m,
        ;
    }
    while k < n
        invariant
            ts == s.tasks@,
            cpus == s.smp.cpus@,
            n == ts.len(),
            0 < n < IDLE_INDEX,
            start <= n,
            k <= n,
            idx < n,
            idx == (start + k) % n as int,
            best == IDLE_INDEX || best < n,
            best == IDLE_INDEX ==> forall|i: int| #[trigger]
                on_offer(ts, cpus, me, i) ==> turn(i, start as int, n as int) >= k,
            best != IDLE_INDEX ==> on_offer(ts, cpus, me, best as int) && turn(
                best as int,
                start as int,
                n as int,
            ) < k && forall|i: int| #[trigger]
                on_offer(ts, cpus, me, i) && turn(i, start as int, n as int) < k && i != best
                    ==> goes_before(ts, me, start as int, best as int, i),
        decreases n - k,
    {
        let ghost m = n as int;
        assert(turn(idx as int, start as int, m) == k) by {
            lemma_turn(idx as int, start as int, m, k as int);
        }
        assert forall|i: int| 0 <= i < m && turn(i, start as int, m) == k implies i == idx by {
            lemma_turn_unique(i, idx as int, start as int, m);
        }
        if s.tasks[idx].state == State::Ready && !is_held(s, me, idx) {
            assert(on_offer(ts, cpus, me, idx as int));
            if best == IDLE_INDEX {
                best = idx;
            } else {
                let p = s.tasks[idx].priority;
                let bp = s.tasks[best].priority;
                let local = s.tasks[idx].owner_cpu as usize == me;
                let best_local = s.tasks[best].owner_cpu as usize == me;
                if p < bp || (p == bp && local && !best_local) {
                    best = idx;
                }
            }
        }
        k += 1;
        idx = if idx + 1 == n {
            0
        } else {
            idx + 1
        };
        assert(idx == (start + k) % n as int) by {
            lemma_step(start as int, k - 1, n as int);
        }
    }
    assert forall|i: int| 0 <= i < n implies turn(i, start as int, n as int) < n by {
        lemma_turn_range(i, start as int, n as int);
    }
    best
}

proof fn lemma_turn(idx: int, start: int, n: int, k: int)
    requires
        0 < n,
        0 <= start <= n,
        0 <= k < n,
        0 <= idx < n,
        idx == (start + k) % n,
    ensures
        turn(idx, start, n) == k,
{
    if start + k < n {
        assert((start + k) % n == start + k) by (nonlinear_arith)
            requires
                0 <= start + k < n,
        ;
        assert((k + n) % n == k) by (nonlinear_arith)
            requires
                0 <= k < n,
        ;
    } else {
        assert((start + k) % n == start + k - n) by (nonlinear_arith)
            requires
                n <= start + k < 2 * n,
        ;
        assert(k % n == k) by (nonlinear_arith)
            requires
                0 <= k < n,
        ;
    }
}

proof fn lemma_turn_range(i: int, start: int, n: int)
    requires
        0 < n,
    ensures
        0 <= turn(i, start, n) < n,
{
    assert(0 <= (i - start + n) % n < n) by (nonlinear_arith)
        requires
            0 < n,
    ;
}

proof fn lemma_turn_unique(i: int, j: int, start: int, n: int)
    requires
        0 < n,
        0 <= start <= n,
        0 <= i < n,
        0 <= j < n,
        turn(i, start, n) == turn(j, start, n),
    ensures
        i == j,
{
    let a = i - start + n;
    let b = j - start + n;
    assert(0 <= a < 2 * n && 0 <= b < 2 * n);
    assert(a % n == if a < n {
        a
    } else {
        a - n
    }) by (nonlinear_arith)
        requires
            0 <= a < 2 * n,
            0 < n,
    ;
    assert(b % n == if b < n {
        b
    } else {
        b - n
    }) by (nonlinear_arith)
        requires
            0 <= b < 2 * n,
            0 < n,
    ;
}

proof fn lemma_step(start: int, k: int, n: int)
    requires
        0 < n,
        0 <= start <= n,
        0 <= k < n,
    ensures
        (start + k + 1) % n == if (start + k) % n + 1 == n {
            0
        } else {
            (start + k) % n + 1
        },
{
    let a = start + k;
    let r = a % n;
    let q = a / n;
    assert(a == q * n + r && 0 <= r < n) by (nonlinear_arith)
        requires
            0 < n,
            r == a % n,
            q == a / n,
    ;
    if r + 1 == n {
        assert(a + 1 == (q + 1) * n) by (nonlinear_arith)
            requires
                a == q * n + r,
                r + 1 == n,
        ;
        assert((a + 1) % n == 0) by (nonlinear_arith)
            requires
                a + 1 == (q + 1) * n,
                0 < n,
        ;
    } else {
        assert((a + 1) % n == r + 1) by (nonlinear_arith)
            requires
                a + 1 == q * n + (r + 1),
                0 <= r + 1 < n,
        ;
    }
}

// ---------------------------------------------------------------------------
// Switching
// ---------------------------------------------------------------------------

/// The table after CPU `me` released the task of its last switch: it goes back
/// to ready where it is still marked running on this CPU.
pub open spec fn released(ts: Seq<Task>, c: PerCpu, me: usize) -> Seq<Task> {
    let p = c.pending_prev;
    if p != IDLE_INDEX && p != c.current && ts[p as int].state == State::Running
        && ts[p as int].owner_cpu == me {
        ts.update(p as int, Task { state: State::Ready, ..ts[p as int] })
    } else {
        ts
    }
}

/// The scheduler after CPU `me` released what it suspended last.
pub open spec fn is_released(a: Sched, b: Sched, me: usize) -> bool {
    &&& b.tasks@ == released(a.tasks@, a.smp.cpus@[me as int], me)
    &&& b.next_id == a.next_id
    &&& b.stall == a.stall
    &&& b.smp.low_page == a.smp.low_page
    &&& b.smp.cpus@ == a.smp.cpus@.update(
        me as int,
        PerCpu { pending_prev: IDLE_INDEX, ..a.smp.cpus@[me as int] },
    )
}

/// Release the task that CPU `me` suspended at its last switch.
pub fn release_pending_prev(s: &mut Sched, me: usize)
    requires
        old(s).wf(),
        me < MAX_CPUS,
    ensures
        final(s).wf(),
        dead_stay(old(s).tasks@, final(s).tasks@),
        is_released(*old(s), *final(s), me),
{
    let mut c = s.smp.cpus[me];
    assert(cpu_ok(s.smp.cpus@[me as int], s.tasks@.len()));
    let prev = c.pending_prev;
    let cur = c.current;
    c.pending_prev = IDLE_INDEX;
    if prev != IDLE_INDEX && prev != cur {
        let t = s.tasks[prev];
        if t.state == State::Running && t.owner_cpu as usize == me {
            let mut u = t;
            u.state = State::Ready;
            put_task(s, prev, u);
        }
    }
    s.smp.cpus[me] = c;
    proof {
        assert forall|k: int| 0 <= k < 4 implies cpu_ok(
            #[trigger] s.smp.cpus@[k],
            s.tasks@.len(),
        ) by {
            assert(cpu_ok(old(s).smp.cpus@[k], old(s).tasks@.len()));
        }
        assert forall|a: int, b: int|
            0 <= a < 4 && 0 <= b < 4 && a != b && (#[trigger] s.smp.cpus@[a]).current
                != IDLE_INDEX implies s.smp.cpus@[a].current != (
        #[trigger] s.smp.cpus@[b]).current && s.smp.cpus@[a].current
            != s.smp.cpus@[b].pending_prev by {
            assert(s.smp.cpus@[a].current == old(s).smp.cpus@[a].current);
            assert(s.smp.cpus@[b].current == old(s).smp.cpus@[b].current);
        }
        assert forall|i: int|
            0 <= i < s.tasks@.len() && (#[trigger] s.tasks@[i]).state == State::Running implies is_with(
            s.smp.cpus@,
            s.tasks@[i].owner_cpu,
            i,
        ) by {
            assert(s.tasks@[i] == old(s).tasks@[i]);
            assert(is_with(old(s).smp.cpus@, s.tasks@[i].owner_cpu, i));
        }
    }
}

/// Why the stall diagnostic reports.
#[derive(Clone, Copy, PartialEq, Eq, Debug)]
pub enum StallWhy {
    /// One task kept the CPU although others were ready.
    Runaway,
    /// A due task was not made ready.
    NothingReady,
}

/// A task that the wake pass should have made ready.
pub open spec fn overlooked(t: Task, e: Events) -> bool {
    ||| t.state == State::Sleeping && e.now_ms >= t.sleep_until_ms
    ||| t.state == State::Blocked && ((t.blocked_on_input && e.line_pending) || (t.blocked_on_raw
        && e.raw_pending))
}

/// One more, at most 2^32 - 1.
pub open spec fn bump32(n: u32) -> u32 {
    if n == u32::MAX {
        n
    } else {
        (n + 1) as u32
    }
}

/// The counters after a tick on which the current task was kept.
pub open spec fn stall_after(st: Stall, ts: Seq<Task>, cur: usize, best: usize, e: Events) -> Stall {
    if ts[cur as int].priority == PRIO_RT {
        Stall { kept: 0, stuck: 0, ..st }
    } else {
        let none = best == IDLE_INDEX;
        let stuck_now = none && exists|i: int|
            0 <= i < ts.len() && overlooked(#[trigger] ts[i], e);
        let stuck = if stuck_now {
            bump32(st.stuck)
        } else {
            0
        };
        let kept = bump32(st.kept);
        Stall {
            kept,
            stuck,
            kept_reported: st.kept_reported || (kept >= 150 && !none),
            stuck_reported: st.stuck_reported || stuck >= 8,
        }
    }
}

/// What the diagnostic reports on the way from `a` to `b`, each kind once.
pub open spec fn stall_report(a: Stall, b: Stall) -> Option<StallWhy> {
    if b.stuck_reported && !a.stuck_reported {
        Some(StallWhy::NothingReady)
    } else if b.kept_reported && !a.kept_reported {
        Some(StallWhy::Runaway)
    } else {
        None
    }
}

/// The stall diagnostic of a tick on which the current task was kept. Real-time
/// tasks are kept by design and do not count.
pub fn stall_tick(s: &mut Sched, cur: usize, best: usize, e: Events) -> (r: Option<StallWhy>)
    requires
        old(s).wf(),
        cur < old(s).tasks@.len(),
    ensures
        final(s).wf(),
        dead_stay(old(s).tasks@, final(s).tasks@),
        final(s).tasks@ == old(s).tasks@,
        final(s).next_id == old(s).next_id,
        final(s).smp == old(s).smp,
        final(s).stall == stall_after(old(s).stall, old(s).tasks@, cur, best, e),
        r == stall_report(old(s).stall, final(s).stall),
{
    let mut st = s.stall;
    let before = st;
    if s.tasks[cur].priority == PRIO_RT {
        st.kept = 0;
        st.stuck = 0;
        s.stall = st;
        return None;
    }
    let none = best == IDLE_INDEX;
    let mut stuck = false;
    if none {
        let mut i: usize = 0;
        while i < s.tasks.len() && !stuck
            invariant
                i <= s.tasks@.len(),
                *s == *old(s),
                stuck ==> exists|k: int| 0 <= k < s.tasks@.len() && overlooked(
                    #[trigger] s.tasks@[k],
                    e,
                ),
                !stuck ==> forall|k: int| 0 <= k < i ==> !overlooked(#[trigger] s.tasks@[k], e),
            decreases s.tasks@.len() - i,
        {
            let t = s.tasks[i];
            let overdue = t.state == State::Sleeping && e.now_ms >= t.sleep_until_ms;
            let ready = t.state == State::Blocked && ((t.blocked_on_input && e.line_pending) || (
            t.blocked_on_raw && e.raw_pending));
            if overdue || ready {
                assert(overlooked(s.tasks@[i as int], e));
                stuck = true;
            }
            i += 1;
        }
    }
    st.stuck = if stuck {
        if st.stuck == u32::MAX {
            u32::MAX
        } else {
            st.stuck + 1
        }
    } else {
        0
    };
    st.kept = if st.kept == u32::MAX {
        u32::MAX
    } else {
        st.kept + 1
    };
    let runaway = st.kept >= 150 && !none && !st.kept_reported;
    let vanished = st.stuck >= 8 && !st.stuck_reported;
    if runaway {
        st.kept_reported = true;
    }
    if vanished {
        st.stuck_reported = true;
    }
    s.stall = st;
    if vanished {
        Some(StallWhy::NothingReady)
    } else if runaway {
        Some(StallWhy::Runaway)
    } else {
        None
    }
}

/// The number that a report shows for a state.
pub open spec fn state_no(s: State) -> nat {
    match s {
        State::Running => 0,
        State::Ready => 1,
        State::Sleeping => 2,
        State::Blocked => 3,
        State::Dead => 4,
    }
}

/// 1 for yes, 0 for no.
pub open spec fn flag(b: bool) -> nat {
    if b {
        1
    } else {
        0
    }
}

/// The first line of a stall report: the task that is kept and for how long,
/// the task that would have run (id 0 and the largest 32-bit priority for
/// none), and the reason.
pub open spec fn stall_head(s: Sched, cur: usize, best: usize, why: StallWhy) -> Seq<char> {
    let none = best == IDLE_INDEX;
    "[stall] cur="@ + dec(cur as nat) + " held="@ + dec(s.stall.kept as nat) + " ticks best_id="@
        + dec(if none { 0 } else { s.tasks@[best as int].id as nat }) + " best_prio="@ + dec(
        if none { u32::MAX as nat } else { s.tasks@[best as int].priority as nat },
    ) + " rt="@ + dec(flag(s.tasks@[cur as int].priority == PRIO_RT)) + " why="@ + match why {
        StallWhy::NothingReady => "nothing-ready"@,
        StallWhy::Runaway => "runaway"@,
    }
}

/// The line of a stall report on task `i`.
pub open spec fn stall_row(i: int, t: Task) -> Seq<char> {
    "[stall] i="@ + dec(i as nat) + " id="@ + dec(t.id as nat) + " st="@ + dec(state_no(t.state))
        + " prio="@ + dec(t.priority as nat) + " sl="@ + dec(t.slice_left as nat) + " in="@ + dec(
        flag(t.blocked_on_input),
    ) + " raw="@ + dec(flag(t.blocked_on_raw)) + " ch="@ + dec(flag(t.blocked_on_child))
}

/// Append 1 for yes, 0 for no.
fn push_flag(s: &mut String, b: bool)
    ensures
        final(s)@ == old(s)@ + dec(flag(b)),
{
    push_dec(s, if b { 1 } else { 0 });
}

fn stall_head_line(s: &Sched, cur: usize, best: usize, why: StallWhy) -> (r: String)
    requires
        cur < s.tasks@.len(),
        best == IDLE_INDEX || best < s.tasks@.len(),
    ensures
        r@ == stall_head(*s, cur, best, why),
{
    let mut l = String::from_str("[stall] cur=");
    push_dec(&mut l, cur as u64);
    l.append(" held=");
    push_dec(&mut l, s.stall.kept as u64);
    l.append(" ticks best_id=");
    push_dec(&mut l, if best == IDLE_INDEX { 0 } else { s.tasks[best].id });
    l.append(" best_prio=");
    push_dec(&mut l, if best == IDLE_INDEX { u32::MAX as u64 } else { s.tasks[best].priority as u64 });
    l.append(" rt=");
    push_flag(&mut l, s.tasks[cur].priority == PRIO_RT);
    l.append(" why=");
    match why {
        StallWhy::NothingReady => l.append("nothing-ready"),
        StallWhy::Runaway => l.append("runaway"),
    }
    l
}

fn stall_row_line(i: usize, t: Task) -> (r: String)
    ensures
        r@ == stall_row(i as int, t),
{
    let mut l = String::from_str("[stall] i=");
    push_dec(&mut l, i as u64);
    l.append(" id=");
    push_dec(&mut l, t.id);
    l.append(" st=");
    let st: u64 = match t.state {
        State::Running => 0,
        State::Ready => 1,
        State::Sleeping => 2,
        State::Blocked => 3,
        State::Dead => 4,
    };
    push_dec(&mut l, st);
    l.append(" prio=");
    push_dec(&mut l, t.priority as u64);
    l.append(" sl=");
    push_dec(&mut l, t.slice_left as u64);
    l.append(" in=");
    push_flag(&mut l, t.blocked_on_input);
    l.append(" raw=");
    push_flag(&mut l, t.blocked_on_raw);
    l.append(" ch=");
    push_flag(&mut l, t.blocked_on_child);
    l
}

/// The stall report: what is stalled and why, then the task table.
pub fn stall_lines(s: &Sched, cur: usize, best: usize, why: StallWhy) -> (r: Vec<String>)
    requires
        cur < s.tasks@.len(),
        best == IDLE_INDEX || best < s.tasks@.len(),
    ensures
        r@.len() == s.tasks@.len() + 1,
        r@[0]@ == stall_head(*s, cur, best, why),
        forall|k: int|
            0 < k < r@.len() ==> (#[trigger] r@[k])@ == stall_row(k - 1, s.tasks@[k - 1]),
{
    let mut r: Vec<String> = Vec::new();
    r.push(stall_head_line(s, cur, best, why));
    let mut i: usize = 0;
    while i < s.tasks.len()
        invariant
            i <= s.tasks@.len(),
            r@.len() == i + 1,
            r@[0]@ == stall_head(*s, cur, best, why),
            forall|k: int|
                0 < k < r@.len() ==> (#[trigger] r@[k])@ == stall_row(k - 1, s.tasks@[k - 1]),
        decreases s.tasks@.len() - i,
    {
        r.push(stall_row_line(i, s.tasks[i]));
        i += 1;
    }
    r
}

/// A switch: from one context to another (`usize::MAX` is the CPU's idle
/// context), and the kernel stack for interrupts from user mode.
#[derive(Clone, Copy, PartialEq, Eq, Debug, Structural)]
pub struct Switch {
    pub old: usize,
    pub new: usize,
    pub kstack_top: u64,
}

/// The table with a millisecond off the current task's slice.
pub open spec fn ticked(ts: Seq<Task>, cur: usize) -> Seq<Task> {
    if cur != IDLE_INDEX && ts[cur as int].state == State::Running && ts[cur as int].slice_left > 0 {
        ts.update(
            cur as int,
            Task { slice_left: (ts[cur as int].slice_left - 1) as u32, ..ts[cur as int] },
        )
    } else {
        ts
    }
}

/// The current task runs.
pub open spec fn cur_runs(ts: Seq<Task>, cur: usize) -> bool {
    cur != IDLE_INDEX && ts[cur as int].state == State::Running
}

/// The current task keeps the CPU: it runs, and nothing is ready, or it is a
/// real-time task, or it has time left and nothing more urgent is ready.
pub open spec fn keeps(ts: Seq<Task>, cur: usize, best: usize) -> bool {
    cur_runs(ts, cur) && (best == IDLE_INDEX || ts[cur as int].priority == PRIO_RT || (
    ts[cur as int].slice_left > 0 && ts[best as int].priority >= ts[cur as int].priority))
}

/// The claimed task: running on CPU `me` with a fresh slice.
pub open spec fn claimed(t: Task, me: usize) -> Task {
    Task { state: State::Running, owner_cpu: me as u8, slice_left: slice_of(t.priority), ..t }
}

/// The table once CPU `me` took `best`.
pub open spec fn claim(ts: Seq<Task>, best: usize, me: usize) -> Seq<Task> {
    if best == IDLE_INDEX {
        ts
    } else {
        ts.update(best as int, claimed(ts[best as int], me))
    }
}

/// The CPU's block once it runs `best`: the task it ran, whatever state that
/// is in, is to be released after the switch, and the switch is counted.
pub open spec fn switched_cpu(c: PerCpu, best: usize) -> PerCpu {
    PerCpu {
        current: best,
        pending_prev: c.current,
        switches: ((c.switches + 1) % 0x1_0000_0000_0000_0000) as u64,
        ..c
    }
}

/// The switch to `best`.
pub open spec fn the_switch(ts: Seq<Task>, c: PerCpu, best: usize) -> Switch {
    Switch {
        old: c.current,
        new: best,
        kstack_top: if best == IDLE_INDEX {
            c.idle_kstack_top
        } else {
            ts[best as int].kstack_top
        },
    }
}

/// Where the turn starts.
pub open spec fn turn_start(cur: usize) -> int {
    if cur == IDLE_INDEX {
        0
    } else {
        cur + 1
    }
}

/// What a scheduling tick on CPU `me` decides, with `best` the task to run:
/// the switch (`None` to stay), the table, the CPU's block and the counters.
/// A current task that offered the CPU and is picked again runs on.
pub open spec fn decided(o: Sched, n: Sched, me: usize, e: Events, best: usize, r: Option<Switch>) -> bool {
    let c = o.smp.cpus@[me as int];
    let cur = c.current;
    let ts = ticked(wake_pass(o.tasks@, e), cur);
    let quiet = Stall { kept: 0, stuck: 0, ..o.stall };
    if keeps(ts, cur, best) {
        &&& r is None
        &&& n.tasks@ == ts
        &&& n.smp == o.smp
        &&& n.stall == if me == 0 {
            stall_after(o.stall, ts, cur, best, e)
        } else {
            o.stall
        }
    } else if best == cur {
        &&& r is None
        &&& n.tasks@ == claim(ts, best, me)
        &&& n.smp == o.smp
        &&& n.stall == quiet
    } else {
        &&& n.tasks@ == claim(ts, best, me)
        &&& n.smp.low_page == o.smp.low_page
        &&& n.smp.cpus@ == o.smp.cpus@.update(me as int, switched_cpu(c, best))
        &&& n.stall == quiet
        &&& r == Some(the_switch(ts, c, best))
    }
}

/// Take a millisecond off the current task's slice.
fn charge(s: &mut Sched, cur: usize)
    requires
        old(s).wf(),
        cur == IDLE_INDEX || cur < old(s).tasks@.len(),
    ensures
        final(s).wf(),
        dead_stay(old(s).tasks@, final(s).tasks@),
        final(s).same_but_tasks(*old(s)),
        final(s).tasks@ == ticked(old(s).tasks@, cur),
{
    if cur != IDLE_INDEX {
        let t = s.tasks[cur];
        if t.state == State::Running && t.slice_left > 0 {
            let mut u = t;
            u.slice_left = t.slice_left - 1;
            put_task(s, cur, u);
        }
    }
}

/// Claim the task of CPU `me`.
fn take(s: &mut Sched, me: usize, best: usize)
    requires
        old(s).wf(),
        me < MAX_CPUS,
        best == IDLE_INDEX || best < old(s).tasks@.len(),
        best == old(s).cur(me),
        best != IDLE_INDEX ==> old(s).tasks@[best as int].state != State::Dead,
    ensures
        final(s).wf(),
        dead_stay(old(s).tasks@, final(s).tasks@),
        final(s).same_but_tasks(*old(s)),
        final(s).tasks@ == claim(old(s).tasks@, best, me),
{
    if best != IDLE_INDEX {
        let mut u = s.tasks[best];
        u.slice_left = fresh_slice(u.priority);
        u.state = State::Running;
        u.owner_cpu = me as u8;
        put_task(s, best, u);
    }
}

/// A CPU that takes a task no other one holds leaves the CPUs apart.
proof fn lemma_apart(cpus: Seq<PerCpu>, me: usize, n: PerCpu)
    requires
        cpus.len() == 4,
        apart(cpus),
        me < MAX_CPUS,
        n.current == IDLE_INDEX || !held(cpus, me, n.current as int),
        n.pending_prev == cpus[me as int].current,
    ensures
        apart(cpus.update(me as int, n)),
{
    let us = cpus.update(me as int, n);
    assert forall|a: int, b: int|
        0 <= a < 4 && 0 <= b < 4 && a != b && (#[trigger] us[a]).current != IDLE_INDEX implies us[a].current
        != (#[trigger] us[b]).current && us[a].current != us[b].pending_prev by {
        if a == me {
            assert(us[b] == cpus[b]);
        } else if b == me {
            assert(us[a] == cpus[a]);
            assert(cpus[a].current != cpus[me as int].current);
        } else {
            assert(us[a] == cpus[a] && us[b] == cpus[b]);
        }
    }
}

/// Make `best` the task of CPU `me`, and note the one it suspends.
fn commit(s: &mut Sched, me: usize, best: usize) -> (r: Switch)
    requires
        old(s).wf(),
        me < MAX_CPUS,
        old(s).tasks@.len() < IDLE_INDEX,
        old(s).smp.cpus@[me as int].pending_prev == IDLE_INDEX,
        best == IDLE_INDEX || on_offer(old(s).tasks@, old(s).smp.cpus@, me, best as int),
    ensures
        final(s).wf(),
        dead_stay(old(s).tasks@, final(s).tasks@),
        final(s).next_id == old(s).next_id,
        final(s).stall == old(s).stall,
        final(s).smp.low_page == old(s).smp.low_page,
        final(s).tasks@ == claim(old(s).tasks@, best, me),
        final(s).smp.cpus@ == old(s).smp.cpus@.update(
            me as int,
            switched_cpu(old(s).smp.cpus@[me as int], best),
        ),
        r == the_switch(old(s).tasks@, old(s).smp.cpus@[me as int], best),
{
    let mut c = s.smp.cpus[me];
    assert(cpu_ok(s.smp.cpus@[me as int], s.tasks@.len()));
    let cur = c.current;
    c.pending_prev = cur;
    let ktop = if best == IDLE_INDEX {
        c.idle_kstack_top
    } else {
        s.tasks[best].kstack_top
    };
    c.current = best;
    c.switches = c.switches.wrapping_add(1);
    proof {
        lemma_apart(s.smp.cpus@, me, c);
    }
    s.smp.cpus[me] = c;
    proof {
        assert forall|k: int| 0 <= k < 4 implies cpu_ok(
            #[trigger] s.smp.cpus@[k],
            s.tasks@.len(),
        ) by {
            assert(cpu_ok(old(s).smp.cpus@[k], old(s).tasks@.len()));
        }
        assert forall|i: int|
            0 <= i < s.tasks@.len() && (#[trigger] s.tasks@[i]).state == State::Running implies is_with(
            s.smp.cpus@,
            s.tasks@[i].owner_cpu,
            i,
        ) by {
            assert(is_with(old(s).smp.cpus@, s.tasks@[i].owner_cpu, i));
        }
    }
    take(s, me, best);
    Switch { old: cur, new: best, kstack_top: ktop }
}

/// A stall to report: the task that is kept, the task that would have run and
/// the reason.
#[derive(Clone, Copy, PartialEq, Eq, Debug)]
pub struct StallReport {
    pub cur: usize,
    pub best: usize,
    pub why: StallWhy,
}

/// What is reported of a tick that took the counters from `a` to `b`.
pub open spec fn reported(a: Stall, b: Stall, cur: usize, best: usize) -> Option<StallReport> {
    match stall_report(a, b) {
        Some(why) => Some(StallReport { cur, best, why }),
        None => None,
    }
}

/// One scheduling tick on CPU `me`, which has released what it suspended last:
/// wake what is due, charge the current task, pick the task to run, and keep or
/// switch.
pub fn plan_switch(s: &mut Sched, me: usize, e: Events) -> (r: (Option<Switch>, Option<StallReport>))
    requires
        old(s).wf(),
        me < MAX_CPUS,
        old(s).tasks@.len() < IDLE_INDEX,
        old(s).smp.cpus@[me as int].pending_prev == IDLE_INDEX,
    ensures
        final(s).wf(),
        dead_stay(old(s).tasks@, final(s).tasks@),
        final(s).next_id == old(s).next_id,
        old(s).tasks@.len() == 0 ==> r.0 is None && r.1 is None && *final(s) == *old(s),
        old(s).tasks@.len() > 0 ==> exists|best: usize|
            {
                &&& is_pick(
                    ticked(wake_pass(old(s).tasks@, e), old(s).cur(me)),
                    old(s).smp.cpus@,
                    me,
                    turn_start(old(s).cur(me)),
                    best,
                )
                &&& #[trigger] decided(*old(s), *final(s), me, e, best, r.0)
                &&& r.1 == reported(old(s).stall, final(s).stall, old(s).cur(me), best)
            },
        r.1 matches Some(x) ==> x.cur < final(s).tasks@.len() && (x.best == IDLE_INDEX || x.best
            < final(s).tasks@.len()),
{
    let n = s.tasks.len();
    if n == 0 {
        return (None, None);
    }
    let cur = s.smp.cpus[me].current;
    assert(cpu_ok(s.smp.cpus@[me as int], s.tasks@.len()));
    wake_state(s, e);
    charge(s, cur);
    let ghost ts = s.tasks@;
    let start = if cur == IDLE_INDEX {
        0
    } else {
        cur + 1
    };
    let best = pick(s, me, start);
    let cur_running = cur != IDLE_INDEX && s.tasks[cur].state == State::Running;
    let mut keep = false;
    if cur_running {
        let t = s.tasks[cur];
        keep = best == IDLE_INDEX || t.priority == PRIO_RT || (t.slice_left > 0
            && s.tasks[best].priority >= t.priority);
    }
    assert(keep == keeps(ts, cur, best));
    if keep {
        if me == 0 {
            let why = stall_tick(s, cur, best, e);
            assert(decided(*old(s), *s, me, e, best, None));
            return match why {
                Some(why) => (None, Some(StallReport { cur, best, why })),
                None => (None, None),
            };
        }
        assert(decided(*old(s), *s, me, e, best, None));
        return (None, None);
    }
    s.stall.kept = 0;
    s.stall.stuck = 0;
    if best == cur {
        take(s, me, best);
        assert(decided(*old(s), *s, me, e, best, None));
        return (None, None);
    }
    let sw = commit(s, me, best);
    assert(decided(*old(s), *s, me, e, best, Some(sw)));
    (Some(sw), None)
}

/// Reschedule CPU `me`: release what it suspended last, then decide.
pub fn preempt(s: &mut Sched, me: usize, e: Events) -> (r: (Option<Switch>, Option<StallReport>))
    requires
        old(s).wf(),
        me < MAX_CPUS,
        old(s).tasks@.len() < IDLE_INDEX,
    ensures
        final(s).wf(),
        dead_stay(old(s).tasks@, final(s).tasks@),
        final(s).next_id == old(s).next_id,
        old(s).tasks@.len() > 0 ==> exists|mid: Sched, best: usize|
            {
                let ts = ticked(wake_pass(mid.tasks@, e), mid.cur(me));
                &&& is_released(*old(s), mid, me)
                &&& is_pick(ts, mid.smp.cpus@, me, turn_start(mid.cur(me)), best)
                &&& #[trigger] decided(mid, *final(s), me, e, best, r.0)
                &&& r.1 == reported(old(s).stall, final(s).stall, old(s).cur(me), best)
            },
        r.1 matches Some(x) ==> x.cur < final(s).tasks@.len() && (x.best == IDLE_INDEX || x.best
            < final(s).tasks@.len()),
        old(s).tasks@.len() == 0 ==> r.0 is None && r.1 is None && is_released(
            *old(s),
            *final(s),
            me,
        ),
{
    release_pending_prev(s, me);
    let ghost mid = *s;
    plan_switch(s, me, e)
}

/// Two CPUs never run the same task, and none runs a task that another has yet
/// to release.
pub proof fn law_one_cpu_per_task(s: Sched, a: usize, b: usize)
    requires
        s.wf(),
        a < MAX_CPUS,
        b < MAX_CPUS,
        a != b,
        s.cur(a) != IDLE_INDEX,
    ensures
        s.cur(a) != s.cur(b),
        s.cur(a) != s.smp.cpus@[b as int].pending_prev,
{
}

/// A task that offers the CPU, sleeps or waits stays with its CPU until that
/// has switched away and scheduled again: a tick elsewhere does not take it,
/// and does no more to it than wake it.
pub proof fn law_held_until_released(o: Sched, n: Sched, me: usize, e: Events, best: usize, r: Option<
    Switch,
>, other: usize)
    requires
        o.wf(),
        me < MAX_CPUS,
        other < MAX_CPUS,
        other != me,
        is_pick(
            ticked(wake_pass(o.tasks@, e), o.cur(me)),
            o.smp.cpus@,
            me,
            turn_start(o.cur(me)),
            best,
        ),
        decided(o, n, me, e, best, r),
    ensures
        n.smp.cpus@[other as int] == o.smp.cpus@[other as int],
        o.cur(other) != IDLE_INDEX ==> n.cur(me) != o.cur(other),
        o.smp.cpus@[other as int].pending_prev != IDLE_INDEX ==> n.cur(me)
            != o.smp.cpus@[other as int].pending_prev,
        forall|i: int|
            0 <= i < o.tasks@.len() && (i == o.cur(other) || i
                == o.smp.cpus@[other as int].pending_prev) ==> #[trigger] n.tasks@[i]
                == wake_pass(o.tasks@, e)[i],
{
    let q = o.smp.cpus@[other as int];
    if best != IDLE_INDEX {
        assert(on_offer(
            ticked(wake_pass(o.tasks@, e), o.cur(me)),
            o.smp.cpus@,
            me,
            best as int,
        ));
        assert(!held(o.smp.cpus@, me, best as int));
    }
    let p = o.smp.cpus@[me as int];
    assert(p.current != IDLE_INDEX ==> p.current != q.current && p.current != q.pending_prev);
}

/// After a tick a CPU is idle or the task on it runs.
pub proof fn law_current_runs(o: Sched, n: Sched, me: usize, e: Events, best: usize, r: Option<Switch>)
    requires
        o.wf(),
        me < MAX_CPUS,
        is_pick(
            ticked(wake_pass(o.tasks@, e), o.cur(me)),
            o.smp.cpus@,
            me,
            turn_start(o.cur(me)),
            best,
        ),
        decided(o, n, me, e, best, r),
    ensures
        n.cur(me) == IDLE_INDEX || cur_task(n, me).state == State::Running,
{
    assert(cpu_ok(o.smp.cpus@[me as int], o.tasks@.len()));
}

/// Changing what a CPU's block holds beside its tasks, as its start does, leaves
/// the scheduler in order.
pub proof fn law_blocks_change_in_order(o: Sched, n: Sched)
    requires
        o.wf(),
        n.tasks == o.tasks,
        n.next_id == o.next_id,
        forall|c: int|
            0 <= c < 4 ==> (#[trigger] n.smp.cpus@[c]).current == o.smp.cpus@[c].current
                && n.smp.cpus@[c].pending_prev == o.smp.cpus@[c].pending_prev,
    ensures
        n.wf(),
{
    assert forall|c: int| 0 <= c < 4 implies cpu_ok(
        #[trigger] n.smp.cpus@[c],
        n.tasks@.len(),
    ) by {
        assert(cpu_ok(o.smp.cpus@[c], o.tasks@.len()));
    }
    assert forall|a: int, b: int|
        0 <= a < 4 && 0 <= b < 4 && a != b && (#[trigger] n.smp.cpus@[a]).current
            != IDLE_INDEX implies n.smp.cpus@[a].current != (#[trigger] n.smp.cpus@[b]).current
        && n.smp.cpus@[a].current != n.smp.cpus@[b].pending_prev by {
        assert(o.smp.cpus@[a].current == n.smp.cpus@[a].current);
        assert(o.smp.cpus@[b].current == n.smp.cpus@[b].current);
    }
    assert forall|i: int|
        0 <= i < n.tasks@.len() && (#[trigger] n.tasks@[i]).state == State::Running implies is_with(
        n.smp.cpus@,
        n.tasks@[i].owner_cpu,
        i,
    ) by {
        assert(is_with(o.smp.cpus@, o.tasks@[i].owner_cpu, i));
    }
}

/// A task that is marked running is with the CPU it names as its owner, and no
/// other CPU runs it.
pub proof fn law_running_tasks_are_owned(s: Sched, i: int, cpu: usize)
    requires
        s.wf(),
        s.tasks@.len() < IDLE_INDEX,
        0 <= i < s.tasks@.len(),
        s.tasks@[i].state == State::Running,
        cpu < MAX_CPUS,
    ensures
        is_with(s.smp.cpus@, s.tasks@[i].owner_cpu, i),
        s.cur(cpu) == i ==> s.tasks@[i].owner_cpu == cpu,
{
    let o = s.tasks@[i].owner_cpu as int;
    assert(is_with(s.smp.cpus@, s.tasks@[i].owner_cpu, i));
    if s.cur(cpu) == i && o != cpu {
        assert(s.smp.cpus@[cpu as int].current != s.smp.cpus@[o].current);
    }
}

/// A CPU claims only a task that neither ran nor was dead; what runs stays with
/// its owner, and what is dead stays dead.
pub proof fn law_claims_only_ready(o: Sched, n: Sched, me: usize, e: Events, best: usize, r: Option<
    Switch,
>, i: int)
    requires
        o.wf(),
        me < MAX_CPUS,
        is_pick(
            ticked(wake_pass(o.tasks@, e), o.cur(me)),
            o.smp.cpus@,
            me,
            turn_start(o.cur(me)),
            best,
        ),
        decided(o, n, me, e, best, r),
        0 <= i < o.tasks@.len(),
    ensures
        r matches Some(sw) ==> sw.new != IDLE_INDEX ==> o.tasks@[sw.new as int].state
            != State::Running && o.tasks@[sw.new as int].state != State::Dead
            && n.tasks@[sw.new as int].state == State::Running && n.tasks@[sw.new as int].owner_cpu
            == me,
        o.tasks@[i].state == State::Running ==> n.tasks@[i].state == State::Running
            && n.tasks@[i].owner_cpu == o.tasks@[i].owner_cpu,
        o.tasks@[i].state == State::Dead ==> n.tasks@[i].state == State::Dead,
{
    assert(cpu_ok(o.smp.cpus@[me as int], o.tasks@.len()));
    law_wake_pass(o.tasks@, e, i);
    let ts = ticked(wake_pass(o.tasks@, e), o.cur(me));
    if best != IDLE_INDEX {
        assert(on_offer(ts, o.smp.cpus@, me, best as int));
        law_wake_pass(o.tasks@, e, best as int);
    }
}

/// Every switch of a CPU is counted there, and nothing else is: the counter of
/// a CPU tells whether it switched between two readings.
pub proof fn law_switches_are_counted(o: Sched, n: Sched, me: usize, e: Events, best: usize, r: Option<
    Switch,
>, cpu: int)
    requires
        o.wf(),
        me < MAX_CPUS,
        0 <= cpu < MAX_CPUS,
        decided(o, n, me, e, best, r),
    ensures
        n.smp.cpus@[cpu].switches == if r is Some && cpu == me {
            (o.smp.cpus@[cpu].switches + 1) % 0x1_0000_0000_0000_0000
        } else {
            o.smp.cpus@[cpu].switches as int
        },
{
}

/// A ready task that no other CPU holds is never passed over for a less urgent
/// one.
pub proof fn law_urgent_first(ts: Seq<Task>, cpus: Seq<PerCpu>, me: usize, start: int, best: usize, i: int)
    requires
        is_pick(ts, cpus, me, start, best),
        on_offer(ts, cpus, me, i),
    ensures
        best != IDLE_INDEX,
        ts[best as int].priority <= ts[i].priority,
{
}

/// The tasks are as urgent, and CPU `me` owns both or neither.
pub open spec fn equals(ts: Seq<Task>, me: usize, a: int, b: int) -> bool {
    ts[a].priority == ts[b].priority && (ts[a].owner_cpu == me) == (ts[b].owner_cpu == me)
}

/// A task that an equal one was picked before is nearer to its turn the next
/// time.
pub proof fn law_equals_take_turns(ts: Seq<Task>, cpus: Seq<PerCpu>, me: usize, start: int, best: usize, i: int)
    requires
        is_pick(ts, cpus, me, start, best),
        0 <= start <= ts.len(),
        best != IDLE_INDEX,
        i != best,
        on_offer(ts, cpus, me, i),
        equals(ts, me, best as int, i),
    ensures
        0 <= turn(i, turn_start(best), ts.len() as int) < turn(i, start, ts.len() as int) < ts.len(),
{
    let n = ts.len() as int;
    lemma_turn_range(i, turn_start(best), n);
    lemma_turn_range(i, start, n);
    lemma_turn_value(i, start, n);
    lemma_turn_value(best as int, start, n);
    lemma_turn_value(i, turn_start(best), n);
    assert(goes_before(ts, me, start, best as int, i));
}

pub(crate) proof fn lemma_turn_value(i: int, start: int, n: int)
    requires
        0 <= i < n,
        0 <= start <= n,
    ensures
        turn(i, start, n) == if i >= start { i - start } else { i - start + n },
{
    let a = i - start + n;
    assert(a % n == if a < n { a } else { a - n }) by (nonlinear_arith)
        requires
            0 <= a < 2 * n,
            0 < n,
    ;
}

/// Where the turn starts for pick number `j` of a run that began at `start`.
pub open spec fn run_start(picks: Seq<usize>, start: int, j: int) -> int {
    if j == 0 { start } else { turn_start(picks[j - 1]) }
}

/// A run of picks on CPU `me`, each of an equal of task `i`, which is on offer
/// all along and is not picked.
pub open spec fn passes_over(
    tables: Seq<Seq<Task>>,
    blocks: Seq<Seq<PerCpu>>,
    picks: Seq<usize>,
    me: usize,
    start: int,
    n: int,
    i: int,
) -> bool {
    &&& tables.len() == picks.len()
    &&& blocks.len() == picks.len()
    &&& forall|j: int|
        0 <= j < picks.len() ==> {
            &&& (#[trigger] tables[j]).len() == n
            &&& is_pick(tables[j], blocks[j], me, run_start(picks, start, j), picks[j])
            &&& picks[j] != IDLE_INDEX
            &&& picks[j] != i
            &&& on_offer(tables[j], blocks[j], me, i)
            &&& equals(tables[j], me, picks[j] as int, i)
        }
}

/// No task on offer is passed over for its equals as often as there are tasks.
pub proof fn law_every_turn_comes(
    tables: Seq<Seq<Task>>,
    blocks: Seq<Seq<PerCpu>>,
    picks: Seq<usize>,
    me: usize,
    start: int,
    n: int,
    i: int,
)
    requires
        0 <= i < n,
        0 <= start <= n,
        passes_over(tables, blocks, picks, me, start, n, i),
    ensures
        picks.len() < n,
{
    lemma_turn_range(i, start, n);
    lemma_nearer(tables, blocks, picks, me, start, n, i, picks.len() as int);
}

proof fn lemma_nearer(
    tables: Seq<Seq<Task>>,
    blocks: Seq<Seq<PerCpu>>,
    picks: Seq<usize>,
    me: usize,
    start: int,
    n: int,
    i: int,
    k: int,
)
    requires
        0 <= i < n,
        0 <= start <= n,
        0 <= k <= picks.len(),
        passes_over(tables, blocks, picks, me, start, n, i),
    ensures
        0 <= run_start(picks, start, k) <= n,
        0 <= turn(i, run_start(picks, start, k), n),
        k + turn(i, run_start(picks, start, k), n) <= turn(i, start, n),
    decreases k,
{
    lemma_turn_range(i, run_start(picks, start, k), n);
    if k > 0 {
        lemma_nearer(tables, blocks, picks, me, start, n, i, k - 1);
        let j = k - 1;
        assert(tables[j].len() == n);
        law_equals_take_turns(tables[j], blocks[j], me, run_start(picks, start, j), picks[j], i);
    }
}

// ---------------------------------------------------------------------------
// Initial stacks
// ---------------------------------------------------------------------------

/// The words of a fresh task's stack from its stack pointer up: r15, r14, r13,
/// r12, rbp, rbx and the return address, as the switch pops them.
pub open spec fn stack_words(entry: u64, r14: u64, r15: u64) -> Seq<u64> {
    seq![r15, r14, 0, 0, 0, 0, entry]
}

/// The stack pointer of a fresh task whose stack ends at `top`, 16-byte aligned
/// there: at its entry the pointer is 8 below a 16-byte boundary.
pub open spec fn initial_sp(top: u64) -> int {
    (top - top % 16) - 8 - 56
}

/// The stack pointer and the words above it for a kernel task entered at
/// `entry`.
pub fn prepare_stack(top: u64, entry: u64) -> (r: (u64, [u64; 7]))
    requires
        top >= 4096,
    ensures
        r.0 == initial_sp(top),
        r.1@ == stack_words(entry, 0, 0),
        (r.0 + 56) % 16 == 8,
{
    let sp = (top - top % 16) - 64;
    let words: [u64; 7] = [0, 0, 0, 0, 0, 0, entry];
    assert(words@ =~= stack_words(entry, 0, 0));
    (sp, words)
}

/// The stack pointer and the words above it for a user task: its entry point
/// and stack travel in r15 and r14.
pub fn prepare_stack_user(top: u64, trampoline: u64, user_rip: u64, user_rsp: u64) -> (r: (
    u64,
    [u64; 7],
))
    requires
        top >= 4096,
    ensures
        r.0 == initial_sp(top),
        r.1@ == stack_words(trampoline, user_rsp, user_rip),
        (r.0 + 56) % 16 == 8,
{
    let sp = (top - top % 16) - 64;
    let words: [u64; 7] = [user_rip, user_rsp, 0, 0, 0, 0, trampoline];
    assert(words@ =~= stack_words(trampoline, user_rsp, user_rip));
    (sp, words)
}

} // verus!
