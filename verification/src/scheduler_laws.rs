//! What the scheduler owes its tasks: how long one keeps the CPU, when it loses
//! it and to whom, and when a CPU goes idle.
use crate::scheduler::{
    cur_runs, cur_task, decided, goes_before, has_zombie, id_at, is_pick, is_released, keeps,
    on_offer, orphaned, reapable, released, stall_after, stall_report, ticked, turn_start,
    wake_pass, Events, Sched, Stall, StallWhy, State, Switch, Task,
};
use crate::smp::{IDLE_INDEX, MAX_CPUS};
use vstd::prelude::*;

verus! {

/// Task `i` can run on CPU `me` at a tick with the events `e`: it is ready, or
/// made so by what came, and no other CPU holds it.
pub open spec fn can_run(o: Sched, me: usize, e: Events, i: int) -> bool {
    on_offer(wake_pass(o.tasks@, e), o.smp.cpus@, me, i)
}

/// A tick on CPU `me` that has released its last task, as `plan_switch` does it.
pub open spec fn planned(o: Sched, n: Sched, me: usize, e: Events, r: Option<Switch>) -> bool {
    exists|best: usize|
        {
            &&& is_pick(
                ticked(wake_pass(o.tasks@, e), o.cur(me)),
                o.smp.cpus@,
                me,
                turn_start(o.cur(me)),
                best,
            )
            &&& #[trigger] decided(o, n, me, e, best, r)
        }
}

/// A tick on CPU `me`, as `preempt` does it.
pub open spec fn tick(o: Sched, n: Sched, me: usize, e: Events, r: Option<Switch>) -> bool {
    exists|mid: Sched| #[trigger] is_released(o, mid, me) && planned(mid, n, me, e, r)
}

proof fn lemma_offer_same(o: Sched, me: usize, e: Events, i: int)
    requires
        o.wf(),
        me < MAX_CPUS,
    ensures
        on_offer(ticked(wake_pass(o.tasks@, e), o.cur(me)), o.smp.cpus@, me, i) == can_run(o, me, e, i),
        0 <= i < o.tasks@.len() ==> ticked(wake_pass(o.tasks@, e), o.cur(me))[i].priority
            == o.tasks@[i].priority && ticked(wake_pass(o.tasks@, e), o.cur(me))[i].owner_cpu
            == o.tasks@[i].owner_cpu && ticked(wake_pass(o.tasks@, e), o.cur(me))[i].kstack_top
            == o.tasks@[i].kstack_top,
        ticked(wake_pass(o.tasks@, e), o.cur(me)).len() == o.tasks@.len(),
{
    assert(crate::scheduler::cpu_ok(o.smp.cpus@[me as int], o.tasks@.len()));
}

/// A running task with more than one tick left of its slice is still current
/// after a tick, unless a more urgent task, one with a smaller priority number,
/// can run; and the tick costs it one millisecond of the slice.
pub proof fn law_slice_is_kept(o: Sched, n: Sched, me: usize, e: Events, r: Option<Switch>)
    requires
        o.wf(),
        me < MAX_CPUS,
        planned(o, n, me, e, r),
        o.cur(me) != IDLE_INDEX,
        cur_task(o, me).state == State::Running,
        cur_task(o, me).slice_left > 1,
        forall|i: int| #[trigger]
            can_run(o, me, e, i) ==> o.tasks@[i].priority >= cur_task(o, me).priority,
    ensures
        r is None,
        n.cur(me) == o.cur(me),
        cur_task(n, me).state == State::Running,
        cur_task(n, me).slice_left == cur_task(o, me).slice_left - 1,
        cur_task(n, me).priority == cur_task(o, me).priority,
        n.smp == o.smp,
{
    let cur = o.cur(me);
    let ts = ticked(wake_pass(o.tasks@, e), cur);
    let best = choose|best: usize|
        {
            &&& is_pick(ts, o.smp.cpus@, me, turn_start(cur), best)
            &&& #[trigger] decided(o, n, me, e, best, r)
        };
    assert(crate::scheduler::cpu_ok(o.smp.cpus@[me as int], o.tasks@.len()));
    lemma_offer_same(o, me, e, cur as int);
    lemma_offer_same(o, me, e, best as int);
    if best != IDLE_INDEX {
        assert(on_offer(ts, o.smp.cpus@, me, best as int));
        assert(can_run(o, me, e, best as int));
    }
    assert(keeps(ts, cur, best));
}

/// From a fresh slice of 8 a task keeps its CPU for the next 7 ticks there, as
/// long as no live task is more urgent.
pub proof fn law_full_slice(states: Seq<Sched>, evs: Seq<Events>, rs: Seq<Option<Switch>>, me: usize, j: int)
    requires
        me < MAX_CPUS,
        1 <= states.len() <= 8,
        evs.len() + 1 == states.len(),
        rs.len() == evs.len(),
        0 <= j < states.len(),
        forall|k: int| 0 <= k < states.len() ==> (#[trigger] states[k]).wf(),
        forall|k: int|
            0 <= k < evs.len() ==> tick(states[k], states[k + 1], me, evs[k], #[trigger] rs[k]),
        states[0].cur(me) != IDLE_INDEX,
        cur_task(states[0], me).state == State::Running,
        cur_task(states[0], me).slice_left == 8,
        forall|k: int, i: int|
            0 <= k < states.len() && 0 <= i < states[k].tasks@.len() && (
            #[trigger] states[k].tasks@[i]).state != State::Dead ==> states[k].tasks@[i].priority
                >= cur_task(states[0], me).priority,
    ensures
        states[j].cur(me) == states[0].cur(me),
        cur_task(states[j], me).state == State::Running,
        cur_task(states[j], me).slice_left == 8 - j,
        cur_task(states[j], me).priority == cur_task(states[0], me).priority,
    decreases j,
{
    if j > 0 {
        law_full_slice(states, evs, rs, me, j - 1);
        let o = states[j - 1];
        let n = states[j];
        let e = evs[j - 1];
        let r = rs[j - 1];
        assert(tick(states[j - 1], states[j - 1 + 1], me, evs[j - 1], rs[j - 1]));
        let mid = choose|mid: Sched| #[trigger] is_released(o, mid, me) && planned(mid, n, me, e, r);
        lemma_released_wf(o, mid, me);
        assert forall|i: int| #[trigger] can_run(mid, me, e, i) implies mid.tasks@[i].priority
            >= cur_task(mid, me).priority by {
            assert(mid.tasks@[i].state != State::Dead);
            assert(o.tasks@[i].state != State::Dead);
        }
        law_slice_is_kept(mid, n, me, e, r);
    }
}

/// Releasing keeps the scheduler in order and changes no task but from running
/// to ready, and not the current one.
proof fn lemma_released_wf(o: Sched, mid: Sched, me: usize)
    requires
        o.wf(),
        me < MAX_CPUS,
        is_released(o, mid, me),
    ensures
        mid.wf(),
        mid.cur(me) == o.cur(me),
        mid.tasks@.len() == o.tasks@.len(),
        forall|i: int|
            0 <= i < o.tasks@.len() ==> (#[trigger] mid.tasks@[i]) == o.tasks@[i] || (
            o.tasks@[i].state == State::Running && i != o.cur(me) && mid.tasks@[i] == (Task {
                state: State::Ready,
                ..o.tasks@[i]
            })),
        o.cur(me) != IDLE_INDEX ==> cur_task(mid, me) == cur_task(o, me),
{
    assert(crate::scheduler::cpu_ok(o.smp.cpus@[me as int], o.tasks@.len()));
    assert forall|c: int| 0 <= c < 4 implies crate::scheduler::cpu_ok(
        #[trigger] mid.smp.cpus@[c],
        mid.tasks@.len(),
    ) by {
        assert(crate::scheduler::cpu_ok(o.smp.cpus@[c], o.tasks@.len()));
    }
    assert forall|a: int, b: int|
        0 <= a < 4 && 0 <= b < 4 && a != b && (#[trigger] mid.smp.cpus@[a]).current
            != IDLE_INDEX implies mid.smp.cpus@[a].current != (#[trigger] mid.smp.cpus@[b]).current
        && mid.smp.cpus@[a].current != mid.smp.cpus@[b].pending_prev by {
        assert(o.smp.cpus@[a].current == mid.smp.cpus@[a].current);
        assert(o.smp.cpus@[b].current == mid.smp.cpus@[b].current);
    }
    assert forall|i: int|
        0 <= i < mid.tasks@.len() && (#[trigger] mid.tasks@[i]).state
            == State::Running implies crate::scheduler::is_with(
        mid.smp.cpus@,
        mid.tasks@[i].owner_cpu,
        i,
    ) by {
        assert(mid.tasks@[i] == o.tasks@[i]);
        assert(crate::scheduler::is_with(o.smp.cpus@, o.tasks@[i].owner_cpu, i));
    }
    assert(crate::scheduler::ids_ok(mid.tasks@)) by {
        assert forall|i: int| 0 <= i < o.tasks@.len() implies (#[trigger] mid.tasks@[i]).id
            == o.tasks@[i].id by {}
    }
    assert forall|i: int| 0 <= i < mid.tasks@.len() implies (#[trigger] mid.tasks@[i]).id
        < mid.next_id by {
        assert(o.tasks@[i].id < o.next_id);
    }
}

/// A task that is not real-time loses its CPU at a tick to a more urgent one
/// that can run, and at the end of its slice to one that is as urgent.
pub proof fn law_slice_ends(o: Sched, n: Sched, me: usize, e: Events, r: Option<Switch>, i: int)
    requires
        o.wf(),
        me < MAX_CPUS,
        planned(o, n, me, e, r),
        o.cur(me) != IDLE_INDEX,
        cur_task(o, me).priority != 0,
        can_run(o, me, e, i),
        i != o.cur(me),
        o.tasks@[i].priority < cur_task(o, me).priority || cur_task(o, me).slice_left <= 1 && o.tasks@[i].priority
            == cur_task(o, me).priority,
        cur_task(o, me).state == State::Running,
    ensures
        r is Some,
        n.cur(me) != o.cur(me),
        n.cur(me) != IDLE_INDEX,
        o.tasks@[n.cur(me) as int].priority <= o.tasks@[i].priority,
{
    let cur = o.cur(me);
    let ts = ticked(wake_pass(o.tasks@, e), cur);
    let best = choose|best: usize|
        {
            &&& is_pick(ts, o.smp.cpus@, me, turn_start(cur), best)
            &&& #[trigger] decided(o, n, me, e, best, r)
        };
    assert(crate::scheduler::cpu_ok(o.smp.cpus@[me as int], o.tasks@.len()));
    lemma_offer_same(o, me, e, cur as int);
    lemma_offer_same(o, me, e, best as int);
    lemma_offer_same(o, me, e, i);
    assert(best != IDLE_INDEX);
    assert(on_offer(ts, o.smp.cpus@, me, best as int));
    if best != i {
        assert(goes_before(ts, me, turn_start(cur), best as int, i));
    }
    assert(!keeps(ts, cur, best));
}

/// A running real-time task, one of priority 0, is kept at every tick.
pub proof fn law_real_time_is_kept(o: Sched, n: Sched, me: usize, e: Events, r: Option<Switch>)
    requires
        o.wf(),
        me < MAX_CPUS,
        planned(o, n, me, e, r),
        o.cur(me) != IDLE_INDEX,
        cur_task(o, me).state == State::Running,
        cur_task(o, me).priority == 0,
    ensures
        r is None,
        n.cur(me) == o.cur(me),
{
    let cur = o.cur(me);
    assert(crate::scheduler::cpu_ok(o.smp.cpus@[me as int], o.tasks@.len()));
    lemma_offer_same(o, me, e, cur as int);
    assert(cur_runs(ticked(wake_pass(o.tasks@, e), cur), cur));
}

/// A CPU is idle after a tick exactly where its task has stopped running and no
/// task can run there.
pub proof fn law_idle_when_nothing_can_run(o: Sched, n: Sched, me: usize, e: Events, r: Option<Switch>)
    requires
        o.wf(),
        me < MAX_CPUS,
        planned(o, n, me, e, r),
    ensures
        n.cur(me) == IDLE_INDEX <==> (o.cur(me) == IDLE_INDEX || cur_task(o, me).state
            != State::Running) && forall|i: int| !#[trigger] can_run(o, me, e, i),
{
    let cur = o.cur(me);
    let ts = ticked(wake_pass(o.tasks@, e), cur);
    let best = choose|best: usize|
        {
            &&& is_pick(ts, o.smp.cpus@, me, turn_start(cur), best)
            &&& #[trigger] decided(o, n, me, e, best, r)
        };
    assert(crate::scheduler::cpu_ok(o.smp.cpus@[me as int], o.tasks@.len()));
    if cur != IDLE_INDEX {
        lemma_offer_same(o, me, e, cur as int);
    }
    if best == IDLE_INDEX {
        assert forall|i: int| !#[trigger] can_run(o, me, e, i) by {
            lemma_offer_same(o, me, e, i);
        }
    } else {
        lemma_offer_same(o, me, e, best as int);
        assert(can_run(o, me, e, best as int));
    }
}

/// A task that sleeps, waits or is dead, and that nothing woke, gives its CPU up
/// at the tick.
pub proof fn law_stopped_tasks_leave(o: Sched, n: Sched, me: usize, e: Events, r: Option<Switch>)
    requires
        o.wf(),
        me < MAX_CPUS,
        planned(o, n, me, e, r),
        o.cur(me) != IDLE_INDEX,
        cur_task(o, me).state != State::Running,
        !can_run(o, me, e, o.cur(me) as int),
    ensures
        n.cur(me) != o.cur(me),
        r is Some,
{
    let cur = o.cur(me);
    let ts = ticked(wake_pass(o.tasks@, e), cur);
    let best = choose|best: usize|
        {
            &&& is_pick(ts, o.smp.cpus@, me, turn_start(cur), best)
            &&& #[trigger] decided(o, n, me, e, best, r)
        };
    assert(crate::scheduler::cpu_ok(o.smp.cpus@[me as int], o.tasks@.len()));
    lemma_offer_same(o, me, e, cur as int);
    if best == cur {
        assert(on_offer(ts, o.smp.cpus@, me, best as int));
    }
}

/// The task a CPU switches to could run, runs there now, and starts with a slice
/// of 8 milliseconds where its priority is the normal one, 1, and of 1 else; the
/// switch names the task it leaves, the one it enters and that one's own kernel
/// stack.
pub proof fn law_switched_to(o: Sched, n: Sched, me: usize, e: Events, r: Option<Switch>)
    requires
        o.wf(),
        me < MAX_CPUS,
        planned(o, n, me, e, r),
        r is Some,
    ensures
        r->0.old == o.cur(me),
        r->0.new == n.cur(me),
        n.cur(me) != o.cur(me),
        n.smp.cpus@[me as int].pending_prev == o.cur(me),
        n.cur(me) == IDLE_INDEX ==> r->0.kstack_top == o.smp.cpus@[me as int].idle_kstack_top,
        n.cur(me) != IDLE_INDEX ==> {
            let t = cur_task(n, me);
            &&& can_run(o, me, e, n.cur(me) as int)
            &&& t.state == State::Running
            &&& t.owner_cpu == me
            &&& t.slice_left == if t.priority == 1 {
                8int
            } else {
                1int
            }
            &&& r->0.kstack_top == t.kstack_top
        },
{
    let cur = o.cur(me);
    let ts = ticked(wake_pass(o.tasks@, e), cur);
    let best = choose|best: usize|
        {
            &&& is_pick(ts, o.smp.cpus@, me, turn_start(cur), best)
            &&& #[trigger] decided(o, n, me, e, best, r)
        };
    assert(crate::scheduler::cpu_ok(o.smp.cpus@[me as int], o.tasks@.len()));
    if best != IDLE_INDEX {
        assert(on_offer(ts, o.smp.cpus@, me, best as int));
        lemma_offer_same(o, me, e, best as int);
    }
}

/// Of the tasks that can run none is more urgent than the one switched to; none
/// as urgent is at home on this CPU where that one is not; and of those alike in
/// both the next one behind the task that ran, round the table, is taken.
pub proof fn law_who_is_next(o: Sched, n: Sched, me: usize, e: Events, r: Option<Switch>, i: int)
    requires
        o.wf(),
        me < MAX_CPUS,
        planned(o, n, me, e, r),
        r is Some,
        n.cur(me) != IDLE_INDEX,
        can_run(o, me, e, i),
        i != n.cur(me),
    ensures
        ({
            let b = n.cur(me) as int;
            let c = o.cur(me) as int;
            let t = o.tasks@[b];
            let u = o.tasks@[i];
            &&& t.priority <= u.priority
            &&& t.priority == u.priority && u.owner_cpu == me ==> t.owner_cpu == me
            &&& t.priority == u.priority && (t.owner_cpu == me <==> u.owner_cpu == me) ==> {
                if o.cur(me) == IDLE_INDEX {
                    b < i
                } else if i > c {
                    c < b < i
                } else {
                    b > c || b < i
                }
            }
        }),
{
    let cur = o.cur(me);
    let ts = ticked(wake_pass(o.tasks@, e), cur);
    let best = choose|best: usize|
        {
            &&& is_pick(ts, o.smp.cpus@, me, turn_start(cur), best)
            &&& #[trigger] decided(o, n, me, e, best, r)
        };
    assert(crate::scheduler::cpu_ok(o.smp.cpus@[me as int], o.tasks@.len()));
    lemma_offer_same(o, me, e, best as int);
    lemma_offer_same(o, me, e, i);
    assert(goes_before(ts, me, turn_start(cur), best as int, i));
    crate::scheduler::lemma_turn_value(i, turn_start(cur), ts.len() as int);
    crate::scheduler::lemma_turn_value(best as int, turn_start(cur), ts.len() as int);
}

/// A sleeper is ready from its deadline on and not before.
pub proof fn law_sleepers_wake_on_time(ts: Seq<Task>, e: Events, i: int)
    requires
        0 <= i < ts.len(),
        ts[i].state == State::Sleeping,
    ensures
        wake_pass(ts, e)[i] == (Task {
            state: if ts[i].sleep_until_ms <= e.now_ms {
                State::Ready
            } else {
                State::Sleeping
            },
            ..ts[i]
        }),
{
}

/// A zombie's status is taken by the pass exactly where nobody is left to take
/// it: the task belongs to the kernel, or no live task is its parent.
pub proof fn law_orphans_are_reaped(ts: Seq<Task>, e: Events, i: int)
    requires
        0 <= i < ts.len(),
        ts[i].state == State::Dead,
    ensures
        wake_pass(ts, e)[i].reaped <==> ts[i].reaped || ts[i].parent_id == 0 || forall|p: int|
            0 <= p < ts.len() && (#[trigger] ts[p]).id == ts[i].parent_id ==> ts[p].state
                == State::Dead,
        wake_pass(ts, e)[i].exit_code == ts[i].exit_code,
{
    if ts[i].parent_id != 0 {
        if orphaned(ts, i) {
            assert forall|p: int|
                0 <= p < ts.len() && (#[trigger] ts[p]).id == ts[i].parent_id implies ts[p].state
                == State::Dead by {
                assert(id_at(ts, p, ts[i].parent_id));
            }
        }
    }
}

/// The parent of a zombie whose status was not taken has a child to reap; once
/// all its dead children are reaped it has none.
pub proof fn law_parents_see_their_dead(ts: Seq<Task>, i: int)
    requires
        0 <= i < ts.len(),
    ensures
        has_zombie(ts, i) <==> exists|j: int|
            0 <= j < ts.len() && (#[trigger] ts[j]).parent_id == ts[i].id && ts[j].state
                == State::Dead && !ts[j].reaped,
{
    if has_zombie(ts, i) {
        let j = choose|j: int| #[trigger] reapable(ts, j, ts[i].id, 0);
        assert(ts[j].parent_id == ts[i].id);
    }
    if exists|j: int|
        0 <= j < ts.len() && (#[trigger] ts[j]).parent_id == ts[i].id && ts[j].state == State::Dead
            && !ts[j].reaped {
        let j = choose|j: int|
            0 <= j < ts.len() && (#[trigger] ts[j]).parent_id == ts[i].id && ts[j].state
                == State::Dead && !ts[j].reaped;
        assert(reapable(ts, j, ts[i].id, 0));
    }
}

/// A stall is reported at the 150th tick in a row that a task which is not
/// real-time was kept from others that can run, or at the 8th on which a due
/// task was overlooked; each kind once.
pub proof fn law_stalls_are_told_once(st: Stall, ts: Seq<Task>, cur: usize, best: usize, e: Events)
    ensures
        ({
            let now = stall_after(st, ts, cur, best, e);
            &&& stall_report(st, now) is Some ==> ts[cur as int].priority != 0
            &&& stall_report(st, now) == Some(StallWhy::Runaway) ==> best != IDLE_INDEX && st.kept
                >= 149 && !st.kept_reported && now.kept_reported
            &&& stall_report(st, now) == Some(StallWhy::NothingReady) ==> best == IDLE_INDEX
                && st.stuck >= 7 && !st.stuck_reported && now.stuck_reported
            &&& ts[cur as int].priority != 0 && best != IDLE_INDEX && st.kept >= 149
                ==> now.kept_reported
            &&& ts[cur as int].priority != 0 && st.kept < u32::MAX ==> now.kept == st.kept + 1
            &&& ts[cur as int].priority == 0 ==> now.kept == 0 && now.stuck == 0
        }),
{
}

} // verus!
