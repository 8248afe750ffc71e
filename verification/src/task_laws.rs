//! The life of a task: how it starts, what its stack holds, how it ends and is reaped, and what
//! its transfers go to.
use vstd::prelude::*;

use crate::clock_laws::law_nanoseconds;
use crate::fds::{File, Key};
use crate::linux::{rng_after, rng_next};
use crate::perf::{busier, busiest, elapsed_ns, in_bucket, sampled, Hist};
use crate::scheduler::{
    cur_id, cur_task, exited, first_reapable, fresh_task, initial_sp, reapable, spawned,
    stack_words, with_current, Sched, State, Task,
};
use crate::smp::{online_among, usable_page, PerCpu};
use crate::syscall::{goes_to_file, white_space, Io};
use crate::tasks::{clock_beat, clock_first, clock_lines, Clock};
use crate::userspace::{mem_without, LinuxMem};

verus! {

/// A new task goes behind the others, which stay as they were. It is ready, waits for nothing,
/// has a whole slice and no status; the next task gets the next number.
pub proof fn law_new_task(
    o: Sched,
    n: Sched,
    id: u64,
    priority: u8,
    parent: u64,
    cpu: u8,
    top: u64,
    i: int,
)
    requires
        spawned(o, n, fresh_task(id, priority, parent, cpu, top)),
        0 <= i < o.tasks@.len(),
    ensures
        n.tasks@.len() == o.tasks@.len() + 1,
        n.tasks@[i] == o.tasks@[i],
        n.next_id == o.next_id + 1,
        n.smp == o.smp,
        ({
            let t = n.tasks@.last();
            &&& t.id == id && t.priority == priority && t.parent_id == parent && t.owner_cpu == cpu
            &&& t.kstack_top == top
            &&& t.state == State::Ready
            &&& !t.blocked_on_input && !t.blocked_on_raw && !t.blocked_on_child && t.sleep_until_ms == 0
            &&& t.exit_code == 0 && !t.reaped
            &&& t.slice_left == if priority == 1 { 8int } else { 1 }
        }),
{
}

/// A task that exits can be reaped by its parent, under its own number and under any, and tells
/// the code it exited with; nobody else can reap it, and nothing else of it changes.
pub proof fn law_exit(ts: Seq<Task>, i: int, code: u32, other: u64)
    requires
        0 <= i < ts.len(),
        ts[i].id != 0,
        other != ts[i].parent_id,
    ensures
        ({
            let t = exited(ts[i], code);
            let n = ts.update(i, t);
            &&& reapable(n, i, t.parent_id, t.id)
            &&& reapable(n, i, t.parent_id, 0)
            &&& !reapable(n, i, other, t.id)
            &&& t.exit_code == code
            &&& t.id == ts[i].id && t.parent_id == ts[i].parent_id && t.priority == ts[i].priority
            &&& t.owner_cpu == ts[i].owner_cpu && t.kstack_top == ts[i].kstack_top
        }),
{
}

/// Only a dead child whose status was not taken is reaped, and of several the one that stands
/// first in the table.
pub proof fn law_reaped_child(ts: Seq<Task>, i: int, j: int, parent: u64, pid: u64)
    requires
        first_reapable(ts, i, parent, pid),
        0 <= j < ts.len(),
        ts[j].parent_id == parent,
        ts[j].state == State::Dead,
        !ts[j].reaped,
        pid == 0 || ts[j].id == pid,
        parent != 0,
    ensures
        0 <= i <= j,
        ts[i].parent_id == parent,
        ts[i].state == State::Dead,
        !ts[i].reaped,
        pid != 0 ==> ts[i].id == pid,
{
    assert(reapable(ts, j, parent, pid));
}

/// What the current task becomes, it alone becomes; a processor without a task changes none, nor
/// does a task that was killed meanwhile.
pub proof fn law_current_task_changes(o: Sched, n: Sched, me: usize, t: Task, i: int)
    requires
        with_current(o, n, me, t),
        o.cur(me) != usize::MAX ==> o.cur(me) < o.tasks@.len(),
        0 <= i < o.tasks@.len(),
    ensures
        o.cur(me) == usize::MAX ==> n == o && cur_id(o, me) == 0,
        o.cur(me) != usize::MAX ==> cur_id(o, me) == cur_task(o, me).id,
        o.cur(me) != usize::MAX && cur_task(o, me).state == State::Dead ==> n == o,
        i != o.cur(me) ==> n.tasks@[i] == o.tasks@[i],
        o.cur(me) != usize::MAX && i == o.cur(me) && o.tasks@[i].state != State::Dead ==> n.tasks@[i] == t,
        n.tasks@.len() == o.tasks@.len(),
        n.next_id == o.next_id,
{
}

/// A fresh stack holds the six registers that a switch restores and the address it returns to,
/// in the order in which they are popped; there the stack pointer lies eight bytes off a multiple
/// of sixteen, as after a call, within sixteen bytes of the top.
pub proof fn law_fresh_stack(top: u64, entry: u64, r14: u64, r15: u64, k: int)
    ensures
        stack_words(entry, r14, r15).len() == 7,
        stack_words(entry, r14, r15)[0] == r15,
        stack_words(entry, r14, r15)[1] == r14,
        2 <= k < 6 ==> stack_words(entry, r14, r15)[k] == 0,
        stack_words(entry, r14, r15)[6] == entry,
        (initial_sp(top) + 8 * 7) % 16 == 8,
        0 <= top - (initial_sp(top) + 8 * 8) < 16,
{
}

/// A transfer goes to the file behind the descriptor, at its position; a descriptor that is not
/// open is refused with error 9.
pub proof fn law_transfer_target(io: Io, m: Map<Key, File>, k: Key, len: u64)
    requires
        goes_to_file(io, m, k, len),
    ensures
        m.contains_key(k) ==> io is File && io->name@ == m[k].name && io->pos == m[k].pos && io->len <= len,
        !m.contains_key(k) ==> io == Io::Done((0x1_0000_0000_0000_0000 - 9) as u64),
{
}

/// Among the ASCII characters the space and those from tab to carriage return part words.
pub proof fn law_white_space(c: char)
    requires
        (c as u32) < 128,
    ensures
        white_space(c) <==> c == ' ' || 9 <= c as u32 <= 13,
{
}

/// The memory of a program that ends is forgotten, and that of the others is kept in its order.
pub proof fn law_memory_is_forgotten(ms: Seq<LinuxMem>, pid: u64)
    ensures
        mem_without(ms, pid) == ms.filter(|m: LinuxMem| m.pid != pid),
    decreases ms.len(),
{
    reveal(Seq::filter);
    if ms.len() > 0 {
        law_memory_is_forgotten(ms.drop_last(), pid);
    }
}

/// The processors that run are counted.
pub proof fn law_running_processors(cpus: Seq<PerCpu>, n: int)
    requires
        0 <= n < cpus.len(),
    ensures
        online_among(cpus, 0) == 0,
        online_among(cpus, n + 1) == online_among(cpus, n) + if cpus[n].online { 1int } else { 0 },
{
}

/// A page can start a processor where it is not the first and ends below the sixteenth.
pub proof fn law_start_page_is_low(base: u64)
    requires
        base % 4096 == 0,
    ensures
        usable_page(base) <==> 0 < base && base + 4096 <= 15 * 4096,
{
}

/// A sample counts once, in the sum and in the one bucket it falls into; nothing is recorded of
/// a duration of nought.
pub proof fn law_samples(a: Hist, b: Hist, ns: int, k: int)
    requires
        sampled(a, b, ns),
        a@.len() == 17,
        0 <= k < 17,
        a@[k] < u64::MAX,
    ensures
        ns <= 0 ==> b == a,
        ns > 0 ==> b.count_spec() == a.count_spec() + 1,
        ns > 0 && a.sum_spec() + ns <= u64::MAX ==> b.sum_spec() == a.sum_spec() + ns,
        ns > 0 && in_bucket(ns, k) ==> b@[k] == a@[k] + 1,
        ns > 0 && !in_bucket(ns, k) ==> b@[k] == a@[k],
{
    if ns > 0 {
        let i = choose|i: int| #[trigger]
            in_bucket(ns, i) && b@ == a@.update(i, (a@[i] + 1) as u64);
        assert(in_bucket(ns, k) ==> k == i);
    }
}

/// The busiest calls come first, three at most; no call that is left out was made more often
/// than one that is told.
pub proof fn law_busiest_calls(c: Seq<u64>, n: int, t: Seq<usize>, i: int, k: int)
    requires
        busiest(c, n, t),
        0 <= i < t.len(),
        0 <= k < n <= usize::MAX,
    ensures
        t.len() <= 3,
        0 < c[t[i] as int],
        i + 1 < t.len() ==> c[t[i] as int] >= c[t[i + 1] as int],
        !t.contains(k as usize) ==> c[k] <= c[t[i] as int],
        c[k] > 0 && t.len() < 3 ==> t.contains(k as usize),
{
    if !t.contains(k as usize) && c[k] > 0 {
        assert(t.len() == 3 && busier(c, t[2] as int, k));
        if i < 2 {
            assert(busier(c, t[i] as int, t[2] as int));
        }
    }
    if i + 1 < t.len() {
        assert(busier(c, t[i] as int, t[i + 1] as int));
    }
}

/// The time between two readings of a counter of `hz` cycles a second, in nanoseconds.
pub proof fn law_elapsed(start: u64, end: u64, hz: u64)
    requires
        start <= end,
        hz > 0,
        (end - start) * 1_000_000_000 < hz * 0x1_0000_0000_0000_0000,
    ensures
        hz * elapsed_ns(start, end, hz) <= (end - start) * 1_000_000_000 < hz * (elapsed_ns(start, end, hz) + 1),
        elapsed_ns(start, end, 0) == 0,
{
    law_nanoseconds((end - start) as u64, hz);
}

/// The clock task tells that it runs once, and the time whenever another ten seconds begin.
pub proof fn law_clock_lines(c: Clock, sod: u32, shown: u64)
    ensures
        clock_lines(c, sod, shown).len() == (if c.logged { 0int } else { 1 }) + (if c.last_dec == Some(
            (sod / 10) as u32,
        ) { 0int } else { 1 }),
        !c.logged ==> clock_lines(c, sod, shown)[0] == clock_first(sod),
        c.last_dec != Some((sod / 10) as u32) ==> clock_lines(c, sod, shown).last() == clock_beat(sod, shown),
{
}

/// The random stream goes from state to state by three steps: the state and itself times 2^13,
/// what that gives and itself over 2^7, what that gives and itself times 2^17, each pair added
/// without carry. No two states lead to the same, and only nought stays.
pub proof fn law_random_stream(s: u64, t: u64)
    ensures
        ({
            let a = s ^ ((s * 8192) % 0x1_0000_0000_0000_0000) as u64;
            let b = a ^ (a / 128);
            rng_next(s) == b ^ ((b * 131072) % 0x1_0000_0000_0000_0000) as u64
        }),
        rng_next(s) == rng_next(t) ==> s == t,
        rng_next(s) == 0 <==> s == 0,
        rng_after(s, 0) == s,
        rng_after(s, 1) == rng_next(s),
{
    reveal_with_fuel(rng_after, 2);
    let a = s ^ (s << 13);
    let b = a ^ (a >> 7);
    lemma_times(s);
    lemma_times(b);
    assert(a >> 7 == a / 128) by (bit_vector);
    let c = t ^ (t << 13);
    let d = c ^ (c >> 7);
    assert(b ^ (b << 17) == d ^ (d << 17) ==> b == d) by (bit_vector);
    assert(b == d ==> a == c) by (bit_vector)
        requires
            b == a ^ (a >> 7),
            d == c ^ (c >> 7),
    ;
    assert(a == c ==> s == t) by (bit_vector)
        requires
            a == s ^ (s << 13),
            c == t ^ (t << 13),
    ;
    assert(b ^ (b << 17) == 0 <==> b == 0) by (bit_vector);
    assert(b == 0 <==> s == 0) by (bit_vector)
        requires
            a == s ^ (s << 13),
            b == a ^ (a >> 7),
    ;
}

proof fn lemma_times(v: u64)
    ensures
        v << 13 == ((v * 8192) % 0x1_0000_0000_0000_0000) as u64,
        v << 17 == ((v * 131072) % 0x1_0000_0000_0000_0000) as u64,
{
    assert(v << 13 == (v * 8192) % 0x1_0000_0000_0000_0000) by (bit_vector);
    assert(v << 17 == (v * 131072) % 0x1_0000_0000_0000_0000) by (bit_vector);
}

} // verus!
