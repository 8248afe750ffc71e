//! Frames, page tables, the scheduler, the CPUs and what they measure.
use onyxos::allocator::{heap_page, heap_pages, heap_stats, HEAP_START};
use onyxos::bench;
use onyxos::fpu::{self, ApFpu, AvxRound, CpuFeatures, Fpu, FpuArea, XsavePlan};
use onyxos::gdt::selectors;
use onyxos::ksl::{acquisitions, held_by_this_cpu, lock, unlock, Ksl, FREE};
use onyxos::memory::{
    frame_stats, init_global_frames, mem_test, page_flags, phys_offset, BootInfoFrameAllocator, MemTest, Memory,
    MemoryRegion,
};
use onyxos::perf::{self, fmt_hist, fmt_ns, top_three, Hist, Machine, Perf, Summary};
use onyxos::scheduler::{
    self, Events, Sched, StallReport, StallWhy, State, PRIO_IDLE, PRIO_NORMAL, PRIO_RT,
};
use onyxos::smp;
use onyxos::tasks::{b3_test, checkpoint_ok, clock_step, diag_line, ticker_step, Clock};
use onyxos::time::{self, Measured};

fn region(start: u64, end: u64, usable: bool) -> MemoryRegion {
    MemoryRegion { start, end, usable }
}

#[test]
fn frames_come_from_usable_memory_only() {
    let mut mem = vec![0u64; 0xA000 / 8];
    let map = vec![region(0, 0x3000, false), region(0x3000, 0x6000, true), region(0x8000, 0x9000, true)];
    let mut f = BootInfoFrameAllocator::init(map);
    let mut got = Vec::new();
    while let Some(x) = f.allocate_frame(&mem) {
        got.push(x);
    }
    assert_eq!(got, vec![0x3000, 0x4000, 0x5000, 0x8000]);
    assert_eq!(f.stats(), (4, 4, 0, 1));
    f.deallocate_frame(&mut mem, 0x4000);
    f.deallocate_frame(&mut mem, 0x8000);
    assert_eq!(f.stats(), (2, 4, 2, 1));
    // The frame freed last comes back first.
    assert_eq!(f.allocate_frame(&mem), Some(0x8000));
    assert_eq!(f.allocate_frame(&mem), Some(0x4000));
    assert_eq!(f.allocate_frame(&mem), None);
}

#[test]
fn freed_frames_serve_again_without_a_fresh_one() {
    let mut mem = vec![0u64; 300 * 512];
    let mut f = BootInfoFrameAllocator::init(vec![region(0x1000, 0x11_1000, true)]);
    let first: Vec<u64> = (0..256).filter_map(|_| f.allocate_frame(&mem)).collect();
    assert_eq!(first.len(), 256);
    for x in &first {
        f.deallocate_frame(&mut mem, *x);
    }
    let mut again: Vec<u64> = (0..256).filter_map(|_| f.allocate_frame(&mem)).collect();
    let mut m = Memory { phys_offset: 0, frames: None };
    init_global_frames(&mut m, f);
    assert_eq!(frame_stats(&m), Some((256, 272, 256, 0)));
    again.reverse();
    assert_eq!(again, first);
    // The next one is fresh.
    let mut f = m.frames.unwrap();
    assert_eq!(f.allocate_frame(&mem), Some(0x10_1000));
}

#[test]
fn frame_self_test() {
    let words = 300 * 512;
    let mut mem = vec![0u64; words];
    let mut f = BootInfoFrameAllocator::init(vec![region(0x1000, 8 * words as u64, true)]);
    assert_eq!(mem_test(&mut f, &mut mem), MemTest::Passed);
    assert_eq!(f.stats().0, 0);
    // All that it took is on the list, the first taken on top; then come fresh
    // frames.
    let next: Vec<u64> = (0..258).filter_map(|_| f.allocate_frame(&mem)).collect();
    assert_eq!(next, (1..259).map(|k| 0x1000 * k).collect::<Vec<u64>>());
    let mut few = BootInfoFrameAllocator::init(vec![region(0x1000, 0x9000, true)]);
    assert_eq!(mem_test(&mut few, &mut mem), MemTest::OutOfMemory);
    assert_eq!(few.stats(), (8, 8, 0, 1));
    let mut none = BootInfoFrameAllocator::init(Vec::new());
    assert_eq!(mem_test(&mut none, &mut mem), MemTest::NoUsableFrames);
}

#[test]
fn the_runtime_owns_the_frames() {
    let mut m = Memory { phys_offset: 0x1800_0000_0000, frames: None };
    assert_eq!(frame_stats(&m), None);
    assert_eq!(phys_offset(&m), Some(0x1800_0000_0000));
    init_global_frames(&mut m, BootInfoFrameAllocator::init(vec![region(0x1000, 0x3000, true)]));
    assert_eq!(frame_stats(&m), Some((0, 2, 0, 0)));
    assert_eq!(phys_offset(&Memory { phys_offset: 0, frames: None }), None);
}

#[test]
fn page_tables_are_walked() {
    // Tables at 0x1000, 0x2000, 0x3000 and 0x4000.
    let mut mem = vec![0u64; 0x5000 / 8];
    let va = 0x0000_0080_4060_7123u64;
    let idx = |l: u64| ((va >> (12 + 9 * (l - 1))) & 0x1FF) as usize;
    mem[0x1000 / 8 + idx(4)] = 0x2007;
    mem[0x2000 / 8 + idx(3)] = 0x3007;
    mem[0x3000 / 8 + idx(2)] = 0x4007;
    mem[0x4000 / 8 + idx(1)] = 0x8000_0000_0009_9005;
    assert_eq!(page_flags(&mem, 0x1000, va), Some(0x8000_0000_0000_0005));
    assert_eq!(page_flags(&mem, 0x1000, va + 0x1000), None);
    mem[0x3000 / 8 + idx(2)] = 0x4087;
    assert_eq!(page_flags(&mem, 0x1000, va), None);
}

#[test]
fn heap_layout_and_use() {
    assert_eq!(heap_pages(), 4096);
    assert_eq!(heap_page(0), HEAP_START);
    assert_eq!(heap_page(4095), HEAP_START + 0xFF_F000);
    let space = Box::leak(vec![std::mem::MaybeUninit::<u8>::uninit(); 8192].into_boxed_slice());
    let mut h = linked_list_allocator::Heap::from_slice(space);
    let (used, free) = heap_stats(&h);
    assert_eq!(used, 0);
    assert!(free > 8000);
    h.allocate_first_fit(std::alloc::Layout::from_size_align(64, 8).unwrap()).unwrap();
    assert_eq!(heap_stats(&h), (64, free - 64));
    assert_eq!(h.size(), free);
}

const QUIET: Events = Events { now_ms: 0, line_pending: false, raw_pending: false };

fn three_tasks() -> Sched {
    let mut s = scheduler::new_sched();
    assert_eq!(scheduler::spawn(&mut s, 0, 0x9000), 1);
    assert_eq!(scheduler::spawn_prio(&mut s, PRIO_RT, 0, 0xA000), 2);
    assert_eq!(scheduler::spawn_prio(&mut s, PRIO_IDLE, 0, 0xB000), 3);
    s
}

#[test]
fn the_most_urgent_task_runs_first() {
    let mut s = three_tasks();
    let (sw, _) = scheduler::preempt(&mut s, 0, QUIET);
    let sw = sw.unwrap();
    assert_eq!((sw.old, sw.new, sw.kstack_top), (smp::IDLE_INDEX, 1, 0xA000));
    assert_eq!(scheduler::current_task_id(&s, 0), 2);
    assert_eq!(scheduler::switches_this_cpu(&s, 0), 1);
    // A real-time task is kept until it gives way.
    for _ in 0..20 {
        assert_eq!(scheduler::preempt(&mut s, 0, QUIET).0, None);
    }
    scheduler::sleep_current(&mut s, 0, 50);
    assert_eq!(scheduler::preempt(&mut s, 0, QUIET).0.unwrap().new, 0);
    // Awake again when its time has come, and at once.
    let (sw, _) = scheduler::preempt(&mut s, 0, Events { now_ms: 50, ..QUIET });
    assert_eq!(sw.unwrap().new, 1);
    // The switches were counted, the ticks that kept the task were not.
    assert_eq!(scheduler::switches_this_cpu(&s, 0), 3);
    assert_eq!(scheduler::switches_this_cpu(&s, 1), 0);
}

#[test]
fn equal_tasks_take_turns() {
    let mut s = scheduler::new_sched();
    for k in 0..3 {
        scheduler::spawn(&mut s, 0, 0x1000 * (k + 1));
    }
    let mut order = Vec::new();
    for _ in 0..60 {
        if let Some(sw) = scheduler::preempt(&mut s, 0, QUIET).0 {
            order.push(sw.new);
        }
    }
    assert_eq!(&order[..4], &[0, 1, 2, 0]);
}

#[test]
fn two_cpus_never_run_one_task() {
    let mut s = scheduler::new_sched();
    scheduler::spawn_on_cpu(&mut s, PRIO_NORMAL, 0, 0x1000);
    scheduler::spawn_on_cpu(&mut s, PRIO_NORMAL, 1, 0x2000);
    assert_eq!(scheduler::preempt(&mut s, 1, QUIET).0.unwrap().new, 1);
    assert_eq!(scheduler::preempt(&mut s, 0, QUIET).0.unwrap().new, 0);
    assert!(!scheduler::has_ready_tasks(&s, 0));
    assert_eq!(scheduler::current_index(&s, 1), 1);
    assert_eq!(scheduler::current_index(&s, 2), scheduler::MAIN_INDEX);
}

#[test]
fn a_task_that_yields_stays_with_its_cpu() {
    let mut s = scheduler::new_sched();
    scheduler::spawn(&mut s, 0, 0x1000);
    assert_eq!(scheduler::preempt(&mut s, 1, QUIET).0.unwrap().new, 0);
    scheduler::yield_current(&mut s, 1);
    assert_eq!(s.tasks[0].state, State::Ready);
    // Its stack is in use: no other CPU takes it.
    assert_eq!(scheduler::plan_switch(&mut s, 0, QUIET).0, None);
    assert_eq!(scheduler::current_index(&s, 0), scheduler::MAIN_INDEX);
    // Nothing else is ready: it runs on, with a fresh slice.
    assert_eq!(scheduler::preempt(&mut s, 1, QUIET).0, None);
    assert_eq!(scheduler::current_index(&s, 1), 0);
    assert_eq!((s.tasks[0].state, s.tasks[0].slice_left), (State::Running, 8));
    assert_eq!(scheduler::preempt(&mut s, 0, QUIET).0, None);
}

#[test]
fn a_sleeper_is_not_taken_before_its_cpu_left_it() {
    let mut s = scheduler::new_sched();
    scheduler::spawn(&mut s, 1, 0x1000);
    scheduler::preempt(&mut s, 1, QUIET);
    // Its deadline has passed already: the tick on CPU 0 wakes it.
    scheduler::sleep_current(&mut s, 1, 0);
    assert_eq!(scheduler::preempt(&mut s, 0, QUIET).0, None);
    assert_eq!(s.tasks[0].state, State::Ready);
    // A sleep to come: CPU 1 goes idle, and holds the task until it schedules
    // again.
    scheduler::sleep_current(&mut s, 1, 5);
    let later = Events { now_ms: 5, ..QUIET };
    assert_eq!(scheduler::preempt(&mut s, 1, QUIET).0.unwrap().new, scheduler::MAIN_INDEX);
    assert_eq!(smp::this_cpu(&s.smp, 1).pending_prev, 0);
    assert_eq!(scheduler::preempt(&mut s, 0, later).0, None);
    assert_eq!(s.tasks[0].state, State::Ready);
    scheduler::release_pending_prev(&mut s, 1);
    assert_eq!(scheduler::preempt(&mut s, 0, later).0.unwrap().new, 0);
    assert_eq!(s.tasks[0].owner_cpu, 0);
}

#[test]
fn a_suspended_task_is_released_once_its_stack_is_saved() {
    let mut s = scheduler::new_sched();
    scheduler::spawn(&mut s, 0, 0x1000);
    scheduler::preempt(&mut s, 0, QUIET);
    scheduler::spawn_prio(&mut s, PRIO_RT, 0, 0x2000);
    assert_eq!(scheduler::preempt(&mut s, 0, QUIET).0.unwrap().new, 1);
    assert_eq!(s.tasks[0].state, State::Running);
    assert_eq!(scheduler::preempt(&mut s, 1, QUIET).0, None);
    // The next tick here releases it, and CPU 1 takes it over.
    assert_eq!(scheduler::preempt(&mut s, 0, QUIET).0, None);
    assert_eq!(s.tasks[0].state, State::Ready);
    assert_eq!(scheduler::preempt(&mut s, 1, QUIET).0.unwrap().new, 0);
}

#[test]
fn cpus_start_beside_running_tasks() {
    let mut s = scheduler::new_sched();
    smp::init_bsp(&mut s.smp, 0x8000);
    scheduler::spawn(&mut s, 0, 0x1000);
    scheduler::preempt(&mut s, 0, QUIET);
    smp::publish_ap(&mut s.smp, 1, 3, 0x9000);
    assert_eq!(scheduler::preempt(&mut s, 1, QUIET).0, None);
    assert_eq!(scheduler::current_index(&s, 0), 0);
}

#[test]
fn blocked_tasks_wake_for_what_they_wait_for() {
    let mut s = scheduler::new_sched();
    scheduler::spawn(&mut s, 0, 0x1000);
    scheduler::preempt(&mut s, 0, QUIET);
    scheduler::block_current_on_input(&mut s, 0);
    scheduler::wake_state(&mut s, Events { raw_pending: true, ..QUIET });
    assert_eq!(s.tasks[0].state, State::Blocked);
    scheduler::wake_state(&mut s, Events { line_pending: true, ..QUIET });
    assert_eq!(s.tasks[0].state, State::Ready);
    assert!(!scheduler::wake_task_now(&mut s, 99));
    assert!(scheduler::set_priority(&mut s, 1, PRIO_RT));
    assert_eq!(s.tasks[0].priority, PRIO_RT);
}

#[test]
fn children_are_reaped_once() {
    let mut s = scheduler::new_sched();
    let parent = scheduler::spawn(&mut s, 0, 0x1000);
    let (sw, _) = scheduler::preempt(&mut s, 0, QUIET);
    assert_eq!(sw.unwrap().new, 0);
    let child = scheduler::spawn_user(&mut s, 0, 0x2000);
    assert_eq!(s.tasks[1].parent_id, parent);
    assert!(scheduler::child_waitable(&s, 0, child));
    assert_eq!(scheduler::try_reap(&mut s, 0, child), None);
    // The child runs on another CPU and exits.
    scheduler::preempt(&mut s, 1, QUIET);
    assert_eq!(scheduler::current_parent_id(&s, 1), parent);
    scheduler::record_exit(&mut s, 1, 42);
    assert_eq!(scheduler::try_reap(&mut s, 0, child), Some((child, 42)));
    assert_eq!(scheduler::try_reap(&mut s, 0, child), None);
    assert!(scheduler::is_reaped(&s, child));
    assert!(!scheduler::child_waitable(&s, 0, child));
}

#[test]
fn a_wait_for_a_child_ends_when_it_dies() {
    let mut s = scheduler::new_sched();
    scheduler::spawn(&mut s, 0, 0x1000);
    scheduler::preempt(&mut s, 0, QUIET);
    let child = scheduler::spawn_user(&mut s, 0, 0x2000);
    // A wait for a line came and went before.
    scheduler::block_current_on_input(&mut s, 0);
    scheduler::wake_state(&mut s, Events { line_pending: true, ..QUIET });
    s.tasks[0].state = State::Running;
    scheduler::block_on_child(&mut s, 0);
    scheduler::wake_state(&mut s, Events { line_pending: true, raw_pending: true, ..QUIET });
    assert_eq!(s.tasks[0].state, State::Blocked);
    scheduler::preempt(&mut s, 1, QUIET);
    scheduler::record_exit(&mut s, 1, 7);
    scheduler::wake_state(&mut s, QUIET);
    assert_eq!(s.tasks[0].state, State::Ready);
    assert_eq!(scheduler::try_reap(&mut s, 0, child), Some((child, 7)));
}

#[test]
fn killed_tasks_leave_137() {
    let mut s = scheduler::new_sched();
    scheduler::spawn(&mut s, 0, 0x1000);
    scheduler::preempt(&mut s, 0, QUIET);
    let child = scheduler::spawn_user(&mut s, 0, 0x2000);
    assert!(scheduler::kill(&mut s, 0, child).is_some());
    assert_eq!(scheduler::try_reap(&mut s, 0, 0), Some((child, 137)));
    assert!(scheduler::kill(&mut s, 0, 77).is_none());
    scheduler::set_linux_abi(&mut s, 1);
    assert!(scheduler::current_is_linux(&s, 0));
    assert_eq!(scheduler::find_task(&s, child), Some(1));
    assert_eq!(scheduler::find_task(&s, 77), None);
}

#[test]
fn a_killed_task_stays_dead() {
    let mut s = scheduler::new_sched();
    scheduler::spawn(&mut s, 0, 0x1000);
    scheduler::preempt(&mut s, 0, QUIET);
    let child = scheduler::spawn_user(&mut s, 0, 0x2000);
    assert_eq!(scheduler::preempt(&mut s, 1, QUIET).0.unwrap().new, 1);
    assert_eq!(scheduler::kill(&mut s, 0, child), Some(1));
    assert_eq!(scheduler::try_reap(&mut s, 0, child), Some((child, 137)));
    // CPU 1 has not noticed yet: whatever the task does there, it stays dead,
    // and its status is not to be had again.
    scheduler::sleep_current(&mut s, 1, 0);
    scheduler::block_current_on_input(&mut s, 1);
    scheduler::block_current_on_raw_input(&mut s, 1);
    scheduler::block_on_child(&mut s, 1);
    scheduler::yield_current(&mut s, 1);
    scheduler::record_exit(&mut s, 1, 5);
    scheduler::mark_current_dead(&mut s, 1);
    assert_eq!((s.tasks[1].state, s.tasks[1].exit_code, s.tasks[1].reaped), (State::Dead, 137, true));
    let all = Events { now_ms: 9, line_pending: true, raw_pending: true };
    assert_eq!(scheduler::preempt(&mut s, 1, all).0.unwrap().new, scheduler::MAIN_INDEX);
    assert_eq!(scheduler::preempt(&mut s, 1, all).0, None);
    assert_eq!(scheduler::try_reap(&mut s, 0, child), None);
}

#[test]
fn a_runaway_is_reported_once() {
    let mut s = scheduler::new_sched();
    scheduler::spawn_prio(&mut s, PRIO_NORMAL, 0, 0x1000);
    scheduler::spawn_prio(&mut s, PRIO_IDLE, 0, 0x2000);
    scheduler::preempt(&mut s, 0, QUIET);
    let mut seen = Vec::new();
    for _ in 0..400 {
        s.tasks[0].slice_left = 8;
        if let Some(w) = scheduler::preempt(&mut s, 0, QUIET).1 {
            seen.push(w);
            assert_eq!(
                scheduler::stall_lines(&s, w.cur, w.best, w.why),
                vec![
                    "[stall] cur=0 held=150 ticks best_id=2 best_prio=2 rt=0 why=runaway",
                    "[stall] i=0 id=1 st=0 prio=1 sl=7 in=0 raw=0 ch=0",
                    "[stall] i=1 id=2 st=1 prio=2 sl=1 in=0 raw=0 ch=0",
                ],
            );
        }
    }
    assert_eq!(seen, vec![StallReport { cur: 0, best: 1, why: StallWhy::Runaway }]);
}

#[test]
fn a_stall_report_shows_the_table() {
    let mut s = three_tasks();
    s.tasks[0].state = State::Blocked;
    s.tasks[0].blocked_on_child = true;
    s.tasks[1].state = State::Sleeping;
    s.tasks[2].state = State::Dead;
    s.stall.kept = 12;
    assert_eq!(
        scheduler::stall_lines(&s, 1, scheduler::MAIN_INDEX, StallWhy::NothingReady),
        vec![
            "[stall] cur=1 held=12 ticks best_id=0 best_prio=4294967295 rt=1 why=nothing-ready",
            "[stall] i=0 id=1 st=3 prio=1 sl=8 in=0 raw=0 ch=1",
            "[stall] i=1 id=2 st=2 prio=0 sl=1 in=0 raw=0 ch=0",
            "[stall] i=2 id=3 st=4 prio=2 sl=1 in=0 raw=0 ch=0",
        ],
    );
}

#[test]
fn first_stacks() {
    assert_eq!(scheduler::prepare_stack(0x1_0008, 0xAAAA), (0xFFC0, [0, 0, 0, 0, 0, 0, 0xAAAA]));
    let (sp, w) = scheduler::prepare_stack_user(0x2_0000, 0x3F_F000, 0x40_1000, 0x7000);
    assert_eq!((sp, w), (0x1_FFC0, [0x40_1000, 0x7000, 0, 0, 0, 0, 0x3F_F000]));
}

#[test]
fn cpus_come_online() {
    let mut s = smp::new_smp();
    assert_eq!(smp::online_cpus(&s), 0);
    smp::init_bsp(&mut s, 0x5000);
    assert_eq!(smp::online_cpus(&s), 1);
    assert!(smp::kick_others(&s, 0).is_empty());
    assert_eq!(smp::start_aps(&[0, 1, 2, 3, 4, 0, 0, 0], 5, 0), vec![1, 2, 3]);
    smp::publish_ap(&mut s, 1, 7, 0x6000);
    assert_eq!(smp::ap_slot(&s, 7), Some(1));
    assert_eq!(smp::ap_slot(&s, 9), None);
    s.cpus[1].online = true;
    assert_eq!(smp::kick_others(&s, 0), vec![7]);
    smp::set_kstack_top(&mut s, 1, 0x7777);
    assert_eq!(smp::this_cpu(&s, 1).kstack_top, 0x7777);
    assert!(smp::is_bsp(0) && !smp::is_bsp(1));
    assert_eq!(smp::current_index(&s, 1), smp::IDLE_INDEX);
    smp::set_low_page(&mut s, 0x8000);
    assert!(smp::page_usable(&s));
    smp::set_low_page(&mut s, 0xF000);
    assert!(!smp::page_usable(&s));
    // Start-up vectors name the page.
    assert_eq!(smp::startup_commands(0x8000)[3] & 0xFF, 0x08);
    assert_eq!(smp::mirrored_efer(0, u64::MAX) & !smp::EFER_WRITABLE_MASK, 0);
}

#[test]
fn the_start_up_page_is_patched() {
    let p = smp::build_page(0x8000, 0x12_3000, 0xFFFF_8000_0000_0000, 0x55_6677);
    assert_eq!(p.len(), 4096);
    let word = |at: usize| u64::from_le_bytes(p[at..at + 8].try_into().unwrap());
    assert_eq!(word(smp::OFF_CR3), 0x12_3000);
    assert_eq!(word(smp::OFF_RSP), 0xFFFF_8000_0000_0000);
    assert_eq!(word(smp::OFF_ENTRY), 0x55_6677);
    assert_eq!(p[0], 0xFA);
    assert_eq!(&p[0x0A..0x0C], &[0x00, 0x8F]);
    assert_eq!(&p[0x4B..0x4F], &[0x00, 0x81, 0x00, 0x00]);
}

#[test]
fn the_kernel_lock_counts() {
    let mut k = Ksl { holder: FREE, count: 0 };
    assert!(lock(&mut k, 2, true));
    assert!(held_by_this_cpu(&k, 2) && !held_by_this_cpu(&k, 0));
    // A release that comes late spares the new holder.
    unlock(&mut k, 1);
    assert!(held_by_this_cpu(&k, 2));
    unlock(&mut k, 2);
    assert!(!held_by_this_cpu(&k, 2));
    assert!(!lock(&mut k, 0, false));
    assert_eq!(acquisitions(&k), 2);
}

#[test]
fn benchmark_verdict() {
    assert_eq!(bench::worker(0), 12345);
    assert_eq!(bench::worker(3), 12366);
    let right = 12345 + 7 * bench::UNITS;
    let (line, ok) = bench::task(&vec![right; 4], &vec![0, 1, 2, 3], 100, 350);
    assert!(ok);
    assert_eq!(line, "[para] bench done elapsed=250 ms ok=1 cpus=[0,1,2,3]");
    assert!(!bench::task(&vec![right, right, right, 0], &vec![0, 1, 2, 3], 100, 350).1);
    assert!(bench::is_bench_worker(&vec![4, 9], 9) && !bench::is_bench_worker(&vec![4, 9], 5));
}

#[test]
fn small_tasks() {
    let mut last = None;
    assert_eq!(ticker_step(&mut last, 50), Some("[ticker] t=50".to_string()));
    assert_eq!(ticker_step(&mut last, 50), None);
    assert_eq!(ticker_step(&mut last, 51), None);
    let mut c = Clock { last: None, last_dec: None, logged: false };
    let a = clock_step(&mut c, 3_661, 7);
    assert_eq!(a.draw, Some("01:01:01".to_string()));
    assert_eq!(a.lines, vec!["clock: 01:01:01 \u{2014} updating every second", "[clock] IST 01:01:01 console_bytes=7"]);
    assert_eq!(clock_step(&mut c, 3_661, 7).draw, None);
    assert!(clock_step(&mut c, 3_662, 7).lines.is_empty());
    assert_eq!(clock_step(&mut c, 3_670, 9).lines.len(), 1);
    assert_eq!(diag_line(1, 2, 3, 0, 0x40), "[diag] ms=1 pit=2 task=3 cpu=0 esr=0x40");
    assert_eq!(b3_test(5, Some((5, 42)), 6, true, Some((6, 137)), true), (true, true, true));
    assert_eq!(b3_test(5, Some((4, 42)), 6, false, Some((6, 137)), false), (false, false, false));
    assert!(checkpoint_ok(10, 1000, [1010, 1011, 1012, 1013], 2000, 1));
    assert!(!checkpoint_ok(10, 1000, [1010, 1011, 1012, 1014], 2000, 1));
}

#[test]
fn histograms_sum_up() {
    let mut h = Hist::new();
    for _ in 0..99 {
        h.record(120);
    }
    h.record(7_000);
    let s = h.summary();
    assert_eq!((s.count, s.min, s.avg, s.p99, s.max), (100, 100, (99 * 120 + 7_000) / 100, 249, 9_999));
    h.record(u64::MAX);
    assert_eq!(h.summary().max, u64::MAX);
    assert_eq!(fmt_ns(999), "999ns");
    assert_eq!(fmt_ns(1_250), "1.25us");
    assert_eq!(fmt_ns(3_040_000), "3.04ms");
    assert_eq!(fmt_hist("x", Hist::new().summary()), "[perf] x: n=0");
    let r = Summary { count: 2, min: 100, avg: 150, p99: 249, max: u64::MAX };
    assert_eq!(fmt_hist("x", r), "[perf] x: n=2 min=100ns avg=150ns p99=249ns max=>10ms");
}

#[test]
fn the_three_busiest_calls() {
    let mut c = [0u64; 32];
    assert!(top_three(&c).is_empty());
    c[3] = 5;
    c[0] = 9;
    c[7] = 9;
    c[9] = 1;
    assert_eq!(top_three(&c), vec![0, 7, 3]);
}

#[test]
fn the_performance_report() {
    let mut p = Perf::new();
    perf::ctx_switch(&mut p);
    let t = perf::syscall_enter(&mut p, 3, 1_000);
    perf::syscall_exit(&mut p, t, 3_000, 1_000_000_000);
    perf::irq_timer_enter(&mut p, 1_000_000, 1_000_000_000);
    perf::irq_timer_enter(&mut p, 2_000_500, 1_000_000_000);
    assert_eq!(p.timer_late.summary().avg, 500);
    let k = perf::irq_kbd_enter(5);
    perf::irq_kbd_exit(&mut p, k, 305, 1_000_000_000);
    let m = perf::irq_mouse_enter(5);
    perf::irq_mouse_exit(&mut p, m, 5, 0);
    let v = perf::render_lines(
        &p,
        &Machine {
            ms: 500,
            tsc_hz: 1_000_000_000,
            cache_hits: 3,
            cache_misses: 1,
            heap_used: 2048,
            heap_free: 4096,
            frames: Some((1, 10, 2, 0)),
        },
    );
    assert_eq!(v.len(), 10);
    assert_eq!(v[0], "[perf] uptime 500 ms | tsc 1000000000 Hz | ctx switches 1 (2 /s)");
    assert!(v[1].contains("read=1"));
    assert_eq!(v[2], "[perf] syscall dur: n=1 min=2.00us avg=2.00us p99=4.99us max=4.99us");
    assert_eq!(v[6], "[perf] mouse irq cost: n=0");
    assert_eq!(v[7], "[perf] blk cache: hits=3 misses=1 (75% hit)");
    assert_eq!(v[8], "[perf] heap: used 2 KiB / free 4 KiB / total 6 KiB");
    assert_eq!(v[9], "[perf] frames: used 1 / free 9 / total 10 (4 KiB) | freed 2 oom 0");
}

#[test]
fn the_clock_is_calibrated() {
    let mut c = time::new_clock();
    assert_eq!(time::now_ns(&c, 999), 0);
    assert!(!time::init(&mut c, 3_600, 0x8000_0008, 0x100, None));
    let m = Measured { t1: 10, t2: 60, c1: 1_000, c2: 1_000_001_000 };
    assert!(time::init(&mut c, 86_399, 0x8000_0008, 0x100, Some(m)));
    assert_eq!(time::tsc_hz(&c), 2_000_000_000);
    assert!(c.invariant_tsc);
    assert_eq!(time::now_ns(&c, c.base_tsc + 4_000), 2_000);
    // Wall time wraps at midnight.
    assert_eq!(time::realtime_ns(&c, c.base_tsc + 4_000_000_000), 1_000_000_000);
    assert_eq!(time::cycles_to_ns(5, 0), 0);
    assert_eq!(time::cycles_to_ns(6_000_000_000, 2_000_000_000), 3_000_000_000);
}

const AVX: CpuFeatures = CpuFeatures { leaf1_ecx: 0x1C00_0000, supported: 7, ymm_size: 256, ymm_offset: 576 };

#[test]
fn vector_state_plans() {
    assert_eq!(fpu::plan(AVX), Some(XsavePlan { xcr0: 7, size: 832, avx: true }));
    assert_eq!(fpu::plan(CpuFeatures { leaf1_ecx: 0x0400_0000, ..AVX }), Some(XsavePlan { xcr0: 3, size: 576, avx: false }));
    assert_eq!(fpu::plan(CpuFeatures { leaf1_ecx: 0x1000_0000, ..AVX }), None);
    assert_eq!(fpu::plan(CpuFeatures { supported: 1, ..AVX }), None);
    assert_eq!(fpu::plan(CpuFeatures { ymm_offset: 2000, ..AVX }), None);
    let p = fpu::plan(AVX).unwrap();
    assert!(fpu::programmed(&p, 7, 0x0C00_0000));
    assert!(!fpu::programmed(&p, 3, 0x0C00_0000));
}

#[test]
fn every_cpu_follows_the_first() {
    let mut f = Fpu::new();
    assert!(!fpu::xsave_enabled(&f));
    assert_eq!(fpu::init_ap(&mut f, None), ApFpu::Legacy);
    let mut f = Fpu::new();
    fpu::init(&mut f, fpu::plan(AVX));
    assert!(fpu::xsave_enabled(&f) && fpu::avx_enabled(&f));
    assert_eq!((fpu::area_size(&f), fpu::xcr0(&f)), (832, 7));
    assert_eq!(fpu::init_ap(&mut f, fpu::plan(AVX)), ApFpu::Same);
    assert_eq!(fpu::xsave_cpu_count(&f), 2);
    assert_eq!(fpu::init_ap(&mut f, None), ApFpu::CannotFollow);
    fpu::avx_register_task(&mut f, 5);
    assert_eq!(fpu::avx_task_index(&f), 5);
    let mut a = FpuArea::zeroed();
    a.bytes[512] = 7;
    assert_eq!(fpu::image_xstate_bv(&fpu::new_area(&a)), 7);
}

#[test]
fn vector_rounds_are_judged() {
    let n = fpu::AVX_CHECK_ITERS;
    let lanes = |base: i32| {
        let mut l = [0i32; 8];
        for i in 0..8 {
            l[i] = base + i as i32 + n;
        }
        l
    };
    let a = lanes(1000);
    let b = lanes(2000);
    assert_eq!(fpu::avx_test_task(&a, &b, 1000, 3), AvxRound::Pass);
    assert_eq!(fpu::avx_test_task(&a, &b, 1000, 0), AvxRound::Weak);
    let mut bad = a;
    bad[2] += 1;
    assert_eq!(fpu::avx_test_task(&bad, &b, 1000, 3), AvxRound::Failed(1));
    assert_eq!(fpu::avx_test_task(&b, &b, 1000, 0), AvxRound::Failed(8));
    // Lanes go on from the smallest value past the largest.
    let top = i32::MAX - 3;
    let wrapped = |base: i32| core::array::from_fn(|i| base.wrapping_add(i as i32).wrapping_add(n));
    assert_eq!(fpu::avx_test_task(&wrapped(top), &wrapped(top.wrapping_add(1000)), top, 1), AvxRound::Pass);
    assert_eq!(fpu::avx_test_task(&wrapped(top), &wrapped(top), top, 1), AvxRound::Failed(8));
    assert_eq!(fpu::next_seed(5), 10_005);
    assert_eq!(fpu::next_seed(i32::MAX), i32::MIN + 9_999);
}

#[test]
fn selectors_fit_sysret() {
    let s = selectors();
    assert_eq!((s.code_selector, s.data_selector, s.tss_selector), (0x08, 0x10, 0x18));
    assert_eq!((s.user_data_selector, s.user_code_selector), (0x2B, 0x33));
}
