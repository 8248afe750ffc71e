//! User programs: images, stacks, descriptors and system calls.
use onyxos::elf::{self, elf_region, load_elf, new_plan, ElfLoadInfo, LoadError};
use onyxos::errno::{self, err};
use onyxos::fds::{close_fd, drop_task, file_of, new_fds, open_fd, set_pos};
use onyxos::gdt::selectors;
use onyxos::linux::{self, linux_dispatch, LinuxCall};
use onyxos::scheduler::{self, Events, State};
use onyxos::smp;
use onyxos::syscall::{self, dispatch, Call, Io, SyscallFrame, Wait, MAX_TRANSFER};
use onyxos::userspace::{
    self, at_random_bytes, build_initial_stack, linux_brk, linux_mem_drop, linux_mmap_anon, new_programs, spawn_bytes,
    spawn_bytes_runtime_argv, spawn_from_vfs, take_chunk, Pages, Runtime, SpawnError, LINUX_HEAP_BASE, LINUX_MMAP_BASE,
    USER_STACK_BYTES, USER_TRAMPOLINE,
};
use onyxos::ata::AtaError;
use onyxos::vfs::{DirEntry, FileStat, FsError};

fn put16(b: &mut [u8], at: usize, v: u16) {
    b[at..at + 2].copy_from_slice(&v.to_le_bytes());
}

fn put32(b: &mut [u8], at: usize, v: u32) {
    b[at..at + 4].copy_from_slice(&v.to_le_bytes());
}

fn put64(b: &mut [u8], at: usize, v: u64) {
    b[at..at + 8].copy_from_slice(&v.to_le_bytes());
}

/// An image of one segment at `vaddr`: 0x300 bytes of the file, `memsz` in
/// memory, its program header at 64.
fn image(e_type: u16, vaddr: u64, memsz: u64, entry: u64) -> Vec<u8> {
    let mut e = vec![0u8; 0x300];
    e[..4].copy_from_slice(b"\x7FELF");
    e[4] = 2;
    e[5] = 1;
    put16(&mut e, 16, e_type);
    put64(&mut e, 24, entry);
    put64(&mut e, 32, 64);
    put16(&mut e, 54, 56);
    put16(&mut e, 56, 1);
    put16(&mut e, 58, 64);
    put32(&mut e, 64, 1);
    put32(&mut e, 68, 5);
    put64(&mut e, 64 + 8, 0);
    put64(&mut e, 64 + 16, vaddr);
    put64(&mut e, 64 + 32, 0x300);
    put64(&mut e, 64 + 40, memsz);
    e
}

fn load(e: &[u8]) -> Result<ElfLoadInfo, LoadError> {
    let mut plan = new_plan();
    load_elf(e, &mut plan)
}

#[test]
fn a_static_image_is_placed() {
    let e = image(elf::ET_EXEC, 0x40_0000, 0x1800, 0x40_0100);
    assert_eq!(elf_region(&e), Some((0x40_0000, 0x40_2000)));
    let mut plan = new_plan();
    let info = load_elf(&e, &mut plan).unwrap();
    assert_eq!(info, ElfLoadInfo { entry: 0x40_0100, phnum: 1, phdr_vaddr: Some(0x40_0040), at_base: 0 });
    let s = plan.segments[0];
    assert_eq!((s.start, s.end, s.map_va, s.filesz, s.memsz), (0x40_0000, 0x40_2000, 0x40_0000, 0x300, 0x1800));
    assert!(s.executable && !s.writable);
    assert!(plan.writes.is_empty());
}

#[test]
fn a_movable_image_is_moved_and_relocated() {
    // One relative relocation at 0x1C0 and one section header at 0x200 for it.
    let mut e = image(elf::ET_DYN, 0, 0x1800, 0x100);
    put64(&mut e, 40, 0x200);
    put16(&mut e, 60, 1);
    put32(&mut e, 0x204, elf::SHT_RELA);
    put64(&mut e, 0x200 + 24, 0x1C0);
    put64(&mut e, 0x200 + 32, 24);
    put64(&mut e, 0x200 + 56, 24);
    put64(&mut e, 0x1C0, 0x150);
    put64(&mut e, 0x1C8, elf::R_X86_64_RELATIVE);
    put64(&mut e, 0x1D0, 0x123);
    assert_eq!(elf_region(&e), Some((0x200_0000, 0x200_2000)));
    let mut plan = new_plan();
    let info = load_elf(&e, &mut plan).unwrap();
    assert_eq!(info.entry, 0x200_0100);
    assert_eq!(plan.writes, vec![(0x200_0150, 0x200_0123)]);
    // A target outside the loaded pages is refused.
    put64(&mut e, 0x1C0, 0x5000);
    assert_eq!(load(&e), Err(LoadError::TargetOutside));
}

#[test]
fn bad_images_are_refused() {
    let good = image(elf::ET_EXEC, 0x40_0000, 0x1800, 0x40_0100);
    let with = |at: usize, v: u8| {
        let mut e = good.clone();
        e[at] = v;
        load(&e).err()
    };
    assert_eq!(load(&good[..63]).err(), Some(LoadError::Truncated));
    assert_eq!(with(0, 0), Some(LoadError::BadMagic));
    assert_eq!(with(4, 1), Some(LoadError::NotSixtyFourBit));
    assert_eq!(with(5, 2), Some(LoadError::NotLittleEndian));
    assert_eq!(with(16, 1), Some(LoadError::BadType));
    assert_eq!(with(54, 10), Some(LoadError::BadPhentsize));
    assert_eq!(with(64, 2), Some(LoadError::NoSegments));
    assert_eq!(with(65, 9), Some(LoadError::NoSegments));
    let mut e = good.clone();
    put64(&mut e, 64 + 32, 0x9000);
    assert_eq!(load(&e), Err(LoadError::DataOutOfRange));
    let mut e = good.clone();
    put64(&mut e, 64 + 32, u64::MAX);
    put64(&mut e, 64 + 8, 1);
    assert_eq!(load(&e), Err(LoadError::SizeOverflow));
    let mut e = good.clone();
    put64(&mut e, 64 + 40, 0x10);
    assert_eq!(load(&e), Err(LoadError::MemszBelowFilesz));
    assert_eq!(load(&image(elf::ET_EXEC, 0x1000, 0x1800, 0x40_0100)), Err(LoadError::OutsideRegion));
    assert_eq!(load(&image(elf::ET_EXEC, u64::MAX - 0x2000, 0x1800, 0x40_0100)), Err(LoadError::SegmentSizeOverflow));
    assert_eq!(load(&image(elf::ET_EXEC, 0x40_0000, 0x1800, 0x100)), Err(LoadError::EntryOutOfRange));
    let mut e = good.clone();
    put64(&mut e, 32, 0x400);
    assert_eq!(load(&e), Err(LoadError::PhdrOutOfRange));
    assert_eq!(elf_region(&image(elf::ET_EXEC, 0x1000, 0x1800, 0x1100)), None);
    assert_eq!(elf::message(LoadError::BadMagic), "bad magic");
}

fn argv(words: &[&str]) -> Vec<Vec<u8>> {
    words.iter().map(|w| w.as_bytes().to_vec()).collect()
}

fn word(mem: &[u8], at: usize) -> u64 {
    u64::from_le_bytes(mem[at..at + 8].try_into().unwrap())
}

#[test]
fn arguments_arrive_on_the_stack() {
    let mut mem = vec![0u8; USER_STACK_BYTES];
    let top = 0x4000_0000u64;
    let low = top - USER_STACK_BYTES as u64;
    let info = ElfLoadInfo { entry: 0x40_0100, phnum: 3, phdr_vaddr: Some(0x40_0040), at_base: 0 };
    let random = at_random_bytes(77);
    let sp = build_initial_stack(&mut mem, top, &argv(&["prog", "-x", "file"]), info, &random).unwrap();
    assert_eq!(sp % 16, 0);
    let at = (sp - low) as usize;
    assert_eq!(word(&mem, at), 3);
    let text = |p: u64| {
        let from = (p - low) as usize;
        let n = mem[from..].iter().position(|b| *b == 0).unwrap();
        String::from_utf8(mem[from..from + n].to_vec()).unwrap()
    };
    assert_eq!(text(word(&mem, at + 8)), "prog");
    assert_eq!(text(word(&mem, at + 16)), "-x");
    assert_eq!(text(word(&mem, at + 24)), "file");
    assert_eq!(word(&mem, at + 32), 0);
    assert_eq!(word(&mem, at + 40), 0);
    let mut aux = std::collections::BTreeMap::new();
    let mut p = at + 48;
    while word(&mem, p) != userspace::AT_NULL {
        aux.insert(word(&mem, p), word(&mem, p + 8));
        p += 16;
    }
    assert_eq!(aux[&userspace::AT_ENTRY], 0x40_0100);
    assert_eq!(aux[&userspace::AT_PHDR], 0x40_0040);
    assert_eq!(aux[&userspace::AT_PHNUM], 3);
    assert_eq!(aux[&userspace::AT_PAGESZ], 4096);
    let r = (aux[&userspace::AT_RANDOM] - low) as usize;
    assert_eq!(&mem[r..r + 16], &random[..]);
    let huge = vec![vec![b'a'; USER_STACK_BYTES]];
    assert_eq!(build_initial_stack(&mut mem, top, &huge, info, &random), Err(SpawnError::ArgvTooLarge));
}

const READY: Runtime = Runtime { frames: true, mapper: true };

#[test]
fn programs_stay_apart() {
    let mut p = new_programs();
    let mut stack = vec![0u8; USER_STACK_BYTES];
    let a = image(elf::ET_EXEC, 0x40_0000, 0x1800, 0x40_0100);
    let s = spawn_bytes(&mut p, &a, &argv(&["a"]), 1, &mut stack);
    assert_eq!(s.stack_top, Some(0x4000_0000));
    let started = s.result.unwrap();
    assert_eq!((started.entry, started.region, started.linux), (0x40_0100, (0x40_0000, 0x40_2000), false));
    let again = spawn_bytes(&mut p, &a, &argv(&["a"]), 1, &mut stack);
    assert_eq!(again.result.err(), Some(SpawnError::Overlap));
    assert_eq!(again.stack_top, None);
    let b = image(elf::ET_EXEC, 0x50_0000, 0x1800, 0x50_0100);
    let s = spawn_bytes(&mut p, &b, &argv(&["b"]), 1, &mut stack);
    assert_eq!(s.stack_top, Some(0x5000_0000));
    assert_eq!(p.regions.len(), 2);
    assert_eq!(spawn_bytes(&mut p, b"no", &argv(&["c"]), 1, &mut stack).result.err(), Some(SpawnError::NotElf));
}

#[test]
fn spawning_needs_the_runtime() {
    let mut p = new_programs();
    let mut stack = vec![0u8; USER_STACK_BYTES];
    let mut a = image(elf::ET_EXEC, 0x40_0000, 0x1800, 0x40_0100);
    let none = spawn_bytes_runtime_argv(&mut p, Runtime { frames: false, mapper: true }, &a, &argv(&["a"]), 1, &mut stack);
    assert_eq!(none.result.err(), Some(SpawnError::NoFrames));
    let none = spawn_bytes_runtime_argv(&mut p, Runtime { frames: true, mapper: false }, &a, &argv(&["a"]), 1, &mut stack);
    assert_eq!(none.result.err(), Some(SpawnError::NoMapper));
    let gone = spawn_from_vfs(&mut p, READY, &b"/a".to_vec(), Err(SpawnError::NoSuchFile), 1, &mut stack);
    assert_eq!(gone.result.err(), Some(SpawnError::NoSuchFile));
    a[0x280..0x288].copy_from_slice(b"ONYXLNX\0");
    let s = spawn_from_vfs(&mut p, READY, &b"/a".to_vec(), Ok(&a), 1, &mut stack);
    assert!(s.result.unwrap().linux);
    assert_eq!(userspace::message(SpawnError::TooLarge), "image too large");
}

#[test]
fn images_are_read_in_chunks() {
    let mut image = Vec::new();
    assert_eq!(take_chunk(&mut image, Ok(vec![1, 2, 3])), None);
    assert_eq!(take_chunk(&mut image, Ok(Vec::new())), Some(Ok(())));
    assert_eq!(image, vec![1, 2, 3]);
    assert_eq!(take_chunk(&mut image, Err(FsError::BadFs)), Some(Err(SpawnError::ReadFailed)));
    let mut empty = Vec::new();
    assert_eq!(take_chunk(&mut empty, Ok(Vec::new())), Some(Err(SpawnError::Empty)));
}

#[test]
fn linux_memory_grows() {
    let mut p = new_programs();
    assert_eq!(linux_brk(&mut p, 7, 0), (LINUX_HEAP_BASE, None));
    let (b, pages) = linux_brk(&mut p, 7, LINUX_HEAP_BASE + 0x1801);
    assert_eq!(b, LINUX_HEAP_BASE + 0x2000);
    assert_eq!(pages, Some(Pages { start: LINUX_HEAP_BASE, count: 2 }));
    let (m, pages) = linux_mmap_anon(&mut p, 7, 5000);
    assert_eq!((m, pages), (LINUX_MMAP_BASE, Some(Pages { start: LINUX_MMAP_BASE, count: 2 })));
    assert_eq!(linux_mmap_anon(&mut p, 7, 1).0, LINUX_MMAP_BASE + 0x2000);
    assert_eq!(linux_mmap_anon(&mut p, 8, 1).0, LINUX_MMAP_BASE);
    assert_eq!(linux_mmap_anon(&mut p, 7, 0x1000_0000).1, None);
    linux_mem_drop(&mut p, 7);
    assert_eq!(linux_brk(&mut p, 7, 0).0, LINUX_HEAP_BASE);
}

#[test]
fn descriptors_are_private() {
    let mut f = new_fds();
    assert_eq!(open_fd(&mut f, 1, "/a".to_string()), 3);
    assert_eq!(open_fd(&mut f, 2, "/b".to_string()), 3);
    assert_eq!(open_fd(&mut f, 1, "/c".to_string()), 4);
    set_pos(&mut f, 1, 3, 99);
    assert_eq!(file_of(&f, 1, 3), Some(("/a".to_string(), 99)));
    assert_eq!(file_of(&f, 2, 3), Some(("/b".to_string(), 0)));
    assert_eq!(close_fd(&mut f, 1, 3), 0);
    assert_eq!(close_fd(&mut f, 1, 3), err(errno::EBADF));
    assert_eq!(open_fd(&mut f, 1, "/d".to_string()), 3);
    for _ in 0..3 {
        open_fd(&mut f, 1, "/e".to_string());
    }
    assert_eq!(open_fd(&mut f, 1, "/f".to_string()), err(errno::EMFILE));
    drop_task(&mut f, 1);
    assert_eq!(file_of(&f, 1, 4), None);
    assert!(file_of(&f, 2, 3).is_some());
}

fn frame(rax: u64, args: [u64; 4]) -> SyscallFrame {
    SyscallFrame {
        user_rsp: 0,
        rax,
        rbx: 0,
        rcx: 0,
        rdx: args[2],
        rsi: args[1],
        rdi: args[0],
        rbp: 0,
        r8: args[3],
        r9: 0,
        r10: 0,
        r11: 0,
        r12: 0,
        r13: 0,
        r14: 0,
        r15: 0,
    }
}

#[test]
fn calls_are_decoded() {
    assert_eq!(dispatch(&frame(syscall::SYS_WRITE, [1, 2, 3, 0])), Call::Write { fd: 1, buf: 2, len: 3 });
    assert_eq!(dispatch(&frame(syscall::SYS_RENAME, [1, 2, 3, 4])), Call::Rename { from: 1, from_len: 2, to: 3, to_len: 4 });
    assert_eq!(dispatch(&frame(999, [0; 4])), Call::Unknown);
    assert_eq!(
        linux_dispatch(&frame(linux::WRITE, [1, 2, 3, 0]), 5),
        LinuxCall::Native(Call::Write { fd: 1, buf: 2, len: 3 })
    );
    assert_eq!(linux_dispatch(&frame(linux::GETPID, [0; 4]), 5), LinuxCall::Answer(5));
    assert_eq!(linux_dispatch(&frame(linux::MMAP, [0, 4096, 3, u64::MAX]), 5), LinuxCall::Mmap { len: 4096 });
    assert_eq!(linux_dispatch(&frame(linux::OPENAT, [0, 0, 0, 0]), 5), LinuxCall::Answer(err(errno::EFAULT)));
    assert_eq!(linux_dispatch(&frame(9999, [0; 4]), 5), LinuxCall::Answer(err(errno::ENOSYS)));
}

#[test]
fn paths_from_the_user_are_checked() {
    assert_eq!(syscall::user_path(0, None), Err(err(errno::ENOENT)));
    assert_eq!(syscall::user_path(129, None), Err(err(errno::ENAMETOOLONG)));
    assert_eq!(syscall::user_path(3, None), Err(err(errno::EFAULT)));
    assert_eq!(syscall::user_path(3, Some(b"\xFFab")), Err(err(errno::EINVAL)));
    assert_eq!(syscall::user_path(3, Some(b"a/b")), Err(err(errno::EINVAL)));
    assert_eq!(syscall::user_path(4, Some(b"/a\\b")), Err(err(errno::EINVAL)));
    assert_eq!(syscall::user_path(8, Some("/caf\u{e9}/x".as_bytes())), Ok("/caf\u{e9}/x".to_string()));
}

#[test]
fn file_errors_have_numbers() {
    assert_eq!(syscall::fs_err(FsError::NotFound), err(errno::ENOENT));
    assert_eq!(syscall::fs_err(FsError::Exists), err(errno::EEXIST));
    assert_eq!(syscall::fs_err(FsError::NotSupported), err(errno::EINVAL));
    assert_eq!(syscall::fs_err(FsError::NoSpace), err(errno::ENOSPC));
    assert_eq!(syscall::fs_err(FsError::BadFs), err(errno::EIO));
    assert_eq!(syscall::fs_err(FsError::IsDir), err(errno::EISDIR));
    assert_eq!(syscall::fs_err(FsError::Io(AtaError::Timeout)), err(errno::EIO));
    assert_eq!(syscall::fs_done(Ok(())), 0);
    assert_eq!(syscall::fs_done(Err(FsError::IsDir)), err(errno::EISDIR));
    assert_eq!(syscall::sys_spawn(Ok(9)), 9);
    assert_eq!(syscall::sys_spawn(Err(SpawnError::TooLarge)), err(errno::E2BIG));
    assert_eq!(syscall::sys_spawn(Err(SpawnError::NotElf)), err(errno::ENOEXEC));
}

#[test]
fn reads_and_writes_go_to_descriptors() {
    let mut f = new_fds();
    assert_eq!(syscall::sys_open(&mut f, 1, "/a".to_string(), Ok(()), false), 3);
    assert!(matches!(syscall::sys_write(&f, 1, 1, 10, true), Io::Console(10)));
    assert!(matches!(syscall::sys_write(&f, 1, 1, 10_000, true), Io::Console(MAX_TRANSFER)));
    assert!(matches!(syscall::sys_write(&f, 1, 1, 0, false), Io::Done(0)));
    assert!(matches!(syscall::sys_write(&f, 1, 3, 10, false), Io::Done(e) if e == err(errno::EFAULT)));
    assert!(matches!(syscall::sys_write(&f, 1, 5, 10, true), Io::Done(e) if e == err(errno::EBADF)));
    assert!(matches!(syscall::sys_write(&f, 1, 3, 10, true), Io::File { pos: 0, len: 10, .. }));
    assert_eq!(syscall::transferred(&mut f, 1, 3, Ok(10)), 10);
    assert!(matches!(syscall::sys_read(&f, 1, 3, 10, true), Io::File { pos: 10, len: 10, .. }));
    assert_eq!(syscall::transferred(&mut f, 1, 3, Err(FsError::BadFs)), err(errno::EIO));
    assert_eq!(syscall::sys_seek(&mut f, 1, 3, 4, 0, Ok(100)), 4);
    assert_eq!(syscall::sys_seek(&mut f, 1, 3, u64::MAX, 1, Ok(100)), 3);
    assert_eq!(syscall::sys_seek(&mut f, 1, 3, u64::MAX - 9, 2, Ok(100)), 90);
    assert_eq!(syscall::sys_seek(&mut f, 1, 3, u64::MAX, 0, Ok(100)), err(errno::EINVAL));
    assert_eq!(syscall::sys_seek(&mut f, 1, 3, 0, 7, Ok(100)), err(errno::EINVAL));
    assert_eq!(syscall::sys_seek(&mut f, 1, 4, 0, 0, Ok(100)), err(errno::EBADF));
    assert_eq!(syscall::sys_close(&mut f, 1, 3), 0);
    assert_eq!(syscall::sys_close(&mut f, 1, 3), err(errno::EBADF));
}

#[test]
fn waiting_reads() {
    assert_eq!(syscall::console_step(5, false), Wait::Done(5));
    assert_eq!(syscall::console_step(0, false), Wait::Block);
    assert_eq!(syscall::input_step(24, 1), Wait::Done(24));
    assert_eq!(syscall::input_step(0, 0), Wait::Done(0));
    assert_eq!(syscall::input_step(0, 1), Wait::Block);
    assert_eq!(syscall::sys_input_read(23, true), Err(err(errno::EINVAL)));
    assert_eq!(syscall::sys_input_read(24, false), Err(err(errno::EFAULT)));
    assert_eq!(syscall::sys_sleep(100, 1_500_000), 102);
    assert_eq!(syscall::sys_sleep(100, 2_000_000), 102);
    let mut c = onyxos::time::new_clock();
    assert_eq!((syscall::sys_gettime(0, &c, 5), syscall::sys_gettime(1, &c, 5)), (0, 0));
    assert_eq!(syscall::sys_gettime(2, &c, 5), u64::MAX);
    let m = onyxos::time::Measured { t1: 0, t2: 10, c1: 1000, c2: 100_001_000 };
    assert!(onyxos::time::init(&mut c, 7, 0, 0, Some(m)));
    assert_eq!(syscall::sys_gettime(0, &c, 1_000_001_000), 1_000_000_000);
    assert_eq!(syscall::sys_gettime(1, &c, 1_000_001_000), 8_000_000_000);
    assert_eq!(syscall::stat_record(FileStat { size: 0x1234, is_dir: true })[..9], [0x34, 0x12, 0, 0, 0, 0, 0, 0, 1]);
}

#[test]
fn listings_as_text() {
    let es = vec![
        DirEntry { name: "A.TXT".to_string(), size: 3, is_dir: false },
        DirEntry { name: "SUB".to_string(), size: 0, is_dir: true },
    ];
    assert_eq!(
        syscall::ls_lines("fat32", &"/".to_string(), &es),
        vec!["vfs: fat32 / (2 entries)", "vfs:   A.TXT (3 bytes)", "vfs:   SUB (0 bytes, dir)"]
    );
}

#[test]
fn command_lines_are_split() {
    let words = |s: &str| {
        syscall::command_words(&s.to_string()).iter().map(|w| w.iter().collect::<String>()).collect::<Vec<String>>()
    };
    assert_eq!(words("/bin/cat  a.txt\tb"), vec!["/bin/cat", "a.txt", "b"]);
    assert_eq!(words("a\u{2003}b"), vec!["a", "b"]);
    assert_eq!(words("a\u{A0}b\u{3000}c\u{200B}d"), vec!["a", "b", "c\u{200B}d"]);
    assert!(words("  ").is_empty());
    let s: Vec<char> = "a b".chars().collect();
    assert_eq!(syscall::split_words(&s, &vec![false, true, false]), vec![vec!['a'], vec!['b']]);
    assert_eq!(syscall::split_words(&s, &vec![false, false, false]), vec![vec!['a', ' ', 'b']]);
}

const QUIET: Events = Events { now_ms: 0, line_pending: false, raw_pending: false };

#[test]
fn exit_wait_and_kill() {
    let mut s = scheduler::new_sched();
    let mut fds = new_fds();
    let mut progs = new_programs();
    let parent = scheduler::spawn(&mut s, 0, 0x1000);
    scheduler::preempt(&mut s, 0, QUIET);
    assert_eq!(scheduler::current_task_id(&s, 0), parent);
    assert_eq!(syscall::sys_waitpid(&mut s, 0, 0), Some(err(errno::ECHILD)));
    let child = scheduler::spawn_user(&mut s, 0, 0x2000);
    scheduler::preempt(&mut s, 1, QUIET);
    open_fd(&mut fds, child, "/x".to_string());
    assert_eq!(syscall::sys_waitpid(&mut s, 0, child), None);
    assert_eq!(s.tasks[0].state, State::Blocked);
    let mut f = frame(syscall::SYS_EXIT, [42, 0, 0, 0]);
    syscall::sys_exit(&mut s, 1, &mut fds, &mut progs, &mut f);
    assert_eq!((f.rcx, f.r11), (USER_TRAMPOLINE, 0x202));
    assert_eq!(file_of(&fds, child, 3), None);
    assert_eq!(syscall::sys_waitpid(&mut s, 0, child), Some(child << 32 | 42));
    let other = scheduler::spawn_user(&mut s, 0, 0x3000);
    let mut f = frame(syscall::SYS_KILL, [other, 0, 0, 0]);
    assert!(syscall::sys_kill(&mut s, 0, &mut fds, &mut progs, &mut f).is_some());
    assert_eq!(syscall::sys_waitpid(&mut s, 0, other), Some(other << 32 | 137));
}

#[test]
fn the_entry_registers() {
    let mut cpus = smp::new_smp();
    let m = syscall::init(&mut cpus, selectors(), 0xFFFF_8000_0000_1000);
    assert_eq!(m.star, 0x0020_0008_0000_0000);
    assert_eq!(m.lstar, 0xFFFF_8000_0000_1000);
    assert_eq!((m.sfmask, m.efer_sce), (syscall::SFMASK, 1));
    assert_eq!(syscall::program_msrs(selectors(), 5).star, m.star);
    syscall::set_kernel_stack_top(&mut cpus, 2, 0x9000);
    assert_eq!(smp::this_cpu(&cpus, 2).kstack_top, 0x9000);
}

#[test]
fn user_buffers_need_user_pages() {
    // Tables at 0x1000, 0x2000, 0x3000 and 0x4000; pages 5 and 6 of the space.
    let mut mem = vec![0u64; 0x5000 / 8];
    mem[0x1000 / 8] = 0x2007;
    mem[0x2000 / 8] = 0x3007;
    mem[0x3000 / 8] = 0x4007;
    mem[0x4000 / 8 + 5] = 0x8_0007;
    mem[0x4000 / 8 + 6] = 0x9_0005;
    mem[0x4000 / 8 + 7] = 0xA_0003;
    assert!(syscall::user_buf_ok(&mem, 0x1000, 0x5800, 0x1000, false));
    assert!(!syscall::user_buf_ok(&mem, 0x1000, 0x5800, 0x1000, true));
    assert!(syscall::user_buf_ok(&mem, 0x1000, 0x5000, 0x1000, true));
    assert!(!syscall::user_buf_ok(&mem, 0x1000, 0x6800, 0x1000, false));
    assert!(!syscall::user_buf_ok(&mem, 0x1000, 0x800, 0x10, false));
    assert!(!syscall::user_buf_ok(&mem, 0x1000, u64::MAX - 5, 100, false));
    assert!(syscall::user_buf_ok(&mem, 0x1000, 0, 0, true));
}

#[test]
fn linux_answers() {
    assert_eq!(linux::linux_cstr_len(b"ab\0c"), Some(2));
    assert_eq!(linux::linux_cstr_len(b"abc"), None);
    let mut mem = [1u8; 3];
    assert!(!linux::linux_zero_user(&vec![true, false, true], &mut mem));
    assert_eq!(mem, [1; 3]);
    assert!(linux::linux_zero_user(&vec![true; 3], &mut mem));
    assert_eq!(mem, [0; 3]);
    assert_eq!(linux::iov_at(0x1000, 2), 0x1020);
    assert_eq!(linux::writev_step(5, 7), Ok(12));
    let u = linux::uname_bytes();
    assert_eq!(&u[..7], b"OnyxOS\0");
    assert_eq!(&u[260..266], b"x86_64");
    assert_eq!(linux::getcwd(2, true), Ok(b"/\0".to_vec()));
    assert!(linux::getcwd(1, true).is_err() && linux::getcwd(2, false).is_err());
    assert_eq!(linux::nanosleep_ns(2, 5), 2_000_000_005);
    assert_eq!(linux::clock_gettime(1, 3_000_000_007, 9_000_000_001), (3, 7));
    assert_eq!(linux::clock_gettime(0, 3_000_000_007, 9_000_000_001), (9, 1));
    let (b, next) = linux::getrandom(1, 2, true).unwrap();
    let step = |s: u64| {
        let a = s ^ (s << 13);
        let c = a ^ (a >> 7);
        c ^ (c << 17)
    };
    assert_eq!(b, vec![step(1) as u8, step(step(1)) as u8]);
    assert_eq!(next, step(step(1)));
    assert_eq!(linux::getrandom(1, 0, true), Err(err(errno::EFAULT)));
}
