//! User programs: where they go in the one user address space, their
//! process-start stack, and the memory of Linux binaries.
//!
//! Layout of the low half:
//!   0x003F_F000  exit trampoline page
//!   0x0040_0000  program images, up to 256 MiB
//!   0x0400_0000  heap of a Linux binary
//!   0x0800_0000  anonymous mappings of a Linux binary
//!   0x4000_0000  stacks, 256 MiB apart
use vstd::prelude::*;

use crate::bytes::{law_le64_roundtrip, le64, le64_bytes, put_bytes, put_u64, splice};
use crate::elf::{elf_region, load_elf, loads, new_plan, page_ceil, region_of, ElfLoadInfo, LoadError,
    LoadPlan};
use crate::errno::{err, EINVAL, ENOMEM};
use crate::vfs::FsError;

verus! {

/// Address of the two-byte exit trampoline (`jmp $`).
pub const USER_TRAMPOLINE: u64 = 0x3F_F000;

/// Pages of a user stack.
pub const USER_STACK_PAGES: u64 = 16;

/// Bytes of a user stack.
pub const USER_STACK_BYTES: usize = 65536;

/// Start of the heap of a Linux binary.
pub const LINUX_HEAP_BASE: u64 = 0x400_0000;

/// Start of the anonymous mappings of a Linux binary, and end of its heap.
pub const LINUX_MMAP_BASE: u64 = 0x800_0000;

/// End of the anonymous mappings.
pub const LINUX_MMAP_END: u64 = 0x1000_0000;

/// Why a program is not started.
#[derive(Clone, Copy, PartialEq, Eq, Debug)]
pub enum SpawnError {
    NotElf,
    Overlap,
    Load(LoadError),
    ArgvTooLarge,
    NoMapper,
    NoFrames,
    NoSuchFile,
    ReadFailed,
    TooLarge,
    Empty,
}

/// The reason in words.
pub open spec fn spawn_message(e: SpawnError) -> Seq<char> {
    match e {
        SpawnError::NotElf => "not a valid ELF64 user program"@,
        SpawnError::Overlap => "region overlaps an already-loaded program"@,
        SpawnError::Load(l) => crate::elf::load_message(l),
        SpawnError::ArgvTooLarge => "argv/envp too large for the user stack"@,
        SpawnError::NoMapper => "runtime mapper unavailable"@,
        SpawnError::NoFrames => "runtime frame allocator unavailable"@,
        SpawnError::NoSuchFile => "no such file"@,
        SpawnError::ReadFailed => "VFS read failed"@,
        SpawnError::TooLarge => "image too large"@,
        SpawnError::Empty => "empty file"@,
    }
}

/// The reason in words.
pub fn message(e: SpawnError) -> (r: &'static str)
    ensures
        r@ == spawn_message(e),
{
    match e {
        SpawnError::NotElf => "not a valid ELF64 user program",
        SpawnError::Overlap => "region overlaps an already-loaded program",
        SpawnError::Load(l) => crate::elf::message(l),
        SpawnError::ArgvTooLarge => "argv/envp too large for the user stack",
        SpawnError::NoMapper => "runtime mapper unavailable",
        SpawnError::NoFrames => "runtime frame allocator unavailable",
        SpawnError::NoSuchFile => "no such file",
        SpawnError::ReadFailed => "VFS read failed",
        SpawnError::TooLarge => "image too large",
        SpawnError::Empty => "empty file",
    }
}

// ---------------------------------------------------------------------------
// Memory of Linux binaries
// ---------------------------------------------------------------------------

/// How far a task's heap and its mappings reach.
#[derive(Clone, Copy, PartialEq, Eq, Debug, Structural)]
pub struct LinuxMem {
    pub pid: u64,
    pub brk: u64,
    pub mmap: u64,
}

/// The loaded programs and their memory.
pub struct Programs {
    /// The page extents of the loaded programs.
    pub regions: Vec<(u64, u64)>,
    /// User stacks handed out.
    pub stack_slots: u64,
    pub linux: Vec<LinuxMem>,
}

/// A task's record makes sense: both ends are page-aligned and in their arenas.
pub open spec fn mem_ok(m: LinuxMem) -> bool {
    &&& LINUX_HEAP_BASE <= m.brk <= LINUX_MMAP_BASE
    &&& LINUX_MMAP_BASE <= m.mmap <= LINUX_MMAP_END
    &&& m.brk % 0x1000 == 0
    &&& m.mmap % 0x1000 == 0
}

/// Two page extents share nothing.
pub open spec fn apart(a: (u64, u64), b: (u64, u64)) -> bool {
    a.1 <= b.0 || b.1 <= a.0
}

impl Programs {
    /// The loaded programs do not overlap, no task has two memory records, and
    /// every record makes sense.
    pub open spec fn wf(&self) -> bool {
        &&& forall|i: int, j: int|
            0 <= i < j < self.regions@.len() ==> apart(
                #[trigger] self.regions@[i],
                #[trigger] self.regions@[j],
            )
        &&& forall|i: int| 0 <= i < self.linux@.len() ==> mem_ok(#[trigger] self.linux@[i])
        &&& forall|i: int, j: int|
            0 <= i < j < self.linux@.len() ==> (#[trigger] self.linux@[i]).pid != (
            #[trigger] self.linux@[j]).pid
    }
}

/// Nothing loaded.
pub fn new_programs() -> (p: Programs)
    ensures
        p.wf(),
        p.regions@.len() == 0,
        p.stack_slots == 0,
        p.linux@.len() == 0,
{
    Programs { regions: Vec::new(), stack_slots: 0, linux: Vec::new() }
}

/// The number of a task's record from `k` on.
pub open spec fn mem_at(ms: Seq<LinuxMem>, pid: u64, k: int) -> Option<int>
    decreases ms.len() - k,
{
    if k >= ms.len() {
        None
    } else if ms[k].pid == pid {
        Some(k)
    } else {
        mem_at(ms, pid, k + 1)
    }
}

/// A task's record; a fresh one where it has none.
pub open spec fn mem_of(ms: Seq<LinuxMem>, pid: u64) -> LinuxMem {
    match mem_at(ms, pid, 0) {
        Some(k) => ms[k],
        None => LinuxMem { pid, brk: LINUX_HEAP_BASE, mmap: LINUX_MMAP_BASE },
    }
}

/// The records with that of `m.pid` replaced or added.
pub open spec fn mem_set(ms: Seq<LinuxMem>, m: LinuxMem) -> Seq<LinuxMem> {
    match mem_at(ms, m.pid, 0) {
        Some(k) => ms.update(k, m),
        None => ms.push(m),
    }
}

proof fn lemma_mem_at(ms: Seq<LinuxMem>, pid: u64, k: int)
    requires
        0 <= k,
    ensures
        match mem_at(ms, pid, k) {
            Some(i) => k <= i < ms.len() && ms[i].pid == pid,
            None => forall|i: int| k <= i < ms.len() ==> (#[trigger] ms[i]).pid != pid,
        },
    decreases ms.len() - k,
{
    if k < ms.len() && ms[k].pid != pid {
        lemma_mem_at(ms, pid, k + 1);
    }
}

fn find_mem(ms: &Vec<LinuxMem>, pid: u64) -> (r: Option<usize>)
    ensures
        match r {
            Some(k) => mem_at(ms@, pid, 0) == Some(k as int) && k < ms@.len() && ms@[k as int].pid
                == pid,
            None => mem_at(ms@, pid, 0) is None,
        },
{
    let mut k: usize = 0;
    while k < ms.len()
        invariant
            k <= ms@.len(),
            mem_at(ms@, pid, 0) == mem_at(ms@, pid, k as int),
        decreases ms@.len() - k,
    {
        if ms[k].pid == pid {
            return Some(k);
        }
        k += 1;
    }
    None
}

/// Save a task's record.
fn linux_mem_set(p: &mut Programs, m: LinuxMem)
    requires
        old(p).wf(),
        mem_ok(m),
    ensures
        final(p).wf(),
        final(p).linux@ == mem_set(old(p).linux@, m),
        final(p).regions@ == old(p).regions@,
        final(p).stack_slots == old(p).stack_slots,
{
    proof {
        lemma_mem_at(p.linux@, m.pid, 0);
    }
    match find_mem(&p.linux, m.pid) {
        Some(k) => {
            p.linux[k] = m;
        },
        None => {
            p.linux.push(m);
        },
    }
}

/// A task's record.
fn linux_mem_entry(p: &Programs, pid: u64) -> (m: LinuxMem)
    requires
        p.wf(),
    ensures
        m == mem_of(p.linux@, pid),
        mem_ok(m),
        m.pid == pid,
{
    match find_mem(&p.linux, pid) {
        Some(k) => p.linux[k],
        None => LinuxMem { pid, brk: LINUX_HEAP_BASE, mmap: LINUX_MMAP_BASE },
    }
}

/// The records without a task's.
pub open spec fn mem_without(ms: Seq<LinuxMem>, pid: u64) -> Seq<LinuxMem>
    decreases ms.len(),
{
    if ms.len() == 0 {
        ms
    } else if ms.last().pid == pid {
        mem_without(ms.drop_last(), pid)
    } else {
        mem_without(ms.drop_last(), pid).push(ms.last())
    }
}

proof fn lemma_without(ms: Seq<LinuxMem>, pid: u64)
    requires
        forall|i: int| 0 <= i < ms.len() ==> mem_ok(#[trigger] ms[i]),
        forall|i: int, j: int|
            0 <= i < j < ms.len() ==> (#[trigger] ms[i]).pid != (#[trigger] ms[j]).pid,
    ensures
        forall|i: int|
            0 <= i < mem_without(ms, pid).len() ==> mem_ok(#[trigger] mem_without(ms, pid)[i])
                && mem_without(ms, pid)[i].pid != pid && ms.contains(mem_without(ms, pid)[i]),
        forall|i: int, j: int|
            0 <= i < j < mem_without(ms, pid).len() ==> (#[trigger] mem_without(ms, pid)[i]).pid
                != (#[trigger] mem_without(ms, pid)[j]).pid,
    decreases ms.len(),
{
    if ms.len() > 0 {
        let front = ms.drop_last();
        lemma_without(front, pid);
        let w = mem_without(front, pid);
        assert forall|i: int| 0 <= i < w.len() implies ms.contains(#[trigger] w[i]) && w[i].pid
            != ms.last().pid by {
            let k = choose|k: int| 0 <= k < front.len() && front[k] == w[i];
            assert(front.contains(w[i]));
            assert(ms[k] == w[i]);
        }
        if ms.last().pid != pid {
            let all = w.push(ms.last());
            assert forall|i: int| 0 <= i < all.len() implies ms.contains(#[trigger] all[i]) by {
                if i == w.len() {
                    assert(ms[ms.len() - 1] == all[i]);
                } else {
                    assert(all[i] == w[i]);
                }
            }
        }
    }
}

/// Forget a task's heap and mappings, when it exits or is killed.
pub fn linux_mem_drop(p: &mut Programs, pid: u64)
    requires
        old(p).wf(),
    ensures
        final(p).wf(),
        final(p).linux@ == mem_without(old(p).linux@, pid),
        mem_at(final(p).linux@, pid, 0) is None,
        final(p).regions@ == old(p).regions@,
        final(p).stack_slots == old(p).stack_slots,
{
    let mut kept: Vec<LinuxMem> = Vec::new();
    let ghost all = p.linux@;
    let mut k: usize = 0;
    assert(kept@ =~= mem_without(all.take(0), pid));
    while k < p.linux.len()
        invariant
            all == p.linux@,
            k <= all.len(),
            kept@ == mem_without(all.take(k as int), pid),
        decreases all.len() - k,
    {
        let m = p.linux[k];
        proof {
            let t = all.take(k + 1);
            assert(t.drop_last() =~= all.take(k as int));
            assert(t.last() == m);
        }
        if m.pid != pid {
            kept.push(m);
        }
        k += 1;
    }
    assert(all.take(all.len() as int) =~= all);
    proof {
        lemma_without(all, pid);
        lemma_mem_at(kept@, pid, 0);
    }
    p.linux = kept;
}

/// Pages to map from an address on.
#[derive(Clone, Copy, PartialEq, Eq, Debug, Structural)]
pub struct Pages {
    pub start: u64,
    pub count: u64,
}

/// `brk(addr)`: the break is asked for by 0; otherwise the heap grows to
/// `addr`, rounded up to a page. Shrinking and leaving the arena are refused
/// with the current break. Answers the break and the pages to map.
pub fn linux_brk(p: &mut Programs, pid: u64, addr: u64) -> (r: (u64, Option<Pages>))
    requires
        old(p).wf(),
    ensures
        final(p).wf(),
        final(p).regions@ == old(p).regions@,
        final(p).stack_slots == old(p).stack_slots,
        ({
            let m = mem_of(old(p).linux@, pid);
            if addr == 0 || addr <= m.brk || addr >= LINUX_MMAP_BASE {
                r == (m.brk, None::<Pages>) && final(p).linux@ == mem_set(old(p).linux@, m)
            } else {
                let top = page_ceil(addr as int);
                &&& r.0 == top
                &&& r.1 == Some(
                    Pages { start: m.brk, count: ((top - m.brk) / 0x1000) as u64 },
                )
                &&& final(p).linux@ == mem_set(
                    old(p).linux@,
                    LinuxMem { brk: top as u64, ..m },
                )
            }
        }),
{
    let m = linux_mem_entry(p, pid);
    if addr == 0 || addr <= m.brk || addr >= LINUX_MMAP_BASE {
        linux_mem_set(p, m);
        return (m.brk, None);
    }
    let top = addr + 0xFFF - (addr + 0xFFF) % 0x1000;
    let count = (top - m.brk) / 0x1000;
    linux_mem_set(p, LinuxMem { brk: top, ..m });
    (top, Some(Pages { start: m.brk, count }))
}

/// Anonymous `mmap(len)`: a fresh page-aligned region. Answers its address or
/// an errno, and the pages to map.
pub fn linux_mmap_anon(p: &mut Programs, pid: u64, len: u64) -> (r: (u64, Option<Pages>))
    requires
        old(p).wf(),
    ensures
        final(p).wf(),
        final(p).regions@ == old(p).regions@,
        final(p).stack_slots == old(p).stack_slots,
        ({
            let m = mem_of(old(p).linux@, pid);
            let end = m.mmap + page_ceil(len as int);
            if len == 0 {
                r == (err(EINVAL), None::<Pages>) && final(p).linux@ == old(p).linux@
            } else if end > LINUX_MMAP_END {
                r == (err(ENOMEM), None::<Pages>) && final(p).linux@ == mem_set(old(p).linux@, m)
            } else {
                &&& r.0 == m.mmap
                &&& r.1 == Some(
                    Pages { start: m.mmap, count: (page_ceil(len as int) / 0x1000) as u64 },
                )
                &&& final(p).linux@ == mem_set(
                    old(p).linux@,
                    LinuxMem { mmap: end as u64, ..m },
                )
            }
        }),
{
    if len == 0 {
        return (err(EINVAL), None);
    }
    let m = linux_mem_entry(p, pid);
    if len > LINUX_MMAP_END - m.mmap {
        linux_mem_set(p, m);
        return (err(ENOMEM), None);
    }
    let size = len + 0xFFF - (len + 0xFFF) % 0x1000;
    linux_mem_set(p, LinuxMem { mmap: m.mmap + size, ..m });
    (m.mmap, Some(Pages { start: m.mmap, count: size / 0x1000 }))
}

proof fn lemma_set_at(ms: Seq<LinuxMem>, m: LinuxMem, k: int)
    requires
        0 <= k,
    ensures
        mem_at(mem_set(ms, m), m.pid, k) == match mem_at(ms, m.pid, k) {
            Some(i) => Some(i),
            None => if mem_at(ms, m.pid, 0) is None && k <= ms.len() {
                Some(ms.len() as int)
            } else {
                None
            },
        },
    decreases ms.len() + 1 - k,
{
    lemma_mem_at(ms, m.pid, 0);
    lemma_mem_at(ms, m.pid, k);
    if k <= ms.len() {
        lemma_set_at(ms, m, k + 1);
    }
}

/// A saved record is the one read back.
proof fn lemma_mem_saved(ms: Seq<LinuxMem>, m: LinuxMem)
    ensures
        mem_of(mem_set(ms, m), m.pid) == m,
{
    lemma_set_at(ms, m, 0);
    lemma_mem_at(ms, m.pid, 0);
}

/// The next mapping of a task starts behind the last one, and its heap never
/// reaches into its mappings.
pub proof fn law_mappings_are_fresh(ms: Seq<LinuxMem>, pid: u64, len: int)
    requires
        forall|i: int| 0 <= i < ms.len() ==> mem_ok(#[trigger] ms[i]),
        0 < len,
        mem_of(ms, pid).mmap + page_ceil(len) <= LINUX_MMAP_END,
    ensures
        ({
            let m = mem_of(ms, pid);
            let next = mem_of(
                mem_set(ms, LinuxMem { mmap: (m.mmap + page_ceil(len)) as u64, ..m }),
                pid,
            );
            &&& next.mmap >= m.mmap + len
            &&& next.brk == m.brk
            &&& m.brk <= m.mmap
        }),
{
    let m = mem_of(ms, pid);
    lemma_mem_at(ms, pid, 0);
    lemma_mem_saved(ms, LinuxMem { mmap: (m.mmap + page_ceil(len)) as u64, ..m });
}

// ---------------------------------------------------------------------------
// The process-start stack
// ---------------------------------------------------------------------------

pub const AT_NULL: u64 = 0;

pub const AT_PHDR: u64 = 3;

pub const AT_PHENT: u64 = 4;

pub const AT_PHNUM: u64 = 5;

pub const AT_PAGESZ: u64 = 6;

pub const AT_BASE: u64 = 7;

pub const AT_ENTRY: u64 = 9;

pub const AT_RANDOM: u64 = 25;

pub const AT_EXECFN: u64 = 31;

/// The sum of two words, wrapped.
pub open spec fn wrapping_sum(a: u64, b: u64) -> u64 {
    ((a + b) % 0x1_0000_0000_0000_0000) as u64
}

/// The product of two words, wrapped.
pub open spec fn wrapping_product(a: u64, b: u64) -> u64 {
    ((a * b) % 0x1_0000_0000_0000_0000) as u64
}

/// The mixer behind the start-up random bytes.
#[verifier::opaque]
pub open spec fn mixed(state: u64) -> u64 {
    let a = wrapping_product(state ^ (state >> 30), 0xBF58_476D_1CE4_E5B9);
    let b = wrapping_product(a ^ (a >> 27), 0x94D0_49BB_1331_11EB);
    b ^ (b >> 31)
}

/// The sixteen start-up random bytes for a clock reading.
pub open spec fn random_bytes(tsc: u64) -> Seq<u8> {
    let s = wrapping_sum(tsc, 0x9E37_79B9_7F4A_7C15);
    let t = wrapping_sum(s, 0x9E37_79B9_7F4A_7C15);
    two_words_bytes(mixed(s), mixed(t))
}

/// Two words, least significant byte first.
#[verifier::opaque]
pub open spec fn two_words_bytes(a: u64, b: u64) -> Seq<u8> {
    le64_bytes(a as int) + le64_bytes(b as int)
}

fn mix(state: u64) -> (r: u64)
    ensures
        r == mixed(state),
{
    reveal(mixed);
    let a = (state ^ (state >> 30)).wrapping_mul(0xBF58_476D_1CE4_E5B9);
    let b = (a ^ (a >> 27)).wrapping_mul(0x94D0_49BB_1331_11EB);
    b ^ (b >> 31)
}

/// The sixteen start-up random bytes for a clock reading. They are there for
/// the ABI's sake and are no secret.
pub fn at_random_bytes(tsc: u64) -> (r: Vec<u8>)
    ensures
        r@ == random_bytes(tsc),
        r@.len() == 16,
{
    let s = tsc.wrapping_add(0x9E37_79B9_7F4A_7C15);
    let t = s.wrapping_add(0x9E37_79B9_7F4A_7C15);
    two_words(mix(s), mix(t))
}

fn two_words(a: u64, b: u64) -> (r: Vec<u8>)
    ensures
        r@ == two_words_bytes(a, b),
        r@.len() == 16,
{
    reveal(two_words_bytes);
    let mut r = crate::bytes::zeros(16);
    put_u64(r.as_mut_slice(), 0, a);
    put_u64(r.as_mut_slice(), 8, b);
    let ghost x = le64_bytes(a as int);
    let ghost y = le64_bytes(b as int);
    assert(x.len() == 8 && y.len() == 8);
    assert forall|k: int| 0 <= k < 16 implies r@[k] == (x + y)[k] by {}
    assert(r@ =~= x + y);
    r
}

/// The strings from number `i` on, each with its zero byte.
pub open spec fn strings_from(argv: Seq<Vec<u8>>, i: int) -> Seq<u8>
    decreases argv.len() - i,
{
    if i >= argv.len() {
        Seq::empty()
    } else {
        argv[i]@.push(0) + strings_from(argv, i + 1)
    }
}

/// Sixteen-byte alignment downwards.
pub open spec fn aligned16(x: int) -> int {
    x - x % 16
}

/// Where string `i` starts.
pub open spec fn string_at(top: int, argv: Seq<Vec<u8>>, i: int) -> int {
    aligned16(top) - 16 - strings_from(argv, i).len()
}

/// Bytes of the argument block: argc, argv, envp and nine auxiliary pairs.
pub open spec fn block_len(n: int) -> int {
    8 * (3 + n) + 144
}

/// The stack pointer at entry.
pub open spec fn entry_sp(top: int, argv: Seq<Vec<u8>>) -> int {
    aligned16(string_at(top, argv, 0) - block_len(argv.len() as int))
}

/// The words of the argument block.
pub open spec fn start_words(top: int, argv: Seq<Vec<u8>>, info: ElfLoadInfo) -> Seq<u64> {
    block_words(
        Seq::new(argv.len(), |i: int| string_at(top, argv, i) as u64),
        info,
        (aligned16(top) - 16) as u64,
    )
}

/// `s` with the first `n` words written from `at` on.
pub open spec fn words_put(s: Seq<u8>, at: int, ws: Seq<u64>, n: int) -> Seq<u8>
    decreases n,
{
    if n <= 0 {
        s
    } else {
        splice(words_put(s, at, ws, n - 1), at + 8 * (n - 1), le64_bytes(ws[n - 1] as int))
    }
}

/// The stack whose top is at `top`, after the start-up data was put on it.
pub open spec fn start_stack(mem: Seq<u8>, top: int, argv: Seq<Vec<u8>>, info: ElfLoadInfo, random: Seq<u8>) -> Seq<u8> {
    let low = top - mem.len();
    let ws = start_words(top, argv, info);
    words_put(
        splice(mem, string_at(top, argv, 0) - low, strings_from(argv, 0) + random),
        entry_sp(top, argv) - low,
        ws,
        ws.len() as int,
    )
}

/// The start-up data fits the stack with room to spare.
pub open spec fn stack_fits(argv: Seq<Vec<u8>>) -> bool {
    16 + strings_from(argv, 0).len() + block_len(argv.len() as int) + 64 <= USER_STACK_BYTES
}

pub(crate) proof fn lemma_strings_len(argv: Seq<Vec<u8>>, i: int)
    requires
        0 <= i <= argv.len(),
    ensures
        strings_from(argv, i).len() >= argv.len() - i,
        i < argv.len() ==> strings_from(argv, i).len() == argv[i]@.len() + 1 + strings_from(
            argv,
            i + 1,
        ).len(),
    decreases argv.len() - i,
{
    if i < argv.len() {
        lemma_strings_len(argv, i + 1);
    }
}

proof fn lemma_strings_shrink(argv: Seq<Vec<u8>>, i: int, j: int)
    requires
        0 <= i <= j <= argv.len(),
    ensures
        strings_from(argv, j).len() <= strings_from(argv, i).len(),
    decreases j - i,
{
    lemma_strings_len(argv, i);
    if i < j {
        lemma_strings_shrink(argv, i + 1, j);
    }
}

/// The total length of the strings with their zero bytes, at most `limit`.
fn strings_len(argv: &Vec<Vec<u8>>, limit: usize) -> (r: Option<usize>)
    requires
        limit <= 0x1_0000,
    ensures
        match r {
            Some(n) => n == strings_from(argv@, 0).len() && n <= limit,
            None => strings_from(argv@, 0).len() > limit,
        },
{
    let mut i: usize = argv.len();
    let mut total: usize = 0;
    while i > 0
        invariant
            i <= argv@.len(),
            limit <= 0x1_0000,
            total == strings_from(argv@, i as int).len(),
            total <= limit,
        decreases i,
    {
        let n = argv[i - 1].len();
        proof {
            lemma_strings_len(argv@, i - 1);
            lemma_strings_shrink(argv@, 0, i - 1);
        }
        if n >= limit - total {
            return None;
        }
        total = total + n + 1;
        i -= 1;
    }
    Some(total)
}

fn put_words(mem: &mut [u8], at: usize, ws: &Vec<u64>)
    requires
        at + 8 * ws@.len() <= old(mem)@.len(),
    ensures
        final(mem)@ == words_put(old(mem)@, at as int, ws@, ws@.len() as int),
        final(mem)@.len() == old(mem)@.len(),
{
    let total = mem.len();
    let mut k: usize = 0;
    while k < ws.len()
        invariant
            total == mem@.len() == old(mem)@.len(),
            at + 8 * ws@.len() <= total,
            k <= ws@.len(),
            mem@ == words_put(old(mem)@, at as int, ws@, k as int),
        decreases ws@.len() - k,
    {
        put_u64(mem, at + 8 * k, ws[k]);
        k += 1;
    }
}

/// Write the strings downwards from `at`, and note where each starts.
fn put_strings(mem: &mut [u8], low: u64, top: u64, argv: &Vec<Vec<u8>>) -> (r: Vec<u64>)
    requires
        old(mem)@.len() == USER_STACK_BYTES,
        low + USER_STACK_BYTES == top,
        stack_fits(argv@),
    ensures
        final(mem)@ == splice(
            old(mem)@,
            string_at(top as int, argv@, 0) - low,
            strings_from(argv@, 0),
        ),
        r@ == Seq::new(argv@.len(), |i: int| string_at(top as int, argv@, i) as u64),
{
    let base = top - top % 16 - 16;
    let mut ptrs: Vec<u64> = Vec::new();
    let mut i: usize = argv.len();
    let mut sp = base;
    assert(mem@ =~= splice(mem@, base - low, Seq::empty()));
    while i > 0
        invariant
            i <= argv@.len(),
            mem@.len() == old(mem)@.len() == USER_STACK_BYTES,
            low + USER_STACK_BYTES == top,
            stack_fits(argv@),
            base == aligned16(top as int) - 16,
            sp == string_at(top as int, argv@, i as int),
            low + 100 <= sp <= base,
            ptrs@.len() == argv@.len() - i,
            forall|k: int|
                0 <= k < ptrs@.len() ==> #[trigger] ptrs@[k] == string_at(
                    top as int,
                    argv@,
                    argv@.len() - 1 - k,
                ) as u64,
            mem@ == splice(old(mem)@, sp - low, strings_from(argv@, i as int)),
        decreases i,
    {
        let s = &argv[i - 1];
        proof {
            lemma_strings_len(argv@, i - 1);
            lemma_strings_shrink(argv@, 0, i - 1);
        }
        let mut z = crate::bytes::copy_range(s.as_slice(), 0, s.len());
        assert(z@ =~= s@);
        z.push(0);
        let n = z.len();
        let ghost before = mem@;
        let next = sp - n as u64;
        put_bytes(mem, (next - low) as usize, z.as_slice());
        assert(mem@ =~= splice(old(mem)@, next - low, strings_from(argv@, i - 1)));
        sp = next;
        ptrs.push(sp);
        i -= 1;
    }
    let mut r: Vec<u64> = Vec::new();
    let mut k: usize = ptrs.len();
    while k > 0
        invariant
            k <= ptrs@.len(),
            ptrs@.len() == argv@.len(),
            r@.len() == ptrs@.len() - k,
            forall|j: int|
                0 <= j < ptrs@.len() ==> #[trigger] ptrs@[j] == string_at(
                    top as int,
                    argv@,
                    argv@.len() - 1 - j,
                ) as u64,
            forall|j: int|
                0 <= j < r@.len() ==> #[trigger] r@[j] == string_at(top as int, argv@, j) as u64,
        decreases k,
    {
        r.push(ptrs[k - 1]);
        k -= 1;
    }
    assert(r@ =~= Seq::new(argv@.len(), |i: int| string_at(top as int, argv@, i) as u64));
    r
}

/// The words of the argument block for the given string addresses.
pub open spec fn block_words(ptrs: Seq<u64>, info: ElfLoadInfo, random: u64) -> Seq<u64> {
    let execfn = if ptrs.len() == 0 {
        0
    } else {
        ptrs[0]
    };
    seq![ptrs.len() as u64] + ptrs + seq![
        0u64,
        0u64,
        AT_PHDR,
        (match info.phdr_vaddr {
            Some(a) => a,
            None => 0,
        }),
        AT_PHENT,
        56,
        AT_PHNUM,
        info.phnum,
        AT_PAGESZ,
        4096,
        AT_BASE,
        info.at_base,
        AT_ENTRY,
        info.entry,
        AT_RANDOM,
        random,
        AT_EXECFN,
        execfn,
        AT_NULL,
        0,
    ]
}

fn start_block(ptrs: &Vec<u64>, info: ElfLoadInfo, random: u64) -> (ws: Vec<u64>)
    ensures
        ws@ == block_words(ptrs@, info, random),
{
    let n = ptrs.len();
    let execfn = if n == 0 {
        0
    } else {
        ptrs[0]
    };
    let mut ws: Vec<u64> = Vec::new();
    ws.push(n as u64);
    let mut k: usize = 0;
    while k < n
        invariant
            n == ptrs@.len(),
            k <= n,
            ws@ == seq![n as u64] + ptrs@.take(k as int),
        decreases n - k,
    {
        ws.push(ptrs[k]);
        k += 1;
        assert(ws@ =~= seq![n as u64] + ptrs@.take(k as int));
    }
    assert(ptrs@.take(n as int) =~= ptrs@);
    let phdr = match info.phdr_vaddr {
        Some(a) => a,
        None => 0,
    };
    ws.push(0);
    ws.push(0);
    ws.push(AT_PHDR);
    ws.push(phdr);
    ws.push(AT_PHENT);
    ws.push(56);
    ws.push(AT_PHNUM);
    ws.push(info.phnum);
    ws.push(AT_PAGESZ);
    ws.push(4096);
    ws.push(AT_BASE);
    ws.push(info.at_base);
    ws.push(AT_ENTRY);
    ws.push(info.entry);
    ws.push(AT_RANDOM);
    ws.push(random);
    ws.push(AT_EXECFN);
    ws.push(execfn);
    ws.push(AT_NULL);
    ws.push(0);
    assert(ws@ =~= block_words(ptrs@, info, random));
    ws
}

/// Put the start-up data on a fresh stack whose top is at `top`: argc, argv,
/// an empty environment and the auxiliary vector below the strings. Answers
/// the stack pointer at entry, 16-byte aligned and pointing at argc.
pub fn build_initial_stack(mem: &mut [u8], top: u64, argv: &Vec<Vec<u8>>, info: ElfLoadInfo, random: &Vec<u8>) -> (r: Result<
    u64,
    SpawnError,
>)
    requires
        old(mem)@.len() == USER_STACK_BYTES,
        top >= USER_STACK_BYTES,
        random@.len() == 16,
    ensures
        final(mem)@.len() == old(mem)@.len(),
        match r {
            Ok(sp) => {
                &&& stack_fits(argv@)
                &&& sp == entry_sp(top as int, argv@)
                &&& sp % 16 == 0
                &&& final(mem)@ == start_stack(old(mem)@, top as int, argv@, info, random@)
            },
            Err(e) => !stack_fits(argv@) && e == SpawnError::ArgvTooLarge && final(mem)@ == old(
                mem,
            )@,
        },
{
    proof {
        lemma_strings_len(argv@, 0);
    }
    let n = argv.len();
    if n > 0x1_0000 {
        return Err(SpawnError::ArgvTooLarge);
    }
    let block = 8 * (3 + n) + 144;
    if block + 80 > USER_STACK_BYTES {
        return Err(SpawnError::ArgvTooLarge);
    }
    match strings_len(argv, USER_STACK_BYTES - block - 80) {
        None => {
            return Err(SpawnError::ArgvTooLarge);
        },
        Some(_) => {},
    }
    let low = top - USER_STACK_BYTES as u64;
    let base = top - top % 16 - 16;
    let ptrs = put_strings(mem, low, top, argv);
    let ghost a = mem@;
    put_bytes(mem, (base - low) as usize, random.as_slice());
    assert(mem@ =~= splice(
        old(mem)@,
        string_at(top as int, argv@, 0) - low,
        strings_from(argv@, 0) + random@,
    ));
    let first = if n == 0 {
        base
    } else {
        ptrs[0]
    };
    assert(first == string_at(top as int, argv@, 0));
    let ws = start_block(&ptrs, info, base);
    let under = first - block as u64;
    let sp = under - under % 16;
    put_words(mem, (sp - low) as usize, &ws);
    Ok(sp)
}

pub(crate) proof fn lemma_words_put(s: Seq<u8>, at: int, ws: Seq<u64>, n: int)
    requires
        0 <= n <= ws.len(),
        0 <= at,
        at + 8 * ws.len() <= s.len(),
    ensures
        words_put(s, at, ws, n).len() == s.len(),
        forall|j: int|
            0 <= j < s.len() && !(at <= j < at + 8 * n) ==> #[trigger] words_put(s, at, ws, n)[j]
                == s[j],
    decreases n,
{
    if n > 0 {
        lemma_words_put(s, at, ws, n - 1);
    }
}

pub(crate) proof fn lemma_word_reads_back(s: Seq<u8>, at: int, ws: Seq<u64>, n: int, k: int)
    requires
        0 <= k < n <= ws.len(),
        0 <= at,
        at + 8 * ws.len() <= s.len(),
    ensures
        le64(words_put(s, at, ws, n), at + 8 * k) == ws[k],
    decreases n,
{
    let before = words_put(s, at, ws, n - 1);
    let after = words_put(s, at, ws, n);
    lemma_words_put(s, at, ws, n - 1);
    if k == n - 1 {
        law_le64_roundtrip(before, at + 8 * k, ws[k]);
    } else {
        lemma_word_reads_back(s, at, ws, n - 1, k);
        assert forall|j: int| at + 8 * k <= j < at + 8 * k + 8 implies after[j] == before[j] by {}
    }
}

proof fn lemma_string_in_area(argv: Seq<Vec<u8>>, i: int, j: int)
    requires
        0 <= i <= j < argv.len(),
    ensures
        ({
            let o = strings_from(argv, i).len() - strings_from(argv, j).len();
            &&& 0 <= o
            &&& o + argv[j]@.len() < strings_from(argv, i).len()
            &&& strings_from(argv, i)[o + argv[j]@.len()] == 0
            &&& forall|k: int|
                0 <= k < argv[j]@.len() ==> strings_from(argv, i)[o + k] == #[trigger] argv[j]@[k]
        }),
    decreases j - i,
{
    lemma_strings_len(argv, i);
    lemma_strings_shrink(argv, i, j);
    if i < j {
        lemma_string_in_area(argv, i + 1, j);
        let head = argv[i]@.push(0);
        let o = strings_from(argv, i).len() - strings_from(argv, j).len();
        let p = strings_from(argv, i + 1).len() - strings_from(argv, j).len();
        assert(o == head.len() + p);
        assert forall|k: int| 0 <= k < argv[j]@.len() implies strings_from(argv, i)[o + k]
            == #[trigger] argv[j]@[k] by {
            assert(strings_from(argv, i)[o + k] == strings_from(argv, i + 1)[p + k]);
        }
        lemma_strings_len(argv, j);
    }
}

/// A program finds its arguments: argc stands at the stack pointer, the
/// pointer to argument `j` behind it, and there the argument's bytes with a
/// zero byte after them.
pub proof fn law_arguments_arrive(mem: Seq<u8>, top: int, argv: Seq<Vec<u8>>, info: ElfLoadInfo, random: Seq<u8>, j: int)
    requires
        mem.len() == USER_STACK_BYTES,
        USER_STACK_BYTES <= top <= u64::MAX,
        random.len() == 16,
        stack_fits(argv),
        0 <= j < argv.len(),
    ensures
        ({
            let s = start_stack(mem, top, argv, info, random);
            let low = top - mem.len();
            let sp = entry_sp(top, argv) - low;
            let p = le64(s, sp + 8 * (1 + j)) - low;
            &&& le64(s, sp) == argv.len()
            &&& p == string_at(top, argv, j) - low
            &&& s[p + argv[j]@.len()] == 0
            &&& forall|k: int| 0 <= k < argv[j]@.len() ==> s[p + k] == #[trigger] argv[j]@[k]
        }),
{
    let low = top - mem.len();
    let ws = start_words(top, argv, info);
    let at = entry_sp(top, argv) - low;
    let first = string_at(top, argv, 0) - low;
    let area = strings_from(argv, 0) + random;
    let base = splice(mem, first, area);
    lemma_strings_len(argv, 0);
    lemma_strings_shrink(argv, 0, j);
    lemma_strings_len(argv, j);
    assert(ws.len() == argv.len() + 21);
    assert(at + 8 * ws.len() <= first);
    lemma_words_put(base, at, ws, ws.len() as int);
    lemma_word_reads_back(base, at, ws, ws.len() as int, 0);
    lemma_word_reads_back(base, at, ws, ws.len() as int, 1 + j);
    assert(ws[0] == argv.len());
    assert(ws[1 + j] == string_at(top, argv, j) as u64);
    lemma_string_in_area(argv, 0, j);
    let s = start_stack(mem, top, argv, info, random);
    let p = string_at(top, argv, j) - low;
    let o = strings_from(argv, 0).len() - strings_from(argv, j).len();
    assert(p == first + o);
    assert forall|k: int| 0 <= k < argv[j]@.len() implies s[p + k] == #[trigger] argv[j]@[k] by {
        assert(base[p + k] == area[o + k]);
    }
    assert(base[p + argv[j]@.len()] == area[o + argv[j]@.len()]);
}

// ---------------------------------------------------------------------------
// Starting programs
// ---------------------------------------------------------------------------

/// The top of stack number `slot`.
pub open spec fn stack_top(slot: int) -> int {
    0x4000_0000 + slot * 0x1000_0000
}

/// The top of stack number `slot`.
pub fn user_stack_top(slot: u64) -> (r: u64)
    requires
        stack_top(slot as int) <= u64::MAX,
    ensures
        r == stack_top(slot as int),
{
    0x4000_0000 + slot * 0x1000_0000
}

/// `pat` stands somewhere in `s`.
pub open spec fn holds_bytes(s: Seq<u8>, pat: Seq<u8>) -> bool {
    exists|i: int| 0 <= i && #[trigger] bytes_at(s, pat, i)
}

/// `pat` stands in `s` at `i`.
pub open spec fn bytes_at(s: Seq<u8>, pat: Seq<u8>, i: int) -> bool {
    i + pat.len() <= s.len() && s.subrange(i, i + pat.len()) == pat
}

/// The marker of a binary built for the Linux ABI: `ONYXLNX` and a zero byte.
pub open spec fn linux_marker() -> Seq<u8> {
    seq![0x4Fu8, 0x4E, 0x59, 0x58, 0x4C, 0x4E, 0x58, 0]
}

/// The start of a glibc version string: `GLIBC_2`.
pub open spec fn glibc_marker() -> Seq<u8> {
    seq![0x47u8, 0x4C, 0x49, 0x42, 0x43, 0x5F, 0x32]
}

/// The image speaks the Linux ABI.
pub open spec fn is_linux(elf: Seq<u8>) -> bool {
    holds_bytes(elf, linux_marker()) || holds_bytes(elf, glibc_marker())
}

fn find_bytes(s: &[u8], pat: &Vec<u8>) -> (r: bool)
    ensures
        r == holds_bytes(s@, pat@),
{
    let n = s.len();
    let m = pat.len();
    if m > n {
        return false;
    }
    let mut i: usize = 0;
    loop
        invariant
            n == s@.len(),
            m == pat@.len(),
            i + m <= n,
            forall|j: int| 0 <= j < i ==> !#[trigger] bytes_at(s@, pat@, j),
        decreases n - i,
    {
        let mut k: usize = 0;
        while k < m && s[i + k] == pat[k]
            invariant
                n == s@.len(),
                m == pat@.len(),
                i + m <= n,
                k <= m,
                forall|j: int| 0 <= j < k ==> s@[i + j] == #[trigger] pat@[j],
            decreases m - k,
        {
            k += 1;
        }
        if k == m {
            assert(s@.subrange(i as int, i + m) =~= pat@);
            assert(bytes_at(s@, pat@, i as int));
            return true;
        }
        proof {
            if bytes_at(s@, pat@, i as int) {
                assert(s@.subrange(i as int, i + m)[k as int] == pat@[k as int]);
            }
        }
        if i == n - m {
            return false;
        }
        i += 1;
    }
}

fn detect_linux(elf: &[u8]) -> (r: bool)
    ensures
        r == is_linux(elf@),
{
    let a: Vec<u8> = vec![0x4F, 0x4E, 0x59, 0x58, 0x4C, 0x4E, 0x58, 0];
    let b: Vec<u8> = vec![0x47, 0x4C, 0x49, 0x42, 0x43, 0x5F, 0x32];
    assert(a@ =~= linux_marker());
    assert(b@ =~= glibc_marker());
    find_bytes(elf, &a) || find_bytes(elf, &b)
}

/// A program ready to run.
#[derive(Clone, Copy, PartialEq, Eq, Debug)]
pub struct Started {
    pub entry: u64,
    pub rsp: u64,
    pub region: (u64, u64),
    /// It speaks the Linux ABI.
    pub linux: bool,
}

/// What starting a program takes: the stack to map, the image to load, and
/// whether it can run.
pub struct Spawn {
    /// The top of the stack to map, once one was handed out.
    pub stack_top: Option<u64>,
    pub plan: LoadPlan,
    pub result: Result<Started, SpawnError>,
}

/// The region overlaps a loaded program.
pub open spec fn is_taken(regions: Seq<(u64, u64)>, r: (u64, u64)) -> bool {
    exists|i: int| 0 <= i < regions.len() && !apart(#[trigger] regions[i], r)
}

fn region_taken(regions: &Vec<(u64, u64)>, r: (u64, u64)) -> (b: bool)
    ensures
        b == is_taken(regions@, r),
{
    let mut i: usize = 0;
    while i < regions.len()
        invariant
            i <= regions@.len(),
            forall|k: int| 0 <= k < i ==> apart(#[trigger] regions@[k], r),
        decreases regions@.len() - i,
    {
        let (s, e) = regions[i];
        if r.0 < e && s < r.1 {
            assert(!apart(regions@[i as int], r));
            return true;
        }
        i += 1;
    }
    false
}

/// What starting a program from an image does.
pub open spec fn spawns(o: Programs, n: Programs, elf: Seq<u8>, argv: Seq<Vec<u8>>, tsc: u64, before: Seq<u8>, after: Seq<u8>, s: Spawn) -> bool {
    let refused = |e: SpawnError|
        s.stack_top is None && s.plan.segments@.len() == 0 && s.plan.writes@.len() == 0 && s.result
            == Err::<Started, SpawnError>(e) && n.regions@ == o.regions@ && n.stack_slots
            == o.stack_slots && after == before;
    match region_of(elf) {
        None => refused(SpawnError::NotElf),
        Some(r) => if is_taken(o.regions@, r) {
            refused(SpawnError::Overlap)
        } else {
            let top = stack_top(o.stack_slots as int);
            &&& s.stack_top == Some(top as u64)
            &&& n.stack_slots == o.stack_slots + 1
            &&& exists|lr: Result<ElfLoadInfo, LoadError>|
                {
                    &&& #[trigger] loads(elf, s.plan.segments@, s.plan.writes@, lr)
                    &&& match lr {
                        Err(e) => s.result == Err::<Started, SpawnError>(SpawnError::Load(e))
                            && n.regions@ == o.regions@ && after == before,
                        Ok(info) => if !stack_fits(argv) {
                            s.result == Err::<Started, SpawnError>(SpawnError::ArgvTooLarge)
                                && n.regions@ == o.regions@ && after == before
                        } else {
                            &&& s.result == Ok::<Started, SpawnError>(
                                Started {
                                    entry: info.entry,
                                    rsp: entry_sp(top, argv) as u64,
                                    region: r,
                                    linux: is_linux(elf),
                                },
                            )
                            &&& n.regions@ == o.regions@.push(r)
                            &&& after == start_stack(before, top, argv, info, random_bytes(tsc))
                        },
                    }
                }
        },
    }
}

/// Start a program from its image: refuse an overlapping region, hand out a
/// stack, plan the load and fill the stack.
pub fn spawn_bytes(p: &mut Programs, elf: &[u8], argv: &Vec<Vec<u8>>, tsc: u64, stack: &mut [u8]) -> (s: Spawn)
    requires
        old(p).wf(),
        stack_top(old(p).stack_slots + 1) <= u64::MAX,
        old(stack)@.len() == USER_STACK_BYTES,
    ensures
        final(p).wf(),
        final(p).linux@ == old(p).linux@,
        final(stack)@.len() == old(stack)@.len(),
        spawns(*old(p), *final(p), elf@, argv@, tsc, old(stack)@, final(stack)@, s),
{
    let region = match elf_region(elf) {
        None => {
            return Spawn { stack_top: None, plan: new_plan(), result: Err(SpawnError::NotElf) };
        },
        Some(r) => r,
    };
    if region_taken(&p.regions, region) {
        return Spawn { stack_top: None, plan: new_plan(), result: Err(SpawnError::Overlap) };
    }
    let top = user_stack_top(p.stack_slots);
    p.stack_slots = p.stack_slots + 1;
    let mut plan = new_plan();
    let lr = load_elf(elf, &mut plan);
    let result = match lr {
        Err(e) => Err(SpawnError::Load(e)),
        Ok(info) => {
            let random = at_random_bytes(tsc);
            match build_initial_stack(stack, top, argv, info, &random) {
                Err(e) => Err(e),
                Ok(rsp) => {
                    p.regions.push(region);
                    Ok(Started { entry: info.entry, rsp, region, linux: detect_linux(elf) })
                },
            }
        },
    };
    let s = Spawn { stack_top: Some(top), plan, result };
    assert(loads(elf@, s.plan.segments@, s.plan.writes@, lr));
    s
}

/// Which parts of the paging snapshot are there.
#[derive(Clone, Copy, PartialEq, Eq, Debug, Structural)]
pub struct Runtime {
    pub frames: bool,
    pub mapper: bool,
}

/// Start a program once the kernel runs: the frame allocator and the page
/// mapper must be there.
pub fn spawn_bytes_runtime_argv(p: &mut Programs, rt: Runtime, elf: &[u8], argv: &Vec<Vec<u8>>, tsc: u64, stack: &mut [u8]) -> (s: Spawn)
    requires
        old(p).wf(),
        stack_top(old(p).stack_slots + 1) <= u64::MAX,
        old(stack)@.len() == USER_STACK_BYTES,
    ensures
        final(p).wf(),
        rt.frames && rt.mapper ==> spawns(
            *old(p),
            *final(p),
            elf@,
            argv@,
            tsc,
            old(stack)@,
            final(stack)@,
            s,
        ),
        !rt.frames || !rt.mapper ==> *final(p) == *old(p) && s.stack_top is None && s.result == Err::<
            Started,
            SpawnError,
        >(
            if !rt.frames {
                SpawnError::NoFrames
            } else {
                SpawnError::NoMapper
            },
        ),
{
    if !rt.frames {
        return Spawn { stack_top: None, plan: new_plan(), result: Err(SpawnError::NoFrames) };
    }
    if !rt.mapper {
        return Spawn { stack_top: None, plan: new_plan(), result: Err(SpawnError::NoMapper) };
    }
    spawn_bytes(p, elf, argv, tsc, stack)
}

/// The largest image: 8 MiB.
pub const MAX_IMAGE: usize = 8_388_608;

/// The next piece of an image as it is read: `None` to read on, otherwise
/// whether the image is complete or why it is refused.
pub fn take_chunk(image: &mut Vec<u8>, chunk: Result<Vec<u8>, FsError>) -> (r: Option<
    Result<(), SpawnError>,
>)
    ensures
        match chunk {
            Err(e) => final(image)@ == old(image)@ && r == Some(
                Err::<(), SpawnError>(
                    if e == FsError::NotFound {
                        SpawnError::NoSuchFile
                    } else {
                        SpawnError::ReadFailed
                    },
                ),
            ),
            Ok(c) => {
                &&& final(image)@ == old(image)@ + c@
                &&& r == if c@.len() == 0 {
                    if old(image)@.len() == 0 {
                        Some(Err::<(), SpawnError>(SpawnError::Empty))
                    } else {
                        Some(Ok::<(), SpawnError>(()))
                    }
                } else if final(image)@.len() > MAX_IMAGE {
                    Some(Err::<(), SpawnError>(SpawnError::TooLarge))
                } else {
                    None
                }
            },
        },
{
    match chunk {
        Err(e) => {
            if e == FsError::NotFound {
                Some(Err(SpawnError::NoSuchFile))
            } else {
                Some(Err(SpawnError::ReadFailed))
            }
        },
        Ok(c) => {
            let mut c = c;
            let n = c.len();
            image.append(&mut c);
            if n == 0 {
                if image.len() == 0 {
                    return Some(Err(SpawnError::Empty));
                }
                return Some(Ok(()));
            }
            if image.len() > MAX_IMAGE {
                return Some(Err(SpawnError::TooLarge));
            }
            None
        },
    }
}

/// Start the program whose image was read from a file, or say why it could not
/// be read.
pub fn spawn_from_vfs_argv(p: &mut Programs, rt: Runtime, image: Result<&Vec<u8>, SpawnError>, argv: &Vec<Vec<u8>>, tsc: u64, stack: &mut [u8]) -> (s: Spawn)
    requires
        old(p).wf(),
        stack_top(old(p).stack_slots + 1) <= u64::MAX,
        old(stack)@.len() == USER_STACK_BYTES,
    ensures
        final(p).wf(),
        match image {
            Err(e) => *final(p) == *old(p) && s.stack_top is None && s.result == Err::<
                Started,
                SpawnError,
            >(e),
            Ok(elf) => if rt.frames && rt.mapper {
                spawns(*old(p), *final(p), elf@, argv@, tsc, old(stack)@, final(stack)@, s)
            } else {
                *final(p) == *old(p) && s.stack_top is None && s.result == Err::<
                    Started,
                    SpawnError,
                >(
                    if !rt.frames {
                        SpawnError::NoFrames
                    } else {
                        SpawnError::NoMapper
                    },
                )
            },
        },
{
    match image {
        Err(e) => Spawn { stack_top: None, plan: new_plan(), result: Err(e) },
        Ok(elf) => spawn_bytes_runtime_argv(p, rt, elf.as_slice(), argv, tsc, stack),
    }
}

/// Start a program with its path as the only argument.
pub fn spawn_from_vfs(p: &mut Programs, rt: Runtime, path: &Vec<u8>, image: Result<&Vec<u8>, SpawnError>, tsc: u64, stack: &mut [u8]) -> (s: Spawn)
    requires
        old(p).wf(),
        stack_top(old(p).stack_slots + 1) <= u64::MAX,
        old(stack)@.len() == USER_STACK_BYTES,
    ensures
        final(p).wf(),
        match image {
            Err(e) => *final(p) == *old(p) && s.stack_top is None && s.result == Err::<
                Started,
                SpawnError,
            >(e),
            Ok(elf) => if rt.frames && rt.mapper {
                exists|argv: Seq<Vec<u8>>|
                    {
                        &&& argv.len() == 1
                        &&& argv[0]@ == path@
                        &&& #[trigger] spawns(
                            *old(p),
                            *final(p),
                            elf@,
                            argv,
                            tsc,
                            old(stack)@,
                            final(stack)@,
                            s,
                        )
                    }
            } else {
                *final(p) == *old(p) && s.stack_top is None && s.result == Err::<
                    Started,
                    SpawnError,
                >(
                    if !rt.frames {
                        SpawnError::NoFrames
                    } else {
                        SpawnError::NoMapper
                    },
                )
            },
        },
{
    let mut argv: Vec<Vec<u8>> = Vec::new();
    let one = crate::bytes::copy_range(path.as_slice(), 0, path.len());
    assert(one@ =~= path@);
    argv.push(one);
    spawn_from_vfs_argv(p, rt, image, &argv, tsc, stack)
}

/// A program that starts gets pages of its own: its region meets no loaded
/// program's, and its stack none handed out before.
pub proof fn law_programs_stay_apart(o: Programs, n: Programs, elf: Seq<u8>, argv: Seq<Vec<u8>>, tsc: u64, before: Seq<u8>, after: Seq<u8>, s: Spawn, i: int, slot: int)
    requires
        o.wf(),
        spawns(o, n, elf, argv, tsc, before, after, s),
        s.result is Ok,
        0 <= i < o.regions@.len(),
        0 <= slot < o.stack_slots,
        stack_top(o.stack_slots as int) <= u64::MAX,
    ensures
        apart(o.regions@[i], s.result->Ok_0.region),
        stack_top(slot) <= s.stack_top->0 - USER_STACK_BYTES,
{
    assert(region_of(elf) is Some);
}

} // verus!
