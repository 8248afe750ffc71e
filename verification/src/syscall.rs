//! System calls: the native table, the Linux table, and what each call
//! decides.
//!
//! Native calls take their number in rax and arguments in rdi, rsi, rdx (and
//! r8 for the fourth); Linux calls take the fourth in r10. A failing call
//! returns `-errno`.
use vstd::prelude::*;

use crate::bytes::{le64_bytes, put_u64, zeros};
use crate::elf::page_floor;
use crate::errno::{err, E2BIG, EBADF, ECHILD, EEXIST, EFAULT, EINVAL, EIO, EISDIR, EMFILE,
    ENAMETOOLONG, ENOENT, ENOEXEC, ENOMEM, ENOSPC, ESRCH};
use crate::fds::{close_fd, drop_task, file_of, lowest_free, open_fd, others, set_pos, Fds, File, Key};
use crate::gdt::Selectors;
use crate::memory::{page_flags, walk, PHYS_LIMIT};
use crate::scheduler::{block_on_child, blocked_on, child_waitable, cur_id, cur_task, current_task_id, dead_stay, exited,
    first_reapable, id_at, kill, reapable, record_exit, try_reap, waitable, with_current, with_task, Sched,
    State, Task, WaitFor, KILLED};
use crate::smp::{idle_kstack_top, set_kstack_top, Smp, IDLE_INDEX, MAX_CPUS};
use crate::userspace::{linux_mem_drop, mem_without, Programs, SpawnError, USER_TRAMPOLINE};
use crate::text::{dec, push_dec};
use crate::time::{now_ns, now_spec, realtime_ns, wall_ns, Clock};
use crate::vfs::{lines_view, path_parts, split_path, DirEntry, FileStat, FsError, Line};

verus! {

pub const SYS_WRITE: u64 = 0;

pub const SYS_EXIT: u64 = 1;

pub const SYS_OPEN: u64 = 2;

pub const SYS_READ: u64 = 3;

pub const SYS_CLOSE: u64 = 4;

pub const SYS_LS: u64 = 5;

pub const SYS_MKDIR: u64 = 6;

pub const SYS_SPAWN: u64 = 7;

pub const SYS_GETTIME: u64 = 8;

pub const SYS_GETPID: u64 = 9;

pub const SYS_SLEEP: u64 = 10;

pub const SYS_YIELD: u64 = 11;

pub const SYS_LSPCI: u64 = 12;

pub const SYS_FLUSH: u64 = 13;

pub const SYS_WAITPID: u64 = 14;

pub const SYS_KILL: u64 = 15;

pub const SYS_INPUT_READ: u64 = 16;

pub const SYS_PERF: u64 = 17;

pub const SYS_STAT: u64 = 18;

pub const SYS_SEEK: u64 = 19;

pub const SYS_UNLINK: u64 = 20;

pub const SYS_RENAME: u64 = 21;

/// The longest transfer of one call.
pub const MAX_TRANSFER: u64 = 4096;

/// End of the addresses that a user pointer may reach: 1 TiB. It covers the
/// user stacks and stays below every kernel mapping.
pub const USER_PTR_MAX: u64 = 0x100_0000_0000;

/// The user state that a call saves, in the order in which it lies on the
/// kernel stack.
#[derive(Clone, Copy, PartialEq, Eq, Debug, Structural)]
pub struct SyscallFrame {
    pub user_rsp: u64,
    pub rax: u64,
    pub rbx: u64,
    pub rcx: u64,
    pub rdx: u64,
    pub rsi: u64,
    pub rdi: u64,
    pub rbp: u64,
    pub r8: u64,
    pub r9: u64,
    pub r10: u64,
    pub r11: u64,
    pub r12: u64,
    pub r13: u64,
    pub r14: u64,
    pub r15: u64,
}

/// A native call with its arguments.
#[derive(Clone, Copy, PartialEq, Eq, Debug, Structural)]
pub enum Call {
    Write { fd: u64, buf: u64, len: u64 },
    Exit { code: u64 },
    Open { path: u64, len: u64 },
    Read { fd: u64, buf: u64, len: u64 },
    Close { fd: u64 },
    Ls { path: u64, len: u64 },
    Mkdir { path: u64, len: u64 },
    Spawn { path: u64, len: u64 },
    Gettime { clock: u64 },
    Getpid,
    Sleep { ns: u64 },
    Yield,
    Lspci,
    Flush,
    Waitpid { pid: u64 },
    Kill { pid: u64 },
    InputRead { buf: u64, len: u64, blocking: u64 },
    Perf,
    Stat { path: u64, len: u64, out: u64 },
    Seek { fd: u64, offset: u64, whence: u64 },
    Unlink { path: u64, len: u64 },
    Rename { from: u64, from_len: u64, to: u64, to_len: u64 },
    Unknown,
}

/// The call that a frame asks for.
pub open spec fn native_call(f: SyscallFrame) -> Call {
    if f.rax == 0 {
        Call::Write { fd: f.rdi, buf: f.rsi, len: f.rdx }
    } else if f.rax == 1 {
        Call::Exit { code: f.rdi }
    } else if f.rax == 2 {
        Call::Open { path: f.rdi, len: f.rsi }
    } else if f.rax == 3 {
        Call::Read { fd: f.rdi, buf: f.rsi, len: f.rdx }
    } else if f.rax == 4 {
        Call::Close { fd: f.rdi }
    } else if f.rax == 5 {
        Call::Ls { path: f.rdi, len: f.rsi }
    } else if f.rax == 6 {
        Call::Mkdir { path: f.rdi, len: f.rsi }
    } else if f.rax == 7 {
        Call::Spawn { path: f.rdi, len: f.rsi }
    } else if f.rax == 8 {
        Call::Gettime { clock: f.rdi }
    } else if f.rax == 9 {
        Call::Getpid
    } else if f.rax == 10 {
        Call::Sleep { ns: f.rdi }
    } else if f.rax == 11 {
        Call::Yield
    } else if f.rax == 12 {
        Call::Lspci
    } else if f.rax == 13 {
        Call::Flush
    } else if f.rax == 14 {
        Call::Waitpid { pid: f.rdi }
    } else if f.rax == 15 {
        Call::Kill { pid: f.rdi }
    } else if f.rax == 16 {
        Call::InputRead { buf: f.rdi, len: f.rsi, blocking: f.rdx }
    } else if f.rax == 17 {
        Call::Perf
    } else if f.rax == 18 {
        Call::Stat { path: f.rdi, len: f.rsi, out: f.rdx }
    } else if f.rax == 19 {
        Call::Seek { fd: f.rdi, offset: f.rsi, whence: f.rdx }
    } else if f.rax == 20 {
        Call::Unlink { path: f.rdi, len: f.rsi }
    } else if f.rax == 21 {
        Call::Rename { from: f.rdi, from_len: f.rsi, to: f.rdx, to_len: f.r8 }
    } else {
        Call::Unknown
    }
}

/// Decode a native call. An unknown number is answered `-ENOSYS`.
pub fn dispatch(f: &SyscallFrame) -> (c: Call)
    ensures
        c == native_call(*f),
{
    match f.rax {
        SYS_WRITE => Call::Write { fd: f.rdi, buf: f.rsi, len: f.rdx },
        SYS_EXIT => Call::Exit { code: f.rdi },
        SYS_OPEN => Call::Open { path: f.rdi, len: f.rsi },
        SYS_READ => Call::Read { fd: f.rdi, buf: f.rsi, len: f.rdx },
        SYS_CLOSE => Call::Close { fd: f.rdi },
        SYS_LS => Call::Ls { path: f.rdi, len: f.rsi },
        SYS_MKDIR => Call::Mkdir { path: f.rdi, len: f.rsi },
        SYS_SPAWN => Call::Spawn { path: f.rdi, len: f.rsi },
        SYS_GETTIME => Call::Gettime { clock: f.rdi },
        SYS_GETPID => Call::Getpid,
        SYS_SLEEP => Call::Sleep { ns: f.rdi },
        SYS_YIELD => Call::Yield,
        SYS_LSPCI => Call::Lspci,
        SYS_FLUSH => Call::Flush,
        SYS_WAITPID => Call::Waitpid { pid: f.rdi },
        SYS_KILL => Call::Kill { pid: f.rdi },
        SYS_INPUT_READ => Call::InputRead { buf: f.rdi, len: f.rsi, blocking: f.rdx },
        SYS_PERF => Call::Perf,
        SYS_STAT => Call::Stat { path: f.rdi, len: f.rsi, out: f.rdx },
        SYS_SEEK => Call::Seek { fd: f.rdi, offset: f.rsi, whence: f.rdx },
        SYS_UNLINK => Call::Unlink { path: f.rdi, len: f.rsi },
        SYS_RENAME => Call::Rename { from: f.rdi, from_len: f.rsi, to: f.rdx, to_len: f.r8 },
        _ => Call::Unknown,
    }
}

// ---------------------------------------------------------------------------
// Entry
// ---------------------------------------------------------------------------

/// The model-specific registers of the call path.
#[derive(Clone, Copy, PartialEq, Eq, Debug, Structural)]
pub struct Msrs {
    pub star: u64,
    pub lstar: u64,
    pub sfmask: u64,
    /// The bit to set in EFER.
    pub efer_sce: u64,
}

/// Bits of the flags register that entry clears: TF, IF, DF, IOPL, NT, AC, VIF
/// and VIP among them.
pub const SFMASK: u64 = 0x25_7FD5;

/// A selector without its privilege level.
pub open spec fn bare(sel: u16) -> int {
    sel - sel % 4
}

/// The registers for these selectors: `sysret` takes SS from the base plus 8
/// and CS from the base plus 16.
pub fn program_msrs(sels: Selectors, entry: u64) -> (m: Msrs)
    requires
        bare(sels.user_code_selector) - bare(sels.user_data_selector) == 8,
        bare(sels.user_code_selector) >= 16,
    ensures
        m.star == (bare(sels.user_code_selector) - 16) * 0x1_0000_0000_0000 + bare(
            sels.code_selector,
        ) * 0x1_0000_0000,
        m.lstar == entry,
        m.sfmask == SFMASK,
        m.efer_sce == 1,
{
    let kernel_cs = (sels.code_selector - sels.code_selector % 4) as u64;
    let user_code = (sels.user_code_selector - sels.user_code_selector % 4) as u64;
    Msrs {
        star: (user_code - 16) * 0x1_0000_0000_0000 + kernel_cs * 0x1_0000_0000,
        lstar: entry,
        sfmask: SFMASK,
        efer_sce: 1,
    }
}

/// Set the kernel stack that calls on CPU `cpu` switch to.
pub fn set_kernel_stack_top(s: &mut Smp, cpu: usize, top: u64)
    requires
        cpu < MAX_CPUS,
    ensures
        final(s).low_page == old(s).low_page,
        final(s).cpus@ == old(s).cpus@.update(
            cpu as int,
            crate::smp::PerCpu { kstack_top: top, ..old(s).cpus@[cpu as int] },
        ),
{
    set_kstack_top(s, cpu, top);
}

/// The same, for the scheduler at a switch.
pub fn set_kstack(s: &mut Smp, cpu: usize, top: u64)
    requires
        cpu < MAX_CPUS,
    ensures
        final(s).low_page == old(s).low_page,
        final(s).cpus@ == old(s).cpus@.update(
            cpu as int,
            crate::smp::PerCpu { kstack_top: top, ..old(s).cpus@[cpu as int] },
        ),
{
    set_kstack_top(s, cpu, top);
}

/// Prepare the boot CPU for calls: its registers, and its idle stack until the
/// scheduler sets another.
pub fn init(s: &mut Smp, sels: Selectors, entry: u64) -> (m: Msrs)
    requires
        bare(sels.user_code_selector) - bare(sels.user_data_selector) == 8,
        bare(sels.user_code_selector) >= 16,
    ensures
        final(s).low_page == old(s).low_page,
        final(s).cpus@ == old(s).cpus@.update(
            0,
            crate::smp::PerCpu {
                kstack_top: old(s).cpus@[0].idle_kstack_top,
                ..old(s).cpus@[0]
            },
        ),
        m.star == (bare(sels.user_code_selector) - 16) * 0x1_0000_0000_0000 + bare(
            sels.code_selector,
        ) * 0x1_0000_0000,
        m.lstar == entry,
        m.sfmask == SFMASK,
        m.efer_sce == 1,
{
    init_ap(s, 0, sels, entry)
}

/// Prepare CPU `cpu` for calls.
pub fn init_ap(s: &mut Smp, cpu: usize, sels: Selectors, entry: u64) -> (m: Msrs)
    requires
        cpu < MAX_CPUS,
        bare(sels.user_code_selector) - bare(sels.user_data_selector) == 8,
        bare(sels.user_code_selector) >= 16,
    ensures
        final(s).low_page == old(s).low_page,
        final(s).cpus@ == old(s).cpus@.update(
            cpu as int,
            crate::smp::PerCpu {
                kstack_top: old(s).cpus@[cpu as int].idle_kstack_top,
                ..old(s).cpus@[cpu as int]
            },
        ),
        m.star == (bare(sels.user_code_selector) - 16) * 0x1_0000_0000_0000 + bare(
            sels.code_selector,
        ) * 0x1_0000_0000,
        m.lstar == entry,
        m.sfmask == SFMASK,
        m.efer_sce == 1,
{
    let top = idle_kstack_top(s, cpu);
    set_kernel_stack_top(s, cpu, top);
    program_msrs(sels, entry)
}

// ---------------------------------------------------------------------------
// User memory
// ---------------------------------------------------------------------------

/// A page's flags let the user in, and the kernel write where it is going to.
pub open spec fn page_ok(flags: Option<u64>, write: bool) -> bool {
    match flags {
        None => false,
        Some(f) => f / 4 % 2 == 1 && (write ==> f / 2 % 2 == 1),
    }
}

/// Every byte of the buffer is at a user address, in a page mapped for the
/// user.
pub open spec fn buf_ok(window: Seq<u64>, level_4: u64, ptr: u64, len: u64, write: bool) -> bool {
    len == 0 || {
        &&& 0x1000 <= ptr
        &&& ptr + len <= USER_PTR_MAX
        &&& forall|a: u64|
            ptr <= a < ptr + len ==> page_ok(#[trigger] walk(window, level_4 as int, a, 4), write)
    }
}

#[verifier::spinoff_prover]
proof fn lemma_same_index(a: u64, b: u64, level: int)
    requires
        page_floor(a as int) == page_floor(b as int),
        1 <= level <= 4,
    ensures
        crate::memory::table_index(a, level) == crate::memory::table_index(b, level),
{
    let p = a as int / 0x1000;
    assert(b as int / 0x1000 == p);
    assert(a as int / 0x20_0000 == p / 0x200 && b as int / 0x20_0000 == p / 0x200);
    assert(a as int / 0x4000_0000 == p / 0x4_0000 && b as int / 0x4000_0000 == p / 0x4_0000);
    assert(a as int / 0x80_0000_0000 == p / 0x800_0000 && b as int / 0x80_0000_0000 == p / 0x800_0000);
}

#[verifier::spinoff_prover]
proof fn lemma_same_page(window: Seq<u64>, table: int, a: u64, b: u64, level: int)
    requires
        page_floor(a as int) == page_floor(b as int),
        1 <= level <= 4,
    ensures
        walk(window, table, a, level) == walk(window, table, b, level),
    decreases level,
{
    lemma_same_index(a, b, level);
    if level > 1 {
        match crate::memory::present_entry(window, table, a, level) {
            None => {},
            Some(e) => {
                lemma_same_page(window, crate::memory::entry_addr(e), a, b, level - 1);
            },
        }
    }
}

/// Check a user buffer before the kernel touches it: its addresses, and every
/// page it covers.
pub fn user_buf_ok(window: &[u64], level_4: u64, ptr: u64, len: u64, write: bool) -> (r: bool)
    requires
        level_4 <= PHYS_LIMIT,
    ensures
        r == buf_ok(window@, level_4, ptr, len, write),
{
    if len == 0 {
        return true;
    }
    if ptr < 0x1000 || ptr > USER_PTR_MAX || len > USER_PTR_MAX - ptr {
        return false;
    }
    let end = ptr + len;
    let last = (end - 1) - (end - 1) % 0x1000;
    let mut page = ptr - ptr % 0x1000;
    while page <= last
        invariant
            level_4 <= PHYS_LIMIT,
            0x1000 <= ptr < end <= USER_PTR_MAX,
            end == ptr + len,
            page % 0x1000 == 0,
            last == page_floor(end - 1),
            page <= last + 0x1000,
            page >= page_floor(ptr as int),
            forall|a: u64|
                ptr <= a < page && a < end ==> page_ok(
                    #[trigger] walk(window@, level_4 as int, a, 4),
                    write,
                ),
        decreases last + 0x1000 - page,
    {
        let flags = page_flags(window, level_4, page);
        let ok = match flags {
            None => false,
            Some(f) => f / 4 % 2 == 1 && (!write || f / 2 % 2 == 1),
        };
        if !ok {
            proof {
                let a = if page < ptr {
                    ptr
                } else {
                    page
                };
                assert(page_floor(a as int) == page_floor(page as int));
                lemma_same_page(window@, level_4 as int, a, page, 4);
                assert(!page_ok(walk(window@, level_4 as int, a, 4), write));
            }
            return false;
        }
        proof {
            assert forall|a: u64| ptr <= a < page + 0x1000 && a < end implies page_ok(
                #[trigger] walk(window@, level_4 as int, a, 4),
                write,
            ) by {
                if a >= page {
                    assert(page_floor(a as int) == page_floor(page as int));
                    lemma_same_page(window@, level_4 as int, a, page, 4);
                }
            }
        }
        page += 0x1000;
    }
    true
}

/// `str::from_utf8`: the text that the bytes are, `None` where they are not
/// UTF-8.
#[verifier::external_body]
fn utf8_text(b: &[u8]) -> (r: Option<String>)
    ensures
        match r {
            None => !vstd::utf8::valid_utf8(b@),
            Some(s) => vstd::utf8::valid_utf8(b@) && s@ == vstd::utf8::decode_utf8(b@),
        },
{
    match core::str::from_utf8(b) {
        Ok(s) => Some(s.to_string()),
        Err(_) => None,
    }
}

/// A path that a call may use: absolute, without backslashes, `.` and `..`.
pub open spec fn path_ok(p: Seq<char>) -> bool {
    path_parts(p) is Some && !p.contains('\\')
}

/// What is wrong with a path of `len` bytes; `bytes` are its bytes, where the
/// buffer could be read.
pub open spec fn path_fault(len: u64, bytes: Option<Seq<u8>>) -> Option<u64> {
    if len == 0 {
        Some(err(ENOENT))
    } else if len > 128 {
        Some(err(ENAMETOOLONG))
    } else {
        match bytes {
            None => Some(err(EFAULT)),
            Some(b) => if !vstd::utf8::valid_utf8(b) || !path_ok(vstd::utf8::decode_utf8(b)) {
                Some(err(EINVAL))
            } else {
                None
            },
        }
    }
}

/// The bytes as a sequence.
pub open spec fn bytes_seq(b: Option<&[u8]>) -> Option<Seq<u8>> {
    match b {
        None => None,
        Some(s) => Some(s@),
    }
}

/// Check a path from the user.
pub fn user_path(len: u64, bytes: Option<&[u8]>) -> (r: Result<String, u64>)
    ensures
        match r {
            Err(e) => path_fault(len, bytes_seq(bytes)) == Some(e),
            Ok(s) => path_fault(len, bytes_seq(bytes)) is None && (bytes matches Some(b) && s@
                == vstd::utf8::decode_utf8(b@)),
        },
{
    if len == 0 {
        return Err(err(ENOENT));
    }
    if len > 128 {
        return Err(err(ENAMETOOLONG));
    }
    let b = match bytes {
        None => {
            return Err(err(EFAULT));
        },
        Some(b) => b,
    };
    let s = match utf8_text(b) {
        None => {
            return Err(err(EINVAL));
        },
        Some(s) => s,
    };
    if split_path(s.as_str()).is_none() {
        return Err(err(EINVAL));
    }
    let cs = crate::vfs::chars_of(s.as_str());
    let mut k: usize = 0;
    while k < cs.len()
        invariant
            cs@ == s@,
            k <= cs@.len(),
            0 < len <= 128,
            bytes == Some(b),
            vstd::utf8::valid_utf8(b@),
            s@ == vstd::utf8::decode_utf8(b@),
            forall|j: int| 0 <= j < k ==> cs@[j] != '\\',
        decreases cs@.len() - k,
    {
        if cs[k] == '\\' {
            assert(s@[k as int] == '\\');
            return Err(err(EINVAL));
        }
        k += 1;
    }
    Ok(s)
}

/// The errno of a file system error.
pub open spec fn fs_errno(e: FsError) -> u64 {
    match e {
        FsError::NotFound => ENOENT,
        FsError::Exists => EEXIST,
        FsError::NotSupported => EINVAL,
        FsError::NoSpace => ENOSPC,
        FsError::BadFs => EIO,
        FsError::Io(_) => EIO,
        FsError::IsDir => EISDIR,
    }
}

/// The return value for a file system error.
pub fn fs_err(e: FsError) -> (r: u64)
    ensures
        r == err(fs_errno(e)),
{
    match e {
        FsError::NotFound => err(ENOENT),
        FsError::Exists => err(EEXIST),
        FsError::NotSupported => err(EINVAL),
        FsError::NoSpace => err(ENOSPC),
        FsError::BadFs => err(EIO),
        FsError::Io(_) => err(EIO),
        FsError::IsDir => err(EISDIR),
    }
}

/// The return value of a call that changes the file tree: making a directory,
/// removing a file or renaming one.
pub fn fs_done(r: Result<(), FsError>) -> (ret: u64)
    ensures
        ret == (match r {
            Ok(_) => 0,
            Err(e) => err(fs_errno(e)),
        }),
{
    match r {
        Ok(()) => 0,
        Err(e) => fs_err(e),
    }
}

/// The line of a directory entry.
pub open spec fn entry_text(e: Line) -> Seq<char> {
    "vfs:   "@ + e.name + " ("@ + dec(e.size as nat) + " bytes"@ + (if e.is_dir { ", dir"@ } else { ""@ }) + ")"@
}

/// The listing of `path` on the file system `mount`: its head, then a line for
/// every entry.
pub open spec fn ls_text(mount: Seq<char>, path: Seq<char>, es: Seq<Line>) -> Seq<Seq<char>> {
    seq!["vfs: "@ + mount + " "@ + path + " ("@ + dec(es.len()) + " entries)"@] + es.map_values(
        |e: Line| entry_text(e),
    )
}

/// The lines of a listing.
pub fn ls_lines(mount: &str, path: &String, entries: &Vec<DirEntry>) -> (r: Vec<String>)
    ensures
        r@.map_values(|s: String| s@) == ls_text(mount@, path@, lines_view(entries@)),
{
    let mut r: Vec<String> = Vec::new();
    let mut s = String::from_str("vfs: ");
    s.append(mount);
    s.append(" ");
    s.append(path.as_str());
    s.append(" (");
    push_dec(&mut s, entries.len() as u64);
    s.append(" entries)");
    r.push(s);
    let ghost want = ls_text(mount@, path@, lines_view(entries@));
    let mut i: usize = 0;
    assert(r@.map_values(|s: String| s@) =~= want.take(1));
    while i < entries.len()
        invariant
            i <= entries@.len(),
            want == ls_text(mount@, path@, lines_view(entries@)),
            r@.map_values(|s: String| s@) == want.take(i + 1),
        decreases entries@.len() - i,
    {
        let ghost before = r@;
        let mut t = String::from_str("vfs:   ");
        t.append(entries[i].name.as_str());
        t.append(" (");
        push_dec(&mut t, entries[i].size);
        t.append(" bytes");
        t.append(if entries[i].is_dir { ", dir" } else { "" });
        t.append(")");
        assert(t@ =~= entry_text(lines_view(entries@)[i as int]));
        r.push(t);
        i += 1;
        assert(r@.map_values(|s: String| s@) =~= before.map_values(|s: String| s@).push(t@));
        assert(want.take(i + 1) =~= want.take(i as int).push(want[i as int]));
    }
    assert(want.take(entries@.len() as int + 1) =~= want);
    r
}

// ---------------------------------------------------------------------------
// Files
// ---------------------------------------------------------------------------

/// What a read or write goes on to do.
pub enum Io {
    /// The call is answered.
    Done(u64),
    /// So many bytes from or to the console.
    Console(u64),
    /// So many bytes at a position of a file.
    File { name: String, pos: u64, len: u64 },
}

/// The length of one transfer.
pub open spec fn transfer(len: u64) -> u64 {
    if len < MAX_TRANSFER {
        len
    } else {
        MAX_TRANSFER
    }
}

/// What the transfer of `len` bytes to or from a descriptor does.
pub open spec fn goes_to_file(io: Io, m: Map<Key, File>, k: Key, len: u64) -> bool {
    if m.contains_key(k) {
        io matches Io::File { name, pos, len: n } && name@ == m[k].name && pos == m[k].pos && n
            == transfer(len)
    } else {
        io == Io::Done(err(EBADF))
    }
}

/// `write(fd, buf, len)`: descriptors 1 and 2 are the console, those from 3 on
/// are files. `readable` says whether the user buffer can be read.
pub fn sys_write(f: &Fds, task: u64, fd: u64, len: u64, readable: bool) -> (io: Io)
    requires
        f.wf(),
    ensures
        if len == 0 {
            io == Io::Done(0)
        } else if !readable {
            io == Io::Done(err(EFAULT))
        } else if fd == 1 || fd == 2 {
            io == Io::Console(transfer(len))
        } else if fd >= 3 {
            goes_to_file(io, f@, (task, fd), len)
        } else {
            io == Io::Done(err(EBADF))
        },
{
    if len == 0 {
        return Io::Done(0);
    }
    let n = if len < MAX_TRANSFER {
        len
    } else {
        MAX_TRANSFER
    };
    if !readable {
        return Io::Done(err(EFAULT));
    }
    if fd == 1 || fd == 2 {
        return Io::Console(n);
    }
    if fd >= 3 {
        return match file_of(f, task, fd) {
            None => Io::Done(err(EBADF)),
            Some((name, pos)) => Io::File { name, pos, len: n },
        };
    }
    Io::Done(err(EBADF))
}

/// `read(fd, buf, len)`: descriptor 0 is the console. A bad descriptor is told
/// before a bad buffer. `writable` says whether the user buffer can be
/// written.
pub fn sys_read(f: &Fds, task: u64, fd: u64, len: u64, writable: bool) -> (io: Io)
    requires
        f.wf(),
    ensures
        if len == 0 {
            io == Io::Done(0)
        } else if fd == 0 {
            io == if writable {
                Io::Console(transfer(len))
            } else {
                Io::Done(err(EFAULT))
            }
        } else if f@.contains_key((task, fd)) && !writable {
            io == Io::Done(err(EFAULT))
        } else {
            goes_to_file(io, f@, (task, fd), len)
        },
{
    if len == 0 {
        return Io::Done(0);
    }
    let n = if len < MAX_TRANSFER {
        len
    } else {
        MAX_TRANSFER
    };
    if fd == 0 {
        if !writable {
            return Io::Done(err(EFAULT));
        }
        return Io::Console(n);
    }
    match file_of(f, task, fd) {
        None => Io::Done(err(EBADF)),
        Some((name, pos)) => {
            if !writable {
                return Io::Done(err(EFAULT));
            }
            Io::File { name, pos, len: n }
        },
    }
}

/// A file transfer is over: the position moves on by what was transferred; a
/// failure is an I/O error.
pub fn transferred(f: &mut Fds, task: u64, fd: u64, r: Result<u64, FsError>) -> (ret: u64)
    requires
        old(f).wf(),
        old(f)@.contains_key((task, fd)) && r is Ok ==> old(f)@[(task, fd)].pos + r->Ok_0
            <= u64::MAX,
    ensures
        final(f).wf(),
        match r {
            Err(_) => ret == err(EIO) && *final(f) == *old(f),
            Ok(n) => ret == n && final(f)@ == if old(f)@.contains_key((task, fd)) {
                old(f)@.insert(
                    (task, fd),
                    File {
                        name: old(f)@[(task, fd)].name,
                        pos: (old(f)@[(task, fd)].pos + n) as u64,
                    },
                )
            } else {
                old(f)@
            },
        },
{
    match r {
        Err(_) => err(EIO),
        Ok(n) => {
            match file_of(f, task, fd) {
                None => {},
                Some((_name, pos)) => {
                    set_pos(f, task, fd, pos + n);
                },
            }
            n
        },
    }
}

/// Whether an open that gave this answer goes on to make the file: only a
/// missing one is made.
pub fn opens_new(opened: &Result<(), FsError>) -> (r: bool)
    ensures
        r == (*opened == Err::<(), FsError>(FsError::NotFound)),
{
    match opened {
        Ok(_) => false,
        Err(e) => *e == FsError::NotFound,
    }
}

/// `open(path)`: a missing file is created. `opened` is what the file system
/// says of the path, `created` whether a missing one could be made.
pub fn sys_open(f: &mut Fds, task: u64, path: String, opened: Result<(), FsError>, created: bool) -> (r: u64)
    requires
        old(f).wf(),
    ensures
        final(f).wf(),
        if opened matches Err(e) && !(e == FsError::NotFound && created) {
            r == err(fs_errno(opened->Err_0)) && *final(f) == *old(f)
        } else {
            match lowest_free(old(f)@, task, 3) {
                None => r == err(EMFILE) && *final(f) == *old(f),
                Some(fd) => r == fd && final(f)@ == old(f)@.insert(
                    (task, fd),
                    File { name: path@, pos: 0 },
                ),
            }
        },
{
    if let Err(e) = opened {
        let creatable = e == FsError::NotFound && created;
        if !creatable {
            return fs_err(e);
        }
    }
    open_fd(f, task, path)
}

/// `close(fd)`.
pub fn sys_close(f: &mut Fds, task: u64, fd: u64) -> (r: u64)
    requires
        old(f).wf(),
    ensures
        final(f).wf(),
        if old(f)@.contains_key((task, fd)) {
            r == 0 && final(f)@ == old(f)@.remove((task, fd))
        } else {
            r == err(EBADF) && *final(f) == *old(f)
        },
{
    close_fd(f, task, fd)
}

/// A word as a signed number.
pub open spec fn signed_word(x: u64) -> int {
    if x < 0x8000_0000_0000_0000 {
        x as int
    } else {
        x - 0x1_0000_0000_0000_0000
    }
}

/// Where a seek ends: from the start (0), the position (1) or the end (2).
pub open spec fn seek_target(pos: u64, offset: u64, whence: u64, size: Result<u64, FsError>) -> Result<
    u64,
    u64,
> {
    if whence > 2 {
        Err(err(EINVAL))
    } else if whence == 2 && size is Err {
        Err(err(fs_errno(size->Err_0)))
    } else {
        let base = if whence == 0 {
            0
        } else if whence == 1 {
            signed_word(pos)
        } else {
            signed_word(size->Ok_0)
        };
        let to = base + signed_word(offset);
        if 0 <= to < 0x8000_0000_0000_0000 {
            Ok(to as u64)
        } else {
            Err(err(EINVAL))
        }
    }
}

fn to_signed(x: u64) -> (r: i128)
    ensures
        r == signed_word(x),
{
    if x < 0x8000_0000_0000_0000 {
        x as i128
    } else {
        x as i128 - 0x1_0000_0000_0000_0000
    }
}

/// `seek(fd, offset, whence)`: the new position, or an errno. `size` is the
/// file's size, which only a seek from the end looks at.
pub fn sys_seek(f: &mut Fds, task: u64, fd: u64, offset: u64, whence: u64, size: Result<u64, FsError>) -> (r: u64)
    requires
        old(f).wf(),
    ensures
        final(f).wf(),
        if !old(f)@.contains_key((task, fd)) {
            r == err(EBADF) && *final(f) == *old(f)
        } else {
            match seek_target(old(f)@[(task, fd)].pos, offset, whence, size) {
                Err(e) => r == e && *final(f) == *old(f),
                Ok(to) => r == to && final(f)@ == old(f)@.insert(
                    (task, fd),
                    File { name: old(f)@[(task, fd)].name, pos: to },
                ),
            }
        },
{
    let pos = match file_of(f, task, fd) {
        None => {
            return err(EBADF);
        },
        Some((_name, pos)) => pos,
    };
    let base: i128 = match whence {
        0 => 0,
        1 => to_signed(pos),
        2 => match size {
            Err(e) => {
                return fs_err(e);
            },
            Ok(n) => to_signed(n),
        },
        _ => {
            return err(EINVAL);
        },
    };
    let to = base + to_signed(offset);
    if to < 0 || to >= 0x8000_0000_0000_0000 {
        return err(EINVAL);
    }
    set_pos(f, task, fd, to as u64);
    to as u64
}

/// The record of `stat`: the size, then one byte that says whether it is a
/// directory, padded to 16 bytes.
pub open spec fn stat_bytes(st: FileStat) -> Seq<u8> {
    le64_bytes(st.size as int) + seq![
        (if st.is_dir {
            1u8
        } else {
            0u8
        }),
        0,
        0,
        0,
        0,
        0,
        0,
        0,
    ]
}

/// The record of `stat`.
pub fn stat_record(st: FileStat) -> (r: Vec<u8>)
    ensures
        r@ == stat_bytes(st),
        r@.len() == 16,
{
    let mut r = zeros(16);
    put_u64(r.as_mut_slice(), 0, st.size);
    r[8] = if st.is_dir {
        1
    } else {
        0
    };
    let ghost head = le64_bytes(st.size as int);
    assert(head.len() == 8);
    assert(r@ =~= stat_bytes(st));
    r
}

// ---------------------------------------------------------------------------
// Waiting for input
// ---------------------------------------------------------------------------

/// What a call that may wait does next.
#[derive(Clone, Copy, PartialEq, Eq, Debug, Structural)]
pub enum Wait {
    /// Answer so.
    Done(u64),
    /// Let others run, then look again.
    Yield,
    /// Sleep until something arrives, then look again.
    Block,
}

/// A console read after it took `n` bytes of a line: more of a line on its way
/// is waited for by yielding, nothing at all by blocking.
pub fn console_step(n: u64, line_pending: bool) -> (w: Wait)
    ensures
        w == if n > 0 {
            Wait::Done(n)
        } else if line_pending {
            Wait::Yield
        } else {
            Wait::Block
        },
{
    if n > 0 {
        Wait::Done(n)
    } else if line_pending {
        Wait::Yield
    } else {
        Wait::Block
    }
}

/// The transfer of an input read, or the errno: a buffer has to hold one
/// record.
pub fn sys_input_read(len: u64, writable: bool) -> (r: Result<u64, u64>)
    ensures
        r == if transfer(len) < 24 {
            Err::<u64, u64>(err(EINVAL))
        } else if !writable {
            Err(err(EFAULT))
        } else {
            Ok(transfer(len))
        },
{
    let n = if len < MAX_TRANSFER {
        len
    } else {
        MAX_TRANSFER
    };
    if n < 24 {
        return Err(err(EINVAL));
    }
    if !writable {
        return Err(err(EFAULT));
    }
    Ok(n)
}

/// An input read after it drained `n` bytes of events.
pub fn input_step(n: u64, blocking: u64) -> (w: Wait)
    ensures
        w == if n > 0 || blocking == 0 {
            Wait::Done(n)
        } else {
            Wait::Block
        },
{
    if n > 0 || blocking == 0 {
        Wait::Done(n)
    } else {
        Wait::Block
    }
}

/// Milliseconds that a sleep of `ns` nanoseconds takes: the fewest that are no
/// shorter, and at least one.
pub open spec fn sleep_ms(ns: u64) -> int {
    if ns == 0 {
        1
    } else {
        (ns + 999_999) / 1_000_000
    }
}

/// When a sleep of `ns` nanoseconds that starts at `now_ms` ends: at least that
/// long after, and a millisecond at least.
pub fn sys_sleep(now_ms: u64, ns: u64) -> (wake_ms: u64)
    ensures
        wake_ms == if now_ms + sleep_ms(ns) > u64::MAX {
            u64::MAX as int
        } else {
            now_ms + sleep_ms(ns)
        },
        now_ms + sleep_ms(ns) <= u64::MAX ==> (wake_ms - now_ms) * 1_000_000 >= ns,
{
    let ms = if ns == 0 {
        1
    } else {
        (ns - 1) / 1_000_000 + 1
    };
    if now_ms > u64::MAX - ms {
        u64::MAX
    } else {
        now_ms + ms
    }
}

/// `gettime(clock)`: 0 is the monotonic clock, 1 the wall clock. Both stand at 0
/// until the counter `c` is calibrated.
pub fn sys_gettime(clock: u64, c: &Clock, tsc: u64) -> (r: u64)
    requires
        c.wf(),
    ensures
        r == if clock > 1 {
            u64::MAX as int
        } else if !c.calibrated {
            0
        } else if clock == 0 {
            now_spec(c, tsc)
        } else {
            wall_ns(c, tsc)
        },
{
    if clock > 1 {
        u64::MAX
    } else if !c.calibrated {
        0
    } else if clock == 0 {
        now_ns(c, tsc)
    } else {
        realtime_ns(c, tsc)
    }
}

// ---------------------------------------------------------------------------
// Tasks
// ---------------------------------------------------------------------------

/// The answer of `waitpid` for a child: its id above its exit code.
pub open spec fn wait_word(id: u64, code: u32) -> int {
    id % 0x1_0000_0000 * 0x1_0000_0000 + code
}

/// `waitpid(pid)`: the answer, or `None` where the caller now waits for a
/// child and has to ask again once it is woken.
pub fn sys_waitpid(s: &mut Sched, me: usize, pid: u64) -> (r: Option<u64>)
    requires
        old(s).wf(),
        me < MAX_CPUS,
    ensures
        final(s).wf(),
        dead_stay(old(s).tasks@, final(s).tasks@),
        ({
            let ts = old(s).tasks@;
            let caller = cur_id(*old(s), me);
            let idle = old(s).cur(me) == IDLE_INDEX;
            if !idle && (exists|i: int| #[trigger] reapable(ts, i, caller, pid)) {
                exists|i: int|
                    {
                        &&& #[trigger] first_reapable(ts, i, caller, pid)
                        &&& r == Some(wait_word(ts[i].id, ts[i].exit_code) as u64)
                        &&& with_task(*old(s), *final(s), i, Task { reaped: true, ..ts[i] })
                    }
            } else if !idle && (exists|i: int| #[trigger] waitable(ts, i, caller, pid)) {
                r is None && with_current(
                    *old(s),
                    *final(s),
                    me,
                    blocked_on(cur_task(*old(s), me), WaitFor::Child),
                )
            } else {
                r == Some(err(ECHILD)) && *final(s) == *old(s)
            }
        }),
{
    match try_reap(s, me, pid) {
        Some((id, code)) => {
            let w = id % 0x1_0000_0000 * 0x1_0000_0000 + code as u64;
            proof {
                let ts = old(s).tasks@;
                let caller = cur_id(*old(s), me);
                let i = choose|i: int|
                    {
                        &&& #[trigger] first_reapable(ts, i, caller, pid)
                        &&& id == ts[i].id
                        &&& code == ts[i].exit_code
                        &&& with_task(*old(s), *s, i, Task { reaped: true, ..ts[i] })
                    };
                assert(first_reapable(ts, i, caller, pid));
                assert(reapable(ts, i, caller, pid));
            }
            Some(w)
        },
        None => {
            if child_waitable(s, me, pid) {
                block_on_child(s, me);
                None
            } else {
                Some(err(ECHILD))
            }
        },
    }
}

/// The frame of a task that died in a call: it returns to the trampoline, with
/// interrupts on.
pub open spec fn dead_frame(f: SyscallFrame) -> SyscallFrame {
    SyscallFrame { rcx: USER_TRAMPOLINE, r11: 0x202, ..f }
}

/// Point a frame at the trampoline.
pub fn dead_frame_rewrite(f: &mut SyscallFrame)
    ensures
        *final(f) == dead_frame(*old(f)),
{
    f.rcx = USER_TRAMPOLINE;
    f.r11 = 0x202;
}

/// `exit(code)`: the task becomes a zombie, its descriptors and memory records
/// go, and its frame never returns to its code.
pub fn sys_exit(s: &mut Sched, me: usize, fds: &mut Fds, progs: &mut Programs, f: &mut SyscallFrame)
    requires
        old(s).wf(),
        me < MAX_CPUS,
        old(fds).wf(),
        old(progs).wf(),
    ensures
        final(s).wf(),
        dead_stay(old(s).tasks@, final(s).tasks@),
        final(fds).wf(),
        final(progs).wf(),
        with_current(
            *old(s),
            *final(s),
            me,
            exited(cur_task(*old(s), me), (old(f).rdi % 0x1_0000_0000) as u32),
        ),
        final(fds)@ == others(old(fds)@, cur_id(*old(s), me)),
        final(progs).linux@ == mem_without(old(progs).linux@, cur_id(*old(s), me)),
        final(progs).regions@ == old(progs).regions@,
        final(progs).stack_slots == old(progs).stack_slots,
        *final(f) == dead_frame(*old(f)),
{
    let id = current_task_id(s, me);
    drop_task(fds, id);
    linux_mem_drop(progs, id);
    record_exit(s, me, (f.rdi % 0x1_0000_0000) as u32);
    dead_frame_rewrite(f);
}

/// `kill(pid)`: the target becomes a zombie with exit code 137, and its
/// descriptors and memory records go. A task that kills itself is answered by
/// the trampoline; the CPU that ran another target is returned so that it can
/// be told.
pub fn sys_kill(s: &mut Sched, me: usize, fds: &mut Fds, progs: &mut Programs, f: &mut SyscallFrame) -> (cpu: Option<u8>)
    requires
        old(s).wf(),
        me < MAX_CPUS,
        old(fds).wf(),
        old(progs).wf(),
    ensures
        final(s).wf(),
        dead_stay(old(s).tasks@, final(s).tasks@),
        final(fds).wf(),
        final(progs).wf(),
        final(progs).regions@ == old(progs).regions@,
        final(progs).stack_slots == old(progs).stack_slots,
        ({
            let pid = old(f).rdi;
            let gone = final(fds)@ == others(old(fds)@, pid) && final(progs).linux@ == mem_without(
                old(progs).linux@,
                pid,
            );
            if pid == cur_id(*old(s), me) {
                &&& with_current(*old(s), *final(s), me, exited(cur_task(*old(s), me), KILLED))
                &&& gone
                &&& *final(f) == dead_frame(*old(f))
                &&& cpu is None
            } else {
                &&& forall|i: int| #[trigger]
                    id_at(old(s).tasks@, i, pid) && i != old(s).cur(me) && old(s).tasks@[i].state
                        != State::Dead ==> {
                        &&& with_task(*old(s), *final(s), i, exited(old(s).tasks@[i], KILLED))
                        &&& gone
                        &&& *final(f) == (SyscallFrame { rax: 0, ..*old(f) })
                        &&& cpu == Some(old(s).tasks@[i].owner_cpu)
                    }
                &&& (forall|i: int| #[trigger]
                    id_at(old(s).tasks@, i, pid) ==> i == old(s).cur(me) || old(s).tasks@[i].state
                        == State::Dead) ==> {
                    &&& *final(s) == *old(s)
                    &&& *final(fds) == *old(fds)
                    &&& *final(progs) == *old(progs)
                    &&& *final(f) == (SyscallFrame { rax: err(ESRCH), ..*old(f) })
                    &&& cpu is None
                }
            }
        }),
{
    let pid = f.rdi;
    if pid == current_task_id(s, me) {
        drop_task(fds, pid);
        linux_mem_drop(progs, pid);
        record_exit(s, me, KILLED);
        dead_frame_rewrite(f);
        return None;
    }
    match kill(s, me, pid) {
        Some(cpu) => {
            drop_task(fds, pid);
            linux_mem_drop(progs, pid);
            f.rax = 0;
            Some(cpu)
        },
        None => {
            f.rax = err(ESRCH);
            None
        },
    }
}

// ---------------------------------------------------------------------------
// Starting programs
// ---------------------------------------------------------------------------

/// The characters with the Unicode property White_Space.
pub open spec fn white_space(c: char) -> bool {
    let n = c as int;
    0x09 <= n <= 0x0D || n == 0x20 || n == 0x85 || n == 0xA0 || n == 0x1680 || 0x2000 <= n <= 0x200A || n == 0x2028
        || n == 0x2029 || n == 0x202F || n == 0x205F || n == 0x3000
}

/// `char::is_whitespace`: whether the character has the Unicode property
/// White_Space.
#[verifier::external_body]
fn is_white(c: char) -> (r: bool)
    ensures
        r == white_space(c),
{
    c.is_whitespace()
}

/// The words of `s` from `i` on, where `start` is where the current one
/// begins; `white` marks the characters between words.
pub open spec fn words_from(s: Seq<char>, white: Seq<bool>, start: int, i: int) -> Seq<Seq<char>>
    decreases s.len() - i,
{
    let done = if start < i {
        seq![s.subrange(start, i)]
    } else {
        Seq::empty()
    };
    if i >= s.len() {
        done
    } else if white[i] {
        done + words_from(s, white, i + 1, i + 1)
    } else {
        words_from(s, white, start, i + 1)
    }
}

/// The words of `s`; `white` marks the characters between words.
pub fn split_words(s: &Vec<char>, white: &Vec<bool>) -> (r: Vec<Vec<char>>)
    requires
        white@.len() == s@.len(),
    ensures
        crate::vfs::names(r@) == words_from(s@, white@, 0, 0),
{
    let n = s.len();
    let mut out: Vec<Vec<char>> = Vec::new();
    let mut start: usize = 0;
    let mut i: usize = 0;
    assert(crate::vfs::names(out@) + words_from(s@, white@, 0, 0) =~= words_from(s@, white@, 0, 0));
    while i < n
        invariant
            n == s@.len() == white@.len(),
            start <= i <= n,
            words_from(s@, white@, 0, 0) == crate::vfs::names(out@) + words_from(
                s@,
                white@,
                start as int,
                i as int,
            ),
        decreases n - i,
    {
        if white[i] {
            let ghost before = crate::vfs::names(out@);
            if start < i {
                let p = crate::vfs::piece(s, start, i);
                out.push(p);
                assert(crate::vfs::names(out@) =~= before.push(
                    s@.subrange(start as int, i as int),
                ));
            }
            assert(words_from(s@, white@, 0, 0) =~= crate::vfs::names(out@) + words_from(
                s@,
                white@,
                i + 1,
                i + 1,
            ));
            start = i + 1;
        }
        i += 1;
    }
    let ghost before = crate::vfs::names(out@);
    if start < n {
        let p = crate::vfs::piece(s, start, n);
        out.push(p);
        assert(crate::vfs::names(out@) =~= before.push(s@.subrange(start as int, n as int)));
    }
    assert(words_from(s@, white@, 0, 0) =~= crate::vfs::names(out@));
    out
}

/// The words of a command line: the program first, then its arguments.
pub fn command_words(line: &String) -> (r: Vec<Vec<char>>)
    ensures
        crate::vfs::names(r@) == words_from(
            line@,
            Seq::new(line@.len(), |i: int| white_space(line@[i])),
            0,
            0,
        ),
{
    let cs = crate::vfs::chars_of(line.as_str());
    let mut white: Vec<bool> = Vec::new();
    let mut i: usize = 0;
    while i < cs.len()
        invariant
            cs@ == line@,
            i <= cs@.len(),
            white@.len() == i,
            forall|k: int| 0 <= k < i ==> #[trigger] white@[k] == white_space(line@[k]),
        decreases cs@.len() - i,
    {
        white.push(is_white(cs[i]));
        i += 1;
    }
    assert(white@ =~= Seq::new(line@.len(), |i: int| white_space(line@[i])));
    split_words(&cs, &white)
}

/// The errno of a program that could not be started.
pub open spec fn spawn_errno(e: SpawnError) -> u64 {
    match e {
        SpawnError::NoSuchFile => ENOENT,
        SpawnError::Empty => ENOENT,
        SpawnError::TooLarge => E2BIG,
        SpawnError::Overlap => EEXIST,
        SpawnError::NoMapper => ENOMEM,
        SpawnError::NoFrames => ENOMEM,
        _ => ENOEXEC,
    }
}

/// The answer of `spawn`: the child's id, or an errno.
pub fn sys_spawn(r: Result<u64, SpawnError>) -> (ret: u64)
    ensures
        ret == match r {
            Ok(pid) => pid,
            Err(e) => err(spawn_errno(e)),
        },
{
    match r {
        Ok(pid) => pid,
        Err(e) => match e {
            SpawnError::NoSuchFile => err(ENOENT),
            SpawnError::Empty => err(ENOENT),
            SpawnError::TooLarge => err(E2BIG),
            SpawnError::Overlap => err(EEXIST),
            SpawnError::NoMapper => err(ENOMEM),
            SpawnError::NoFrames => err(ENOMEM),
            _ => err(ENOEXEC),
        },
    }
}

} // verus!
