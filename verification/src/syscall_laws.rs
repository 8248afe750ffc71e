//! What programs can rely on when they call the kernel: which call a number
//! asks for and where its arguments travel, what the answers mean, and where a
//! seek goes.
use vstd::prelude::*;

use crate::bytes::{law_le64_roundtrip, le64, le64_bytes, splice};
use crate::errno::err;
use crate::fds::{lowest_free, File, Key};
use crate::linux::{linux_call, LinuxCall};
use crate::memory::walk;
use crate::syscall::{
    buf_ok, dead_frame, fs_errno, native_call, path_fault, path_ok, seek_target, sleep_ms,
    spawn_errno, stat_bytes, transfer, wait_word, words_from, Call, SyscallFrame, SFMASK,
};
use crate::userspace::SpawnError;
use crate::vfs::{components, is_dots, path_parts, FileStat, FsError};

verus! {

// ---------------------------------------------------------------------------
// Numbers and arguments
// ---------------------------------------------------------------------------

/// The number by which programs ask for a call.
pub open spec fn number_of(c: Call) -> int {
    match c {
        Call::Write { .. } => 0,
        Call::Exit { .. } => 1,
        Call::Open { .. } => 2,
        Call::Read { .. } => 3,
        Call::Close { .. } => 4,
        Call::Ls { .. } => 5,
        Call::Mkdir { .. } => 6,
        Call::Spawn { .. } => 7,
        Call::Gettime { .. } => 8,
        Call::Getpid => 9,
        Call::Sleep { .. } => 10,
        Call::Yield => 11,
        Call::Lspci => 12,
        Call::Flush => 13,
        Call::Waitpid { .. } => 14,
        Call::Kill { .. } => 15,
        Call::InputRead { .. } => 16,
        Call::Perf => 17,
        Call::Stat { .. } => 18,
        Call::Seek { .. } => 19,
        Call::Unlink { .. } => 20,
        Call::Rename { .. } => 21,
        Call::Unknown => -1,
    }
}

/// The arguments of a call in the order in which programs write them:
/// `write(fd, buf, len)`, `seek(fd, offset, whence)`, `rename(from, from_len,
/// to, to_len)` and so on.
pub open spec fn arguments_of(c: Call) -> Seq<u64> {
    match c {
        Call::Write { fd, buf, len } => seq![fd, buf, len],
        Call::Exit { code } => seq![code],
        Call::Open { path, len } => seq![path, len],
        Call::Read { fd, buf, len } => seq![fd, buf, len],
        Call::Close { fd } => seq![fd],
        Call::Ls { path, len } => seq![path, len],
        Call::Mkdir { path, len } => seq![path, len],
        Call::Spawn { path, len } => seq![path, len],
        Call::Gettime { clock } => seq![clock],
        Call::Getpid => Seq::empty(),
        Call::Sleep { ns } => seq![ns],
        Call::Yield => Seq::empty(),
        Call::Lspci => Seq::empty(),
        Call::Flush => Seq::empty(),
        Call::Waitpid { pid } => seq![pid],
        Call::Kill { pid } => seq![pid],
        Call::InputRead { buf, len, blocking } => seq![buf, len, blocking],
        Call::Perf => Seq::empty(),
        Call::Stat { path, len, out } => seq![path, len, out],
        Call::Seek { fd, offset, whence } => seq![fd, offset, whence],
        Call::Unlink { path, len } => seq![path, len],
        Call::Rename { from, from_len, to, to_len } => seq![from, from_len, to, to_len],
        Call::Unknown => Seq::empty(),
    }
}

/// A frame with a number up to 21 in rax asks for the call of that number, and
/// its arguments come, in order, from rdi, rsi, rdx and r8; a larger number asks
/// for none. Nothing else in the frame matters.
pub proof fn law_call_decoded(f: SyscallFrame)
    ensures
        f.rax <= 21 ==> number_of(native_call(f)) == f.rax,
        f.rax > 21 ==> native_call(f) == Call::Unknown,
        arguments_of(native_call(f)) == seq![f.rdi, f.rsi, f.rdx, f.r8].take(
            arguments_of(native_call(f)).len() as int,
        ),
{
    let regs = seq![f.rdi, f.rsi, f.rdx, f.r8];
    let args = arguments_of(native_call(f));
    assert(args.len() <= 4);
    assert(args =~= regs.take(args.len() as int));
}

/// Every call can be asked for: a frame with its number and its arguments in
/// their registers is decoded as that call.
pub proof fn law_every_call_can_be_asked_for(c: Call, f: SyscallFrame)
    requires
        c != Call::Unknown,
        f.rax == number_of(c),
        arguments_of(c).len() > 0 ==> f.rdi == arguments_of(c)[0],
        arguments_of(c).len() > 1 ==> f.rsi == arguments_of(c)[1],
        arguments_of(c).len() > 2 ==> f.rdx == arguments_of(c)[2],
        arguments_of(c).len() > 3 ==> f.r8 == arguments_of(c)[3],
    ensures
        native_call(f) == c,
{
}

// ---------------------------------------------------------------------------
// Seeking
// ---------------------------------------------------------------------------

/// From the start a seek goes to the offset itself; from the position or from
/// the end of the file, so far behind it or, where the offset is negative, in
/// front of it; never in front of the start.
pub proof fn law_seek(pos: u64, size: u64, n: u64)
    requires
        pos < 0x8000_0000_0000_0000,
        size < 0x8000_0000_0000_0000,
        n < 0x8000_0000_0000_0000,
    ensures
        seek_target(pos, n, 0, Ok(size)) == Ok::<u64, u64>(n),
        pos + n < 0x8000_0000_0000_0000 ==> seek_target(pos, n, 1, Ok(size)) == Ok::<u64, u64>(
            (pos + n) as u64,
        ),
        size + n < 0x8000_0000_0000_0000 ==> seek_target(pos, n, 2, Ok(size)) == Ok::<u64, u64>(
            (size + n) as u64,
        ),
        0 < n <= pos ==> seek_target(pos, (0x1_0000_0000_0000_0000 - n) as u64, 1, Ok(size)) == Ok::<
            u64,
            u64,
        >((pos - n) as u64),
        0 < n <= size ==> seek_target(pos, (0x1_0000_0000_0000_0000 - n) as u64, 2, Ok(size)) == Ok::<
            u64,
            u64,
        >((size - n) as u64),
        n > pos ==> seek_target(pos, (0x1_0000_0000_0000_0000 - n) as u64, 1, Ok(size)) == Err::<
            u64,
            u64,
        >((0x1_0000_0000_0000_0000 - 22) as u64),
        n > size ==> seek_target(pos, (0x1_0000_0000_0000_0000 - n) as u64, 2, Ok(size)) == Err::<
            u64,
            u64,
        >((0x1_0000_0000_0000_0000 - 22) as u64),
        n > 0 ==> seek_target(pos, (0x1_0000_0000_0000_0000 - n) as u64, 0, Ok(size)) is Err,
{
}

/// Of the three bases only the end of the file needs its size; any other base is
/// refused as an invalid argument, 22.
pub proof fn law_seek_bases(pos: u64, offset: u64, whence: u64, e: FsError)
    ensures
        whence > 2 ==> seek_target(pos, offset, whence, Err(e)) == Err::<u64, u64>(
            (0x1_0000_0000_0000_0000 - 22) as u64,
        ),
        whence == 2 ==> seek_target(pos, offset, whence, Err(e)) == Err::<u64, u64>(err(fs_errno(e))),
        whence < 2 ==> forall|size: Result<u64, FsError>|
            seek_target(pos, offset, whence, Err(e)) == #[trigger] seek_target(
                pos,
                offset,
                whence,
                size,
            ),
{
}

/// The frame of `seek(fd, n, 0)` asks for a seek of `fd` that goes to `n`,
/// wherever the descriptor stands and however long the file is.
pub proof fn law_seek_frame(f: SyscallFrame, pos: u64, size: Result<u64, FsError>)
    requires
        f.rax == 19,
        f.rdx == 0,
        f.rsi < 0x8000_0000_0000_0000,
    ensures
        native_call(f) matches Call::Seek { fd, offset, whence } && fd == f.rdi && seek_target(
            pos,
            offset,
            whence,
            size,
        ) == Ok::<u64, u64>(f.rsi),
{
}

// ---------------------------------------------------------------------------
// Answers
// ---------------------------------------------------------------------------

/// An error is answered as its number taken from zero in 64 bits: no such file
/// is -2, an I/O error -5, an existing file -17, a directory -21, an invalid
/// argument -22, a full disk -28.
pub proof fn law_file_errors(e: FsError)
    ensures
        err(fs_errno(e)) + (match e {
            FsError::NotFound => 2int,
            FsError::Exists => 17,
            FsError::NotSupported => 22,
            FsError::NoSpace => 28,
            FsError::BadFs => 5,
            FsError::Io(_) => 5,
            FsError::IsDir => 21,
        }) == 0x1_0000_0000_0000_0000,
{
}

/// A program that cannot be spawned is answered by -2 where there is no file or
/// nothing in it, -7 where it is too large, -17 where it would lie on another,
/// -12 where memory is missing, and -8 where it is no program.
pub proof fn law_spawn_errors(e: SpawnError)
    ensures
        err(spawn_errno(e)) + (match e {
            SpawnError::NoSuchFile => 2int,
            SpawnError::Empty => 2,
            SpawnError::TooLarge => 7,
            SpawnError::Overlap => 17,
            SpawnError::NoMapper => 12,
            SpawnError::NoFrames => 12,
            _ => 8,
        }) == 0x1_0000_0000_0000_0000,
{
}

/// A path is refused as missing, -2, where it is empty, as too long, -36, from
/// 129 bytes on, as a bad address, -14, where its bytes cannot be read, and as
/// invalid, -22, where it is no text or no path. No other one is refused.
pub proof fn law_path_errors(len: u64, bytes: Option<Seq<u8>>)
    ensures
        ({
            let top = 0x1_0000_0000_0000_0000int;
            let r = path_fault(len, bytes);
            &&& r is None <==> 1 <= len <= 128 && bytes is Some && vstd::utf8::valid_utf8(bytes->0)
                && path_ok(vstd::utf8::decode_utf8(bytes->0))
            &&& len == 0 ==> r is Some && r->0 == top - 2
            &&& len > 128 ==> r is Some && r->0 == top - 36
            &&& 1 <= len <= 128 && bytes is None ==> r is Some && r->0 == top - 14
            &&& 1 <= len <= 128 && bytes is Some && r is Some ==> r->0 == top - 22
        }),
{
}

/// The record for `stat` is 16 bytes: the size as a little-endian 64-bit number,
/// then 1 for a directory and 0 for a file, then zeros.
pub proof fn law_stat_record(st: FileStat)
    ensures
        stat_bytes(st).len() == 16,
        le64(stat_bytes(st), 0) == st.size,
        stat_bytes(st)[8] == if st.is_dir {
            1u8
        } else {
            0u8
        },
        forall|i: int| 9 <= i < 16 ==> #[trigger] stat_bytes(st)[i] == 0,
{
    let b = stat_bytes(st);
    law_le64_roundtrip(b, 0, st.size);
    assert(splice(b, 0, le64_bytes(st.size as int)) =~= b);
}

/// The answer to a wait holds the child in its upper half and the exit code in
/// its lower half.
pub proof fn law_wait_answer(id: u64, code: u32)
    requires
        id < 0x1_0000_0000,
    ensures
        wait_word(id, code) / 0x1_0000_0000 == id,
        wait_word(id, code) % 0x1_0000_0000 == code,
        wait_word(id, code) < 0x1_0000_0000_0000_0000,
{
}

/// A sleep lasts the milliseconds that its nanoseconds need, at least one.
pub proof fn law_sleep_is_long_enough(ns: u64)
    ensures
        sleep_ms(ns) >= 1,
        sleep_ms(ns) * 1_000_000 >= ns,
        ns > 0 ==> (sleep_ms(ns) - 1) * 1_000_000 < ns,
{
}

/// A transfer is cut at 4096 bytes.
pub proof fn law_transfers_are_cut(len: u64)
    ensures
        transfer(len) <= len,
        transfer(len) <= 4096,
        transfer(len) == len || transfer(len) == 4096,
{
}

/// A call that ends its task returns to the trampoline at 0x3F_F000 with
/// interrupts on, and changes nothing else.
pub proof fn law_dead_tasks_return_to_the_trampoline(f: SyscallFrame)
    ensures
        dead_frame(f).r11 / 512 % 2 == 1,
        dead_frame(f).rcx == crate::elf::USER_TEXT_BASE - 0x1000,
        dead_frame(f) == (SyscallFrame { rcx: dead_frame(f).rcx, r11: dead_frame(f).r11, ..f }),
{
}

/// On entry interrupts are off, single steps too, and the direction is upwards:
/// bits 9, 8 and 10 of the mask are set.
pub proof fn law_entry_mask()
    ensures
        SFMASK / 0x200 % 2 == 1,
        SFMASK / 0x100 % 2 == 1,
        SFMASK / 0x400 % 2 == 1,
{
}

// ---------------------------------------------------------------------------
// User memory and descriptors
// ---------------------------------------------------------------------------

/// A buffer that is accepted lies between the first page and 1 TiB, and each of
/// its bytes in a page that is mapped for the user, bit 2 of its flags, and
/// where it will be written to writable, bit 1. Any other buffer is refused,
/// but an empty one.
pub proof fn law_user_buffers(window: Seq<u64>, level_4: u64, ptr: u64, len: u64, write: bool)
    requires
        len > 0,
    ensures
        buf_ok(window, level_4, ptr, len, write) <==> {
            &&& 4096 <= ptr
            &&& ptr + len <= 0x100_0000_0000
            &&& forall|a: u64|
                ptr <= a < ptr + len ==> {
                    let flags = #[trigger] walk(window, level_4 as int, a, 4);
                    &&& flags is Some
                    &&& flags->0 / 4 % 2 == 1
                    &&& write ==> flags->0 / 2 % 2 == 1
                }
        },
{
    if buf_ok(window, level_4, ptr, len, write) {
        assert forall|a: u64| ptr <= a < ptr + len implies {
            let flags = #[trigger] walk(window, level_4 as int, a, 4);
            &&& flags is Some
            &&& flags->0 / 4 % 2 == 1
            &&& write ==> flags->0 / 2 % 2 == 1
        } by {
            assert(crate::syscall::page_ok(walk(window, level_4 as int, a, 4), write));
        }
    }
}

proof fn lemma_lowest_free(m: Map<Key, File>, task: u64, fd: int)
    requires
        3 <= fd <= 8,
    ensures
        match lowest_free(m, task, fd) {
            Some(r) => fd <= r < 8 && !m.contains_key((task, r)) && forall|k: u64|
                fd <= k < r ==> #[trigger] m.contains_key((task, k)),
            None => forall|k: u64| fd <= k < 8 ==> #[trigger] m.contains_key((task, k)),
        },
    decreases 8 - fd,
{
    if fd < 8 && m.contains_key((task, fd as u64)) {
        lemma_lowest_free(m, task, fd + 1);
        assert forall|k: u64|
            fd <= k && (lowest_free(m, task, fd) is Some ==> k < lowest_free(m, task, fd)->0) && k
                < 8 implies #[trigger] m.contains_key((task, k)) by {
            if k == fd {
                assert(m.contains_key((task, fd as u64)));
            }
        }
    }
}

/// A new descriptor is the lowest of 3 to 7 that the task does not use; there is
/// none where it uses them all.
pub proof fn law_lowest_descriptor(m: Map<Key, File>, task: u64)
    ensures
        match lowest_free(m, task, 3) {
            Some(fd) => 3 <= fd < 8 && !m.contains_key((task, fd)) && forall|k: u64|
                3 <= k < fd ==> #[trigger] m.contains_key((task, k)),
            None => forall|k: u64| 3 <= k < 8 ==> #[trigger] m.contains_key((task, k)),
        },
{
    lemma_lowest_free(m, task, 3);
}

// ---------------------------------------------------------------------------
// Paths and words
// ---------------------------------------------------------------------------

proof fn lemma_components_plain(s: Seq<char>, start: int, i: int)
    requires
        0 <= start <= i <= s.len(),
        forall|k: int| start <= k < i ==> s[k] != '/',
    ensures
        forall|k: int|
            0 <= k < components(s, start, i).len() ==> (#[trigger] components(s, start, i)[k]).len() > 0
                && !components(s, start, i)[k].contains('/'),
    decreases s.len() - i,
{
    let cs = components(s, start, i);
    if i < s.len() && s[i] != '/' {
        lemma_components_plain(s, start, i + 1);
        assert(cs == components(s, start, i + 1));
        assert forall|k: int| 0 <= k < cs.len() implies (#[trigger] cs[k]).len() > 0
            && !cs[k].contains('/') by {
            assert(cs[k] == components(s, start, i + 1)[k]);
        }
    } else {
        let rest = if i < s.len() {
            components(s, i + 1, i + 1)
        } else {
            Seq::empty()
        };
        if i < s.len() {
            lemma_components_plain(s, i + 1, i + 1);
        }
        let done = if start < i {
            seq![s.subrange(start, i)]
        } else {
            Seq::empty()
        };
        assert(cs =~= done + rest);
        assert forall|k: int| 0 <= k < cs.len() implies (#[trigger] cs[k]).len() > 0
            && !cs[k].contains('/') by {
            if k < done.len() {
                assert(cs[k] == s.subrange(start, i));
            } else {
                assert(cs[k] == rest[k - done.len()]);
            }
        }
    }
}

proof fn lemma_components_slash(s: Seq<char>, a: Seq<char>, start: int, i: int)
    requires
        0 <= start <= i <= s.len(),
        !a.contains('/'),
        forall|k: int| start <= k < i ==> s[k] != '/',
    ensures
        components(s + seq!['/'] + a, start, i) == components(s, start, i) + (if a.len() > 0 {
            seq![a]
        } else {
            Seq::empty()
        }),
    decreases s.len() - i,
{
    let t = s + seq!['/'] + a;
    if i < s.len() {
        assert(t[i] == s[i]);
        if s[i] == '/' {
            lemma_components_slash(s, a, i + 1, i + 1);
            if start < i {
                assert(t.subrange(start, i) =~= s.subrange(start, i));
            }
        } else {
            lemma_components_slash(s, a, start, i + 1);
        }
        assert(components(t, start, i) =~= components(s, start, i) + (if a.len() > 0 {
            seq![a]
        } else {
            Seq::empty()
        }));
    } else {
        let n = s.len() as int;
        assert(t[n] == '/');
        assert(t.subrange(n + 1, t.len() as int) =~= a);
        lemma_components_tail(t, a, n + 1, n + 1);
        assert(t.subrange(start, n) =~= s.subrange(start, n));
        assert(components(t, start, i) =~= components(s, start, i) + (if a.len() > 0 {
            seq![a]
        } else {
            Seq::empty()
        }));
    }
}

proof fn lemma_components_tail(t: Seq<char>, a: Seq<char>, start: int, i: int)
    requires
        0 <= start <= i <= t.len(),
        start + a.len() == t.len(),
        t.subrange(start, t.len() as int) == a,
        !a.contains('/'),
    ensures
        components(t, start, i) == (if a.len() > 0 {
            seq![a]
        } else {
            Seq::empty()
        }),
    decreases t.len() - i,
{
    if i < t.len() {
        assert(a[i - start] == t[i]);
        assert(t[i] != '/');
        lemma_components_tail(t, a, start, i + 1);
    }
}

/// A path is absolute, and its parts are what stands between its slashes: none
/// is empty, holds a slash or is `.` or `..`.
pub proof fn law_path_parts(p: Seq<char>)
    requires
        path_parts(p) is Some,
    ensures
        p.len() > 0 && p[0] == '/',
        forall|k: int|
            0 <= k < path_parts(p)->0.len() ==> (#[trigger] path_parts(p)->0[k]).len() > 0
                && !path_parts(p)->0[k].contains('/') && path_parts(p)->0[k] != seq!['.']
                && path_parts(p)->0[k] != seq!['.', '.'],
{
    lemma_components_plain(p, 1, 1);
    assert forall|k: int| 0 <= k < path_parts(p)->0.len() implies (
    #[trigger] path_parts(p)->0[k]).len() > 0 && !path_parts(p)->0[k].contains('/') && path_parts(
        p,
    )->0[k] != seq!['.'] && path_parts(p)->0[k] != seq!['.', '.'] by {
        assert(!is_dots(components(p, 1, 1)[k]));
    }
}

/// The root has no parts; a name put behind a path and a slash is one more part
/// of it, and a slash alone adds none.
pub proof fn law_paths_are_built(p: Seq<char>, name: Seq<char>)
    requires
        path_parts(p) is Some,
        !name.contains('/'),
        name != seq!['.'],
        name != seq!['.', '.'],
    ensures
        path_parts(seq!['/']) == Some(Seq::<Seq<char>>::empty()),
        name.len() > 0 ==> path_parts(p + seq!['/'] + name) == Some(path_parts(p)->0.push(name)),
        path_parts(p + seq!['/']) == path_parts(p),
        name.len() > 0 ==> path_parts(seq!['/'] + name) == Some(seq![name]),
{
    let ps = components(p, 1, 1);
    lemma_components_slash(p, name, 1, 1);
    lemma_components_slash(p, Seq::empty(), 1, 1);
    assert(p + seq!['/'] + Seq::<char>::empty() =~= p + seq!['/']);
    assert(ps + Seq::<Seq<char>>::empty() =~= ps);
    assert(components(seq!['/'], 1, 1) =~= Seq::<Seq<char>>::empty());
    let q = p + seq!['/'] + name;
    assert(q[0] == p[0]);
    assert((p + seq!['/'])[0] == p[0]);
    if name.len() > 0 {
        let qs = components(q, 1, 1);
        assert(qs =~= ps.push(name));
        assert forall|k: int| 0 <= k < qs.len() implies !is_dots(#[trigger] qs[k]) by {
            if k < ps.len() {
                assert(qs[k] == ps[k]);
            }
        }
        let t = seq!['/'] + name;
        assert(t.subrange(1, t.len() as int) =~= name);
        lemma_components_tail(t, name, 1, 1);
        assert(t[0] == '/');
    }
}

proof fn lemma_words(s: Seq<char>, white: Seq<bool>, start: int, i: int)
    requires
        0 <= start <= i <= s.len(),
        white.len() == s.len(),
        forall|k: int| start <= k < i ==> !white[k],
        start == 0 || white[start - 1],
    ensures
        forall|w: int|
            0 <= w < words_from(s, white, start, i).len() ==> stands_in(
                s,
                white,
                start,
                #[trigger] words_from(s, white, start, i)[w],
            ),
        forall|a: int, b: int|
            start <= a && #[trigger] is_word(s, white, a, b) ==> words_from(s, white, start, i).contains(
                s.subrange(a, b),
            ),
    decreases s.len() - i,
{
    let ws = words_from(s, white, start, i);
    if i >= s.len() || white[i] {
        let rest = if i >= s.len() {
            Seq::<Seq<char>>::empty()
        } else {
            words_from(s, white, i + 1, i + 1)
        };
        if i < s.len() {
            lemma_words(s, white, i + 1, i + 1);
        }
        let done = if start < i {
            seq![s.subrange(start, i)]
        } else {
            Seq::empty()
        };
        assert(ws =~= done + rest);
        if start < i {
            assert(is_word(s, white, start, i));
        }
        assert forall|w: int| 0 <= w < ws.len() implies stands_in(s, white, start, #[trigger] ws[w]) by {
            if w < done.len() {
                assert(ws[w] == s.subrange(start, i));
            } else {
                let x = w - done.len();
                assert(ws[w] == rest[x]);
                assert(stands_in(s, white, i + 1, rest[x]));
            }
        }
        assert forall|a: int, b: int| start <= a && #[trigger] is_word(s, white, a, b) implies ws.contains(
            s.subrange(a, b),
        ) by {
            if a <= i {
                if a < i {
                    assert(!white[a]);
                    if a > start {
                        assert(!white[a - 1]);
                    }
                    assert(a == start);
                    if b < i {
                        assert(!white[b]);
                    }
                    if b > i {
                        assert(!white[i]);
                    }
                    assert(b == i);
                    assert(ws[0] == s.subrange(start, i));
                } else {
                    assert(!white[a]);
                }
            } else {
                assert(rest.contains(s.subrange(a, b)));
                let x = choose|x: int| 0 <= x < rest.len() && rest[x] == s.subrange(a, b);
                assert(ws[done.len() + x] == rest[x]);
            }
        }
    } else {
        lemma_words(s, white, start, i + 1);
        assert(ws == words_from(s, white, start, i + 1));
        assert forall|w: int| 0 <= w < ws.len() implies stands_in(s, white, start, #[trigger] ws[w]) by {
            assert(ws[w] == words_from(s, white, start, i + 1)[w]);
        }
    }
}

/// The characters from `a` up to `b` are a word: a run without white space that
/// cannot be made longer.
pub open spec fn is_word(s: Seq<char>, white: Seq<bool>, a: int, b: int) -> bool {
    &&& 0 <= a < b <= s.len()
    &&& forall|k: int| a <= k < b ==> !#[trigger] white[k]
    &&& a == 0 || white[a - 1]
    &&& b == s.len() || white[b]
}

/// The text is a word that begins at `start` or behind it.
pub open spec fn stands_in(s: Seq<char>, white: Seq<bool>, start: int, text: Seq<char>) -> bool {
    exists|a: int, b: int| #[trigger]
        is_word(s, white, a, b) && start <= a && text == s.subrange(a, b)
}

/// A line is cut into its words: every run between white space is one, and
/// nothing else is.
pub proof fn law_line_is_cut_into_words(s: Seq<char>, white: Seq<bool>)
    requires
        white.len() == s.len(),
    ensures
        forall|w: int|
            0 <= w < words_from(s, white, 0, 0).len() ==> stands_in(
                s,
                white,
                0,
                #[trigger] words_from(s, white, 0, 0)[w],
            ),
        forall|a: int, b: int| #[trigger]
            is_word(s, white, a, b) ==> words_from(s, white, 0, 0).contains(s.subrange(a, b)),
{
    lemma_words(s, white, 0, 0);
    let ws = words_from(s, white, 0, 0);
    assert forall|a: int, b: int| #[trigger] is_word(s, white, a, b) implies ws.contains(
        s.subrange(a, b),
    ) by {
        assert(0 <= a);
    }
}

// ---------------------------------------------------------------------------
// Linux programs
// ---------------------------------------------------------------------------

/// The calls of Linux programs by their numbers: read 0, write 1, close 3, seek
/// 8 and exit 231 are native ones with the same arguments; the others take
/// theirs from the registers where the Linux convention has them.
pub proof fn law_linux_calls(f: SyscallFrame, pid: u64)
    ensures
        f.rax == 0 ==> (linux_call(f, pid) matches LinuxCall::Native(c) && c is Read && arguments_of(c)
            == seq![f.rdi, f.rsi, f.rdx]),
        f.rax == 1 ==> (linux_call(f, pid) matches LinuxCall::Native(c) && c is Write && arguments_of(c)
            == seq![f.rdi, f.rsi, f.rdx]),
        f.rax == 3 ==> (linux_call(f, pid) matches LinuxCall::Native(c) && c is Close && arguments_of(c)
            == seq![f.rdi]),
        f.rax == 8 ==> (linux_call(f, pid) matches LinuxCall::Native(c) && c is Seek && arguments_of(c)
            == seq![f.rdi, f.rsi, f.rdx]),
        f.rax == 17 ==> (linux_call(f, pid) matches LinuxCall::Native(c) && c is Read && arguments_of(c)
            == seq![f.rdi, f.rsi, f.rdx]),
        f.rax == 231 ==> (linux_call(f, pid) matches LinuxCall::Native(c) && c is Exit && arguments_of(
            c,
        ) == seq![f.rdi]),
        f.rax == 257 && 0 < f.rsi <= 0xFFFF_FFFF_FFFF_EFFF ==> (linux_call(f, pid) matches LinuxCall::Open {
            path,
        } && path == f.rsi),
        f.rax == 9 && f.r8 == u64::MAX ==> (linux_call(f, pid) matches LinuxCall::Mmap { len } && len
            == f.rsi),
        f.rax == 9 && f.r8 != u64::MAX ==> (linux_call(f, pid) matches LinuxCall::Answer(e) && e
            == 0x1_0000_0000_0000_0000 - 12),
        f.rax == 12 ==> (linux_call(f, pid) matches LinuxCall::Brk { addr } && addr == f.rdi),
        f.rax == 20 ==> (linux_call(f, pid) matches LinuxCall::Writev { fd, iovs, count } && fd == f.rdi
            && iovs == f.rsi && count <= f.rdx && count <= 64 && (count == f.rdx || count == 64)),
        f.rax == 35 ==> (linux_call(f, pid) matches LinuxCall::Nanosleep { at } && at == f.rdi),
        f.rax == 63 ==> (linux_call(f, pid) matches LinuxCall::Uname { buf } && buf == f.rdi),
        f.rax == 79 ==> (linux_call(f, pid) matches LinuxCall::Getcwd { buf, size } && buf == f.rdi
            && size == f.rsi),
        f.rax == 158 && f.rdi == 0x1002 ==> (linux_call(f, pid) matches LinuxCall::SetFs { addr } && addr
            == f.rsi),
        f.rax == 158 && f.rdi == 0x1003 ==> (linux_call(f, pid) matches LinuxCall::GetFs { addr } && addr
            == f.rsi),
        f.rax == 228 ==> (linux_call(f, pid) matches LinuxCall::ClockGettime { clock, out } && clock
            == f.rdi && out == f.rsi),
        f.rax == 318 ==> (linux_call(f, pid) matches LinuxCall::Getrandom { buf, len } && buf == f.rdi
            && len == f.rsi),
        f.rax == 39 || f.rax == 218 ==> linux_call(f, pid) == LinuxCall::Answer(pid),
        f.rax == 5 && f.rsi <= 0xFFFF_FFFF_FFFF_FF6F ==> (linux_call(f, pid) matches LinuxCall::Fstat {
            buf,
        } && buf == f.rsi),
        f.rax == 11 || f.rax == 13 || f.rax == 14 || f.rax == 16 || f.rax == 21 || f.rax == 110 || f.rax
            == 202 ==> linux_call(f, pid) == LinuxCall::Answer(0),
        f.rax > 318 ==> (linux_call(f, pid) matches LinuxCall::Answer(e) && e == 0x1_0000_0000_0000_0000
            - 38),
{
}

} // verus!
