//! The system calls of Linux binaries.
//!
//! Numbers and arguments are those of Linux on x86-64: the number in rax,
//! arguments in rdi, rsi, rdx, r10, r8 and r9, `-errno` on failure. Harmless
//! calls that are not implemented succeed so that start-up code proceeds.
use vstd::prelude::*;

use crate::bytes::{put_bytes, splice, zeros};
use crate::errno::{err, EFAULT, EINVAL, ENOMEM, ENOSYS};
use crate::syscall::{Call, SyscallFrame};

verus! {

pub const READ: u64 = 0;

pub const WRITE: u64 = 1;

pub const OPEN: u64 = 2;

pub const CLOSE: u64 = 3;

pub const FSTAT: u64 = 5;

pub const LSEEK: u64 = 8;

pub const MMAP: u64 = 9;

pub const MUNMAP: u64 = 11;

pub const BRK: u64 = 12;

pub const RT_SIGACTION: u64 = 13;

pub const RT_SIGPROCMASK: u64 = 14;

pub const IOCTL: u64 = 16;

pub const PREAD64: u64 = 17;

pub const WRITEV: u64 = 20;

pub const ACCESS: u64 = 21;

pub const NANOSLEEP: u64 = 35;

pub const GETPID: u64 = 39;

pub const UNAME: u64 = 63;

pub const GETCWD: u64 = 79;

pub const GETPPID: u64 = 110;

pub const ARCH_PRCTL: u64 = 158;

pub const FUTEX: u64 = 202;

pub const SET_TID_ADDRESS: u64 = 218;

pub const CLOCK_GETTIME: u64 = 228;

pub const EXIT_GROUP: u64 = 231;

pub const OPENAT: u64 = 257;

pub const GETRANDOM: u64 = 318;

/// Set the FS base.
pub const ARCH_SET_FS: u64 = 0x1002;

/// Get the FS base.
pub const ARCH_GET_FS: u64 = 0x1003;

/// A Linux call, decoded.
#[derive(Clone, Copy, PartialEq, Eq, Debug, Structural)]
pub enum LinuxCall {
    /// It is answered.
    Answer(u64),
    /// It is the same as a native call.
    Native(Call),
    Open { path: u64 },
    Fstat { buf: u64 },
    Mmap { len: u64 },
    Brk { addr: u64 },
    Writev { fd: u64, iovs: u64, count: u64 },
    Nanosleep { at: u64 },
    Uname { buf: u64 },
    Getcwd { buf: u64, size: u64 },
    SetFs { addr: u64 },
    GetFs { addr: u64 },
    ClockGettime { clock: u64, out: u64 },
    Getrandom { buf: u64, len: u64 },
}

/// The call that a frame of task `pid` asks for.
pub open spec fn linux_call(f: SyscallFrame, pid: u64) -> LinuxCall {
    let nr = f.rax;
    if nr == READ || nr == PREAD64 {
        LinuxCall::Native(Call::Read { fd: f.rdi, buf: f.rsi, len: f.rdx })
    } else if nr == WRITE {
        LinuxCall::Native(Call::Write { fd: f.rdi, buf: f.rsi, len: f.rdx })
    } else if nr == OPEN || nr == OPENAT {
        if f.rsi == 0 || f.rsi + 4096 > u64::MAX {
            LinuxCall::Answer(err(EFAULT))
        } else {
            LinuxCall::Open { path: f.rsi }
        }
    } else if nr == CLOSE {
        LinuxCall::Native(Call::Close { fd: f.rdi })
    } else if nr == FSTAT {
        if f.rsi + 144 > u64::MAX {
            LinuxCall::Answer(err(EFAULT))
        } else {
            LinuxCall::Fstat { buf: f.rsi }
        }
    } else if nr == LSEEK {
        LinuxCall::Native(Call::Seek { fd: f.rdi, offset: f.rsi, whence: f.rdx })
    } else if nr == MMAP {
        if f.r8 != u64::MAX {
            LinuxCall::Answer(err(ENOMEM))
        } else {
            LinuxCall::Mmap { len: f.rsi }
        }
    } else if nr == BRK {
        LinuxCall::Brk { addr: f.rdi }
    } else if nr == MUNMAP || nr == RT_SIGACTION || nr == RT_SIGPROCMASK || nr == FUTEX || nr
        == IOCTL || nr == ACCESS || nr == GETPPID {
        LinuxCall::Answer(0)
    } else if nr == SET_TID_ADDRESS || nr == GETPID {
        LinuxCall::Answer(pid)
    } else if nr == WRITEV {
        LinuxCall::Writev {
            fd: f.rdi,
            iovs: f.rsi,
            count: if f.rdx < 64 {
                f.rdx
            } else {
                64
            },
        }
    } else if nr == NANOSLEEP {
        LinuxCall::Nanosleep { at: f.rdi }
    } else if nr == UNAME {
        LinuxCall::Uname { buf: f.rdi }
    } else if nr == GETCWD {
        LinuxCall::Getcwd { buf: f.rdi, size: f.rsi }
    } else if nr == ARCH_PRCTL {
        if f.rdi == ARCH_SET_FS {
            LinuxCall::SetFs { addr: f.rsi }
        } else if f.rdi == ARCH_GET_FS {
            LinuxCall::GetFs { addr: f.rsi }
        } else {
            LinuxCall::Answer(err(EINVAL))
        }
    } else if nr == CLOCK_GETTIME {
        LinuxCall::ClockGettime { clock: f.rdi, out: f.rsi }
    } else if nr == EXIT_GROUP {
        LinuxCall::Native(Call::Exit { code: f.rdi })
    } else if nr == GETRANDOM {
        LinuxCall::Getrandom { buf: f.rdi, len: f.rsi }
    } else {
        LinuxCall::Answer(err(ENOSYS))
    }
}

/// Decode a Linux call.
pub fn linux_dispatch(f: &SyscallFrame, pid: u64) -> (c: LinuxCall)
    ensures
        c == linux_call(*f, pid),
{
    match f.rax {
        READ | PREAD64 => LinuxCall::Native(Call::Read { fd: f.rdi, buf: f.rsi, len: f.rdx }),
        WRITE => LinuxCall::Native(Call::Write { fd: f.rdi, buf: f.rsi, len: f.rdx }),
        OPEN | OPENAT => if f.rsi == 0 || f.rsi > u64::MAX - 4096 {
            LinuxCall::Answer(err(EFAULT))
        } else {
            LinuxCall::Open { path: f.rsi }
        },
        CLOSE => LinuxCall::Native(Call::Close { fd: f.rdi }),
        FSTAT => if f.rsi > u64::MAX - 144 {
            LinuxCall::Answer(err(EFAULT))
        } else {
            LinuxCall::Fstat { buf: f.rsi }
        },
        LSEEK => LinuxCall::Native(Call::Seek { fd: f.rdi, offset: f.rsi, whence: f.rdx }),
        MMAP => if f.r8 != u64::MAX {
            LinuxCall::Answer(err(ENOMEM))
        } else {
            LinuxCall::Mmap { len: f.rsi }
        },
        BRK => LinuxCall::Brk { addr: f.rdi },
        MUNMAP | RT_SIGACTION | RT_SIGPROCMASK | FUTEX | IOCTL | ACCESS | GETPPID => LinuxCall::Answer(
            0,
        ),
        SET_TID_ADDRESS | GETPID => LinuxCall::Answer(pid),
        WRITEV => LinuxCall::Writev {
            fd: f.rdi,
            iovs: f.rsi,
            count: if f.rdx < 64 {
                f.rdx
            } else {
                64
            },
        },
        NANOSLEEP => LinuxCall::Nanosleep { at: f.rdi },
        UNAME => LinuxCall::Uname { buf: f.rdi },
        GETCWD => LinuxCall::Getcwd { buf: f.rdi, size: f.rsi },
        ARCH_PRCTL => match f.rdi {
            ARCH_SET_FS => LinuxCall::SetFs { addr: f.rsi },
            ARCH_GET_FS => LinuxCall::GetFs { addr: f.rsi },
            _ => LinuxCall::Answer(err(EINVAL)),
        },
        CLOCK_GETTIME => LinuxCall::ClockGettime { clock: f.rdi, out: f.rsi },
        EXIT_GROUP => LinuxCall::Native(Call::Exit { code: f.rdi }),
        GETRANDOM => LinuxCall::Getrandom { buf: f.rdi, len: f.rsi },
        _ => LinuxCall::Answer(err(ENOSYS)),
    }
}

/// The length of the string at the front of `bytes`: a zero byte among the
/// first 4096 ends it. `bytes` ends where the mapped memory does.
pub fn linux_cstr_len(bytes: &[u8]) -> (r: Option<u64>)
    ensures
        match r {
            Some(n) => n < 4096 && n < bytes@.len() && bytes@[n as int] == 0 && forall|k: int|
                0 <= k < n ==> bytes@[k] != 0,
            None => forall|k: int| 0 <= k < bytes@.len() && k < 4096 ==> bytes@[k] != 0,
        },
{
    let mut n: usize = 0;
    while n < bytes.len() && n < 4096
        invariant
            n <= bytes@.len(),
            n <= 4096,
            forall|k: int| 0 <= k < n ==> bytes@[k] != 0,
        decreases 4096 - n,
    {
        if bytes[n] == 0 {
            return Some(n as u64);
        }
        n += 1;
    }
    None
}

/// Zero user memory of which `mapped` says, byte by byte, whether it is there.
/// Where a byte is missing nothing is written.
pub fn linux_zero_user(mapped: &Vec<bool>, mem: &mut [u8]) -> (r: bool)
    requires
        mapped@.len() == old(mem)@.len(),
    ensures
        r == forall|k: int| 0 <= k < mapped@.len() ==> mapped@[k],
        final(mem)@ == if r {
            Seq::new(old(mem)@.len(), |k: int| 0u8)
        } else {
            old(mem)@
        },
{
    let n = mem.len();
    let mut k: usize = 0;
    while k < n
        invariant
            n == mem@.len() == mapped@.len(),
            mem@ == old(mem)@,
            k <= n,
            forall|j: int| 0 <= j < k ==> mapped@[j],
        decreases n - k,
    {
        if !mapped[k] {
            return false;
        }
        k += 1;
    }
    let mut j: usize = 0;
    while j < n
        invariant
            n == mem@.len() == old(mem)@.len(),
            j <= n,
            forall|i: int| 0 <= i < j ==> mem@[i] == 0,
        decreases n - j,
    {
        mem[j] = 0;
        j += 1;
    }
    assert(mem@ =~= Seq::new(old(mem)@.len(), |k: int| 0u8));
    true
}

/// Where record `i` of an I/O vector lies; out of reach where that overflows.
pub fn iov_at(iovs: u64, i: u64) -> (r: u64)
    requires
        i < 64,
    ensures
        r == if iovs + 16 * i > u64::MAX {
            u64::MAX as int
        } else {
            iovs + 16 * i
        },
{
    if iovs > u64::MAX - 16 * i {
        u64::MAX
    } else {
        iovs + 16 * i
    }
}

/// One more part of a vector write: the running total, or the errno that ends
/// it.
pub fn writev_step(total: u64, r: u64) -> (t: Result<u64, u64>)
    requires
        total <= 64 * 4096,
    ensures
        t == if r >= 0x8000_0000_0000_0000 {
            Err::<u64, u64>(r)
        } else {
            Ok((total + r) as u64)
        },
{
    if r >= 0x8000_0000_0000_0000 {
        Err(r)
    } else {
        Ok(total + r)
    }
}

/// Nanoseconds of a time span, at most 2^64 - 1.
pub fn nanosleep_ns(sec: u64, nsec: u64) -> (r: u64)
    ensures
        r == if sec * 1_000_000_000 + nsec > u64::MAX {
            u64::MAX as int
        } else {
            sec * 1_000_000_000 + nsec
        },
{
    if sec > u64::MAX / 1_000_000_000 {
        return u64::MAX;
    }
    let s = sec * 1_000_000_000;
    if nsec > u64::MAX - s {
        u64::MAX
    } else {
        s + nsec
    }
}

/// The bytes of a text.
pub open spec fn text_bytes(s: Seq<char>) -> Seq<u8> {
    vstd::utf8::encode_utf8(s)
}

/// The answer of `uname`: six fields of 65 bytes.
pub open spec fn uname_spec() -> Seq<u8> {
    let z = Seq::new(390, |i: int| 0u8);
    let a = splice(z, 0, text_bytes("OnyxOS"@));
    let b = splice(a, 65, text_bytes("onyx"@));
    let c = splice(b, 130, text_bytes("9.7.0"@));
    let d = splice(c, 195, text_bytes("(none)"@));
    let e = splice(d, 260, text_bytes("x86_64"@));
    splice(e, 325, text_bytes("(none)"@))
}

fn put_field(r: &mut Vec<u8>, at: usize, s: &str)
    requires
        at + 65 <= old(r)@.len(),
        text_bytes(s@).len() <= 65,
    ensures
        final(r)@ == splice(old(r)@, at as int, text_bytes(s@)),
        final(r)@.len() == old(r)@.len(),
{
    let b = s.as_bytes();
    put_bytes(r.as_mut_slice(), at, b);
}

/// The answer of `uname`.
pub fn uname_bytes() -> (r: Vec<u8>)
    ensures
        r@ == uname_spec(),
        r@.len() == 390,
{
    let mut r = zeros(390);
    proof {
        lemma_short_text("OnyxOS"@);
        lemma_short_text("onyx"@);
        lemma_short_text("9.7.0"@);
        lemma_short_text("(none)"@);
        lemma_short_text("x86_64"@);
        reveal_strlit("OnyxOS");
        reveal_strlit("onyx");
        reveal_strlit("9.7.0");
        reveal_strlit("(none)");
        reveal_strlit("x86_64");
    }
    assert(r@ =~= Seq::new(390, |i: int| 0u8));
    put_field(&mut r, 0, "OnyxOS");
    put_field(&mut r, 65, "onyx");
    put_field(&mut r, 130, "9.7.0");
    put_field(&mut r, 195, "(none)");
    put_field(&mut r, 260, "x86_64");
    put_field(&mut r, 325, "(none)");
    r
}

proof fn lemma_short_text(s: Seq<char>)
    ensures
        text_bytes(s).len() <= 4 * s.len(),
    decreases s.len(),
{
    if s.len() > 0 {
        lemma_short_text(s.drop_first());
    }
}

/// `getcwd`: always the root, where the buffer has room for it. Answers the
/// two bytes and their number, or an errno.
pub fn getcwd(size: u64, writable: bool) -> (r: Result<Vec<u8>, u64>)
    ensures
        match r {
            Ok(b) => size >= 2 && writable && b@ == seq![0x2Fu8, 0u8],
            Err(e) => !(size >= 2 && writable) && e == err(EINVAL),
        },
{
    if size >= 2 && writable {
        let b: Vec<u8> = vec![0x2F, 0];
        assert(b@ =~= seq![0x2Fu8, 0u8]);
        Ok(b)
    } else {
        Err(err(EINVAL))
    }
}

/// The time on a clock as seconds and nanoseconds: clock 0 is the wall clock,
/// every other one the monotonic clock.
pub fn clock_gettime(clock: u64, now_ns: u64, realtime_ns: u64) -> (r: (u64, u64))
    ensures
        ({
            let t = if clock == 0 {
                realtime_ns
            } else {
                now_ns
            };
            let ns = if t == u64::MAX {
                0
            } else {
                t
            };
            r == ((ns / 1_000_000_000) as u64, (ns % 1_000_000_000) as u64)
        }),
{
    let t = if clock == 0 {
        realtime_ns
    } else {
        now_ns
    };
    let ns = if t == u64::MAX {
        0
    } else {
        t
    };
    (ns / 1_000_000_000, ns % 1_000_000_000)
}

/// The next state of the random stream.
pub open spec fn rng_next(s: u64) -> u64 {
    let a = s ^ (s << 13);
    let b = a ^ (a >> 7);
    b ^ (b << 17)
}

/// The state after `n` steps.
pub open spec fn rng_after(s: u64, n: int) -> u64
    decreases n,
{
    if n <= 0 {
        s
    } else {
        rng_next(rng_after(s, n - 1))
    }
}

/// `getrandom`: at most 256 bytes of a stream that programs seed their own
/// generators from, and the stream's next state. The bytes are no secret.
pub fn getrandom(state: u64, len: u64, writable: bool) -> (r: Result<(Vec<u8>, u64), u64>)
    ensures
        ({
            let n = if len < 256 {
                len as int
            } else {
                256
            };
            match r {
                Err(e) => (len == 0 || !writable) && e == err(EFAULT),
                Ok((b, next)) => {
                    &&& len > 0 && writable
                    &&& b@ == Seq::new(n as nat, |i: int| (rng_after(state, i + 1) % 256) as u8)
                    &&& next == rng_after(state, n)
                },
            }
        }),
{
    if len == 0 || !writable {
        return Err(err(EFAULT));
    }
    let n: usize = if len < 256 {
        len as usize
    } else {
        256
    };
    let mut s = state;
    let mut b: Vec<u8> = Vec::new();
    let mut i: usize = 0;
    while i < n
        invariant
            i <= n,
            s == rng_after(state, i as int),
            b@.len() == i,
            forall|k: int| 0 <= k < i ==> #[trigger] b@[k] == (rng_after(state, k + 1) % 256) as u8,
        decreases n - i,
    {
        let x = s ^ (s << 13);
        let y = x ^ (x >> 7);
        s = y ^ (y << 17);
        assert(s == rng_after(state, i + 1));
        b.push((s % 256) as u8);
        i += 1;
    }
    assert(b@ =~= Seq::new(n as nat, |i: int| (rng_after(state, i + 1) % 256) as u8));
    Ok((b, s))
}

} // verus!
