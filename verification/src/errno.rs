//! Linux errno values for syscall error returns.
//!
//! A failing syscall returns `-errno` in the result register as a
//! two's-complement number; success returns a small non-negative value, so a
//! caller tests `(ret as i64) < 0`.
use vstd::prelude::*;

verus! {

/// Operation not permitted.
pub const EPERM: u64 = 1;
/// No such file or directory.
pub const ENOENT: u64 = 2;
/// No such process.
pub const ESRCH: u64 = 3;
/// I/O error.
pub const EIO: u64 = 5;
/// Argument list too long (oversized spawn images).
pub const E2BIG: u64 = 7;
/// Exec format error.
pub const ENOEXEC: u64 = 8;
/// Bad file descriptor.
pub const EBADF: u64 = 9;
/// No child process.
pub const ECHILD: u64 = 10;
/// Resource temporarily unavailable.
pub const EAGAIN: u64 = 11;
/// Out of memory.
pub const ENOMEM: u64 = 12;
/// Bad address.
pub const EFAULT: u64 = 14;
/// File exists.
pub const EEXIST: u64 = 17;
/// Is a directory.
pub const EISDIR: u64 = 21;
/// Invalid argument.
pub const EINVAL: u64 = 22;
/// Too many open files.
pub const EMFILE: u64 = 24;
/// No space left on device.
pub const ENOSPC: u64 = 28;
/// File name too long.
pub const ENAMETOOLONG: u64 = 36;
/// Invalid syscall number.
pub const ENOSYS: u64 = 38;

/// The two's-complement negation of `e` in 64 bits.
pub open spec fn err_spec(e: u64) -> u64 {
    if e == 0 { 0 } else { (0x1_0000_0000_0000_0000 - e) as u64 }
}

/// A return value that user space reads as an error: its sign bit is set.
pub open spec fn is_error(ret: u64) -> bool {
    ret >= 0x8000_0000_0000_0000
}

/// Encode an errno for a syscall return: `-errno`.
#[verifier::when_used_as_spec(err_spec)]
pub fn err(e: u64) -> (r: u64)
    ensures
        r == err_spec(e),
{
    0u64.wrapping_sub(e)
}

/// Every errno in the table encodes to a value that reads as an error, and two
/// different errnos never share an encoding.
pub proof fn law_err_is_error_and_injective(a: u64, b: u64)
    requires
        0 < a <= 4095,
        0 < b <= 4095,
    ensures
        is_error(err_spec(a)),
        err_spec(a) == err_spec(b) ==> a == b,
{
}

} // verus!
