//! The kernel-service lock's bookkeeping: who holds it and how often it was
//! taken. The lock is not reentrant.
use vstd::prelude::*;

verus! {

/// Nobody holds the lock.
pub const FREE: usize = usize::MAX;

/// The lock's state.
#[derive(Clone, Copy, Debug, PartialEq, Eq, Structural)]
pub struct Ksl {
    pub holder: usize,
    pub count: u64,
}

/// The state after CPU `me` took the lock.
pub open spec fn taken(k: Ksl, me: usize) -> Ksl {
    Ksl { holder: me, count: ((k.count + 1) % 0x1_0000_0000_0000_0000) as u64 }
}

/// The state after CPU `me` has released the lock. Another CPU may have taken
/// it since: its mark stays.
pub open spec fn released(k: Ksl, me: usize) -> Ksl {
    if k.holder == me {
        Ksl { holder: FREE, ..k }
    } else {
        k
    }
}

/// Note that CPU `me` took the lock, which it did not hold. Returns whether
/// interrupts are to be turned on again on release.
pub fn lock(k: &mut Ksl, me: usize, interrupts_on: bool) -> (r: bool)
    requires
        old(k).holder != me,
        me != FREE,
    ensures
        *final(k) == taken(*old(k), me),
        r == interrupts_on,
{
    k.holder = me;
    k.count = k.count.wrapping_add(1);
    interrupts_on
}

/// Note that CPU `me` has released the lock.
pub fn unlock(k: &mut Ksl, me: usize)
    ensures
        *final(k) == released(*old(k), me),
{
    if k.holder == me {
        k.holder = FREE;
    }
}

/// Does CPU `me` hold the lock?
pub fn held_by_this_cpu(k: &Ksl, me: usize) -> (r: bool)
    ensures
        r == (k.holder == me),
{
    k.holder == me
}

/// How often the lock was taken.
pub fn acquisitions(k: &Ksl) -> (r: u64)
    ensures
        r == k.count,
{
    k.count
}

/// From the moment it takes the lock until it releases it, a CPU is the holder
/// and no other is, also where the CPU that had the lock before is still at
/// its release. After its own release it is not.
pub proof fn law_one_holder(k: Ksl, me: usize, other: usize)
    requires
        me != FREE,
        other != me,
    ensures
        taken(k, me).holder == me,
        taken(k, me).holder != other,
        released(taken(k, me), other) == taken(k, me),
        released(taken(k, me), me).holder == FREE,
        released(released(taken(k, me), other), me).holder == FREE,
{
}

} // verus!
