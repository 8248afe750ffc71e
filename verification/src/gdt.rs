//! Segment selectors: the order of the descriptors fixes them on every CPU.
use vstd::prelude::*;

verus! {

/// Bytes of a double-fault stack.
pub const DOUBLE_FAULT_STACK_SIZE: usize = 16384;
/// Slot of the interrupt stack table that double faults use.
pub const DOUBLE_FAULT_IST_INDEX: u16 = 0;

/// The selectors of the kernel's and the user's segments.
#[derive(Clone, Copy, PartialEq, Eq, Debug)]
pub struct Selectors {
    pub code_selector: u16,
    pub data_selector: u16,
    pub user_data_selector: u16,
    pub user_code_selector: u16,
    pub tss_selector: u16,
}

/// The selector of the descriptor in slot `index`, at privilege level `rpl`.
pub open spec fn selector(index: int, rpl: int) -> int {
    index * 8 + rpl
}

/// The selectors of the table null, kernel code, kernel data, task state (two
/// slots), user data, user code. `sysret` takes the user segments from a base:
/// data at base + 8, code at base + 16, both at level 3.
pub fn selectors() -> (r: Selectors)
    ensures
        r.code_selector == selector(1, 0),
        r.data_selector == selector(2, 0),
        r.tss_selector == selector(3, 0),
        r.user_data_selector == selector(5, 3),
        r.user_code_selector == selector(6, 3),
        r.user_code_selector == r.user_data_selector + 8,
{
    Selectors {
        code_selector: 0x08,
        data_selector: 0x10,
        tss_selector: 0x18,
        user_data_selector: 0x2B,
        user_code_selector: 0x33,
    }
}

} // verus!
