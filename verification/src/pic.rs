//! The legacy interrupt controllers: which lines are masked.
use vstd::prelude::*;

verus! {

pub const PIC_1_OFFSET: u8 = 0x20;
pub const PIC_2_OFFSET: u8 = 0x28;

/// Line `irq` is masked: its bit is set in the mask of its controller.
pub open spec fn masked(m: (u8, u8), irq: u8) -> bool {
    if irq < 8 {
        m.0 & (1u8 << irq) != 0
    } else {
        m.1 & (1u8 << ((irq - 8) as u8)) != 0
    }
}

proof fn lemma_bits(x: u8, i: u8, j: u8)
    requires
        i < 8,
        j < 8,
    ensures
        (x & !(1u8 << i)) & (1u8 << i) == 0,
        (x | (1u8 << i)) & (1u8 << i) != 0,
        i != j ==> (x & !(1u8 << i)) & (1u8 << j) == x & (1u8 << j),
        i != j ==> (x | (1u8 << i)) & (1u8 << j) == x & (1u8 << j),
{
    assert((x & !(1u8 << i)) & (1u8 << i) == 0) by (bit_vector);
    assert((x | (1u8 << i)) & (1u8 << i) != 0) by (bit_vector)
        requires
            i < 8,
    ;
    assert(i != j ==> (x & !(1u8 << i)) & (1u8 << j) == x & (1u8 << j)) by (bit_vector)
        requires
            i < 8,
            j < 8,
    ;
    assert(i != j ==> (x | (1u8 << i)) & (1u8 << j) == x & (1u8 << j)) by (bit_vector)
        requires
            i < 8,
            j < 8,
    ;
}

/// The masks with one line unmasked.
pub fn enable_irq(m: (u8, u8), irq: u8) -> (r: (u8, u8))
    requires
        irq < 16,
    ensures
        !masked(r, irq),
        forall|j: u8| j < 16 && j != irq ==> #[trigger] masked(r, j) == masked(m, j),
{
    let r = if irq < 8 {
        (m.0 & !(1u8 << irq), m.1)
    } else {
        (m.0, m.1 & !(1u8 << (irq - 8)))
    };
    proof {
        let i = if irq < 8 {
            irq
        } else {
            (irq - 8) as u8
        };
        let x = if irq < 8 {
            m.0
        } else {
            m.1
        };
        lemma_bits(x, i, i);
        assert forall|j: u8| j < 16 && j != irq implies #[trigger] masked(r, j) == masked(m, j) by {
            let k = if j < 8 {
                j
            } else {
                (j - 8) as u8
            };
            lemma_bits(x, i, k);
        }
    }
    r
}

/// The masks with one line masked.
pub fn disable_irq(m: (u8, u8), irq: u8) -> (r: (u8, u8))
    requires
        irq < 16,
    ensures
        masked(r, irq),
        forall|j: u8| j < 16 && j != irq ==> #[trigger] masked(r, j) == masked(m, j),
{
    let r = if irq < 8 {
        (m.0 | (1u8 << irq), m.1)
    } else {
        (m.0, m.1 | (1u8 << (irq - 8)))
    };
    proof {
        let i = if irq < 8 {
            irq
        } else {
            (irq - 8) as u8
        };
        let x = if irq < 8 {
            m.0
        } else {
            m.1
        };
        lemma_bits(x, i, i);
        assert forall|j: u8| j < 16 && j != irq implies #[trigger] masked(r, j) == masked(m, j) by {
            let k = if j < 8 {
                j
            } else {
                (j - 8) as u8
            };
            lemma_bits(x, i, k);
        }
    }
    r
}

/// The masks with every line masked.
pub fn mask_all() -> (r: (u8, u8))
    ensures
        r == (0xFFu8, 0xFFu8),
        forall|j: u8| j < 16 ==> #[trigger] masked(r, j),
{
    let r = (0xFFu8, 0xFFu8);
    proof {
        assert forall|j: u8| j < 16 implies #[trigger] masked(r, j) by {
            let k = if j < 8 {
                j
            } else {
                (j - 8) as u8
            };
            assert(0xFFu8 & (1u8 << k) != 0) by (bit_vector)
                requires
                    k < 8,
            ;
        }
    }
    r
}

} // verus!
