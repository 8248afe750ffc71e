//! The kernel heap: where it lies and how full it is.
use linked_list_allocator::Heap;
use vstd::prelude::*;

verus! {

/// Where the heap starts.
pub const HEAP_START: u64 = 0x4444_4444_0000;
/// Bytes of the heap.
pub const HEAP_SIZE: u64 = 0x100_0000;

/// `linked_list_allocator::Heap`: the allocator behind the heap.
#[verifier::external_type_specification]
#[verifier::external_body]
pub struct ExHeap(Heap);

/// Bytes that allocations use.
pub uninterp spec fn heap_used(h: Heap) -> usize;

/// Bytes that the heap manages. The call that hands the heap its memory
/// decides them; nothing is said of them here.
pub uninterp spec fn heap_size(h: Heap) -> usize;

/// `Heap::used`: the bytes in use.
pub assume_specification [Heap::used] (h: &Heap) -> (r: usize)
    ensures
        r == heap_used(*h),
;

/// `Heap::free`: the bytes managed, as `Heap::size` has them, less those in use.
pub assume_specification [Heap::free] (h: &Heap) -> (r: usize)
    ensures
        r == heap_size(*h) - heap_used(*h),
;

/// Bytes used and free, together the bytes that the heap manages.
pub fn heap_stats(h: &Heap) -> (r: (usize, usize))
    ensures
        r.0 == heap_used(*h),
        r.0 + r.1 == heap_size(*h),
{
    (h.used(), h.free())
}

/// Pages of the heap.
pub fn heap_pages() -> (r: u64)
    ensures
        r * 4096 == HEAP_SIZE,
{
    HEAP_SIZE / 4096
}

/// The address of heap page `i`.
pub fn heap_page(i: u64) -> (r: u64)
    requires
        i < HEAP_SIZE / 4096,
    ensures
        r == HEAP_START + 4096 * i,
        HEAP_START <= r,
        r + 4096 <= HEAP_START + HEAP_SIZE,
{
    HEAP_START + 4096 * i
}

} // verus!
