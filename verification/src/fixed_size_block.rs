//! The fixed-size-block layer of the heap allocator: a bounded table of
//! power-of-two size classes, one free list per class, backed by the
//! first-fit fallback allocator for requests that fit no class.
//!
//! In the running kernel each free list is threaded through the freed
//! blocks themselves; here a class's free list is held as the sequence of
//! free block addresses, newest (the list head) first.

use vstd::prelude::*;
use crate::fallback::FallbackAllocator;
use crate::fallback::Hole;

verus! {

/// Number of block size classes.
pub const BLOCK_COUNT: usize = 9;

/// Size in bytes of the given block size class.
///
/// Each size is a power of two, so that a block of a class is aligned at
/// least as strictly as any request binned into it.
pub open spec fn spec_block_size(i: int) -> int {
    if i == 0 { 8 }
    else if i == 1 { 16 }
    else if i == 2 { 32 }
    else if i == 3 { 64 }
    else if i == 4 { 128 }
    else if i == 5 { 256 }
    else if i == 6 { 512 }
    else if i == 7 { 1024 }
    else { 2048 }
}

/// Size in bytes of the given block size class.
pub fn block_size(i: usize) -> (s: usize)
    requires
        i < BLOCK_COUNT,
    ensures
        s == spec_block_size(i as int),
{
    if i == 0 { 8 }
    else if i == 1 { 16 }
    else if i == 2 { 32 }
    else if i == 3 { 64 }
    else if i == 4 { 128 }
    else if i == 5 { 256 }
    else if i == 6 { 512 }
    else if i == 7 { 1024 }
    else { 2048 }
}

/// The size a request must be binned by: the larger of its size and its
/// alignment.
pub open spec fn required_size(size: int, align: int) -> int {
    if size >= align { size } else { align }
}

/// The class a request is binned into: the first class at least as large
/// as the required size, or none when the request exceeds every class.
pub open spec fn spec_list_index(size: int, align: int) -> Option<int> {
    let req = required_size(size, align);
    if req <= 8 { Some(0int) }
    else if req <= 16 { Some(1int) }
    else if req <= 32 { Some(2int) }
    else if req <= 64 { Some(3int) }
    else if req <= 128 { Some(4int) }
    else if req <= 256 { Some(5int) }
    else if req <= 512 { Some(6int) }
    else if req <= 1024 { Some(7int) }
    else if req <= 2048 { Some(8int) }
    else { None }
}

/// Get the index of the block size class that a request of the given size
/// and alignment should fit in.
///
/// Bins the request into the first class whose block size is at least the
/// larger of the request's size and alignment.
pub fn list_index(size: usize, align: usize) -> (r: Option<usize>)
    ensures
        r matches Some(i) ==> Some(i as int) == spec_list_index(size as int, align as int),
        r is None <==> spec_list_index(size as int, align as int) is None,
{
    let req: usize = if size >= align { size } else { align };
    if req <= 8 { Some(0) }
    else if req <= 16 { Some(1) }
    else if req <= 32 { Some(2) }
    else if req <= 64 { Some(3) }
    else if req <= 128 { Some(4) }
    else if req <= 256 { Some(5) }
    else if req <= 512 { Some(6) }
    else if req <= 1024 { Some(7) }
    else if req <= 2048 { Some(8) }
    else { None }
}

/// Class selection is sound and minimal: a selected class holds the
/// request, no smaller class does, and only requests beyond the largest
/// class are left to the fallback allocator.
pub proof fn lemma_class_selection(size: int, align: int)
    ensures
        required_size(size, align) <= 2048 ==> (spec_list_index(size, align) matches Some(i)
            && 0 <= i < BLOCK_COUNT
            && spec_block_size(i) >= required_size(size, align)
            && (forall|j: int| 0 <= j < i ==> spec_block_size(j) < required_size(size, align))),
        required_size(size, align) > 2048 ==> spec_list_index(size, align) is None,
{
}

/// Whether `a` is a power of two.
pub open spec fn is_power_of_two(a: int) -> bool
    decreases a,
{
    if a <= 0 {
        false
    } else if a == 1 {
        true
    } else {
        a % 2 == 0 && is_power_of_two(a / 2)
    }
}

/// The class table is a strictly increasing sequence of powers of two,
/// which is what makes minimal-class selection and the fallback cutoff
/// well defined.
pub proof fn lemma_block_sizes_increasing()
    ensures
        forall|i: int, j: int| 0 <= i < j < BLOCK_COUNT
            ==> spec_block_size(i) < spec_block_size(j),
        forall|i: int| 0 <= i < BLOCK_COUNT ==> is_power_of_two(#[trigger] spec_block_size(i)),
{
    reveal_with_fuel(is_power_of_two, 13);
    assert forall|i: int| 0 <= i < BLOCK_COUNT implies is_power_of_two(#[trigger] spec_block_size(i)) by {
        reveal_with_fuel(is_power_of_two, 13);
    }
}

/// Size in bytes of a free-list node: one pointer to the next free block.
pub const FREE_NODE_SIZE: usize = 8;

/// Alignment of a free-list node.
pub const FREE_NODE_ALIGN: usize = 8;

/// Every class can host a free-list node in its freed blocks: each block
/// is at least as large as a node and aligned at least as strictly.
/// A class table violating this would be a fatal configuration error;
/// this is the once-for-all check.
pub proof fn lemma_class_holds_free_node()
    ensures
        forall|i: int| 0 <= i < BLOCK_COUNT
            ==> #[trigger] spec_block_size(i) >= FREE_NODE_SIZE
                && spec_block_size(i) >= FREE_NODE_ALIGN,
{
}

/// Ghost state of the block allocator: one free list per class (the last
/// element of a list is its head, the most recently freed block) and the
/// fallback allocator's free ranges.
pub ghost struct BlockState {
    pub lists: Seq<Seq<u64>>,
    pub holes: Seq<Hole>,
}

/// State and result of serving an allocation request.
///
/// A request that fits a class is served from that class's free list
/// when one is available; otherwise a fresh block of exactly the class's
/// size and alignment is taken from the fallback allocator. A request
/// beyond every class goes to the fallback allocator as it is.
pub open spec fn spec_allocate(s: BlockState, size: int, align: int) -> (Option<int>, BlockState) {
    match spec_list_index(size, align) {
        Some(i) => {
            if s.lists[i].len() > 0 {
                (
                    Some(s.lists[i].last() as int),
                    BlockState { lists: s.lists.update(i, s.lists[i].drop_last()), holes: s.holes },
                )
            } else {
                let bs = spec_block_size(i);
                (
                    crate::fallback::spec_alloc_addr(s.holes, bs, bs),
                    BlockState { lists: s.lists, holes: crate::fallback::spec_alloc_holes(s.holes, bs, bs) },
                )
            }
        }
        None => (
            crate::fallback::spec_alloc_addr(s.holes, size, align),
            BlockState { lists: s.lists, holes: crate::fallback::spec_alloc_holes(s.holes, size, align) },
        ),
    }
}

/// State after releasing a block: a block of some class becomes the new
/// head of that class's free list (it is never returned to the fallback
/// allocator), while a block beyond every class goes back to the
/// fallback allocator.
pub open spec fn spec_deallocate(s: BlockState, ptr: int, size: int, align: int) -> BlockState {
    match spec_list_index(size, align) {
        Some(i) => BlockState { lists: s.lists.update(i, s.lists[i].push(ptr as u64)), holes: s.holes },
        None => BlockState { lists: s.lists, holes: crate::fallback::spec_dealloc_holes(s.holes, ptr, size) },
    }
}

/// The fixed-size-block allocator: a free list of same-sized blocks per
/// size class, over the first-fit fallback allocator.
pub struct FixedSizeBlockAllocator {
    list_heads: Vec<Vec<u64>>,
    fallback_allocator: FallbackAllocator,
}

impl FixedSizeBlockAllocator {
    /// The free lists, one per class; the last element of a list is the
    /// class's head.
    pub closed spec fn lists(self) -> Seq<Seq<u64>> {
        Seq::new(BLOCK_COUNT as nat, |i: int| self.list_heads@[i]@)
    }

    /// The fallback allocator's free ranges.
    pub closed spec fn fallback_holes(self) -> Seq<Hole> {
        self.fallback_allocator.holes()
    }

    /// The allocator's whole ghost state.
    pub open spec fn state(self) -> BlockState {
        BlockState { lists: self.lists(), holes: self.fallback_holes() }
    }

    /// Well-formed allocator: one free list per class, and a well-formed
    /// fallback hole list.
    pub closed spec fn wf(self) -> bool {
        &&& self.list_heads@.len() == BLOCK_COUNT
        &&& crate::fallback::wf_holes(self.fallback_allocator.holes())
    }

    /// Create a new empty block allocator: every free list empty, and no
    /// heap window yet, so every request fails until `init` is called.
    pub fn new() -> (r: FixedSizeBlockAllocator)
        ensures
            r.wf(),
            r.state().lists == Seq::new(BLOCK_COUNT as nat, |i: int| Seq::<u64>::empty()),
            r.state().holes == Seq::<Hole>::empty(),
    {
        let mut heads: Vec<Vec<u64>> = Vec::new();
        let mut i: usize = 0;
        while i < BLOCK_COUNT
            invariant
                i <= BLOCK_COUNT,
                heads@.len() == i,
                forall|j: int| 0 <= j < i ==> (#[trigger] heads@[j])@.len() == 0,
            decreases BLOCK_COUNT - i,
        {
            heads.push(Vec::new());
            i = i + 1;
        }
        let r = FixedSizeBlockAllocator { list_heads: heads, fallback_allocator: FallbackAllocator::new() };
        proof {
            assert(r.lists() =~~= Seq::new(BLOCK_COUNT as nat, |i: int| Seq::<u64>::empty()));
        }
        r
    }

    /// Hand the allocator its heap window `[heap_start, heap_start +
    /// heap_size)`. The caller guarantees the window is valid, unused and
    /// exclusively owned; called exactly once, before any request.
    pub fn init(&mut self, heap_start: u64, heap_size: u64)
        requires
            old(self).wf(),
            old(self).state().holes.len() == 0,
            heap_size >= 1,
            heap_start + heap_size <= u64::MAX,
        ensures
            final(self).wf(),
            final(self).state().holes == seq![(Hole { start: heap_start, size: heap_size })],
            final(self).state().lists == old(self).state().lists,
    {
        self.fallback_allocator.init(heap_start, heap_size);
    }

    /// Allocate a block for a request of the given size and alignment,
    /// returning its address, or `None` when the heap is exhausted.
    pub fn allocate(&mut self, size: usize, align: usize) -> (r: Option<u64>)
        requires
            old(self).wf(),
            size >= 1,
            align >= 1,
        ensures
            final(self).wf(),
            final(self).state() == spec_allocate(old(self).state(), size as int, align as int).1,
            (r matches Some(a) ==> Some(a as int) == spec_allocate(
                old(self).state(), size as int, align as int).0),
            (r is None <==> spec_allocate(old(self).state(), size as int, align as int).0 is None),
            r matches Some(a) ==> {
                match spec_list_index(size as int, align as int) {
                    Some(i) => old(self).state().lists[i].len() == 0
                        ==> a % (spec_block_size(i) as u64) == 0,
                    None => a % (align as u64) == 0,
                }
            },
    {
        match list_index(size, align) {
            Some(index) => {
                if self.list_heads[index].len() > 0 {
                    // Pop the class's head node and hand its block out.
                    let node = self.list_heads[index].pop().unwrap();
                    proof {
                        assert(final(self).lists() =~~= old(self).lists().update(
                            index as int, old(self).lists()[index as int].drop_last()));
                    }
                    Some(node)
                } else {
                    // The free list is empty: grow the class with a fresh
                    // block of exactly the class's size and alignment from
                    // the fallback allocator.
                    let bs = block_size(index);
                    let r = self.fallback_alloc(bs as u64, bs as u64);
                    proof {
                        assert(final(self).lists() =~~= old(self).lists());
                    }
                    r
                }
            }
            None => {
                // The request exceeds every class: first-fit as it is.
                let r = self.fallback_alloc(size as u64, align as u64);
                proof {
                    assert(final(self).lists() =~~= old(self).lists());
                }
                r
            }
        }
    }

    /// Allocate using the fallback allocator.
    fn fallback_alloc(&mut self, size: u64, align: u64) -> (r: Option<u64>)
        requires
            crate::fallback::wf_holes(old(self).fallback_allocator.holes()),
            size >= 1,
            align >= 1,
        ensures
            final(self).list_heads == old(self).list_heads,
            final(self).fallback_allocator.holes() == crate::fallback::spec_alloc_holes(
                old(self).fallback_allocator.holes(), size as int, align as int),
            crate::fallback::wf_holes(final(self).fallback_allocator.holes()),
            (r matches Some(a) ==> Some(a as int) == crate::fallback::spec_alloc_addr(
                old(self).fallback_allocator.holes(), size as int, align as int)
                && a % align == 0),
            (r is None <==> crate::fallback::first_fit(
                old(self).fallback_allocator.holes(), size as int, align as int) is None),
    {
        self.fallback_allocator.allocate_first_fit(size, align)
    }

    /// Release the block at `ptr` that was allocated with the given size
    /// and alignment. The caller must pass the exact size and alignment
    /// used at allocation time: the same class is recomputed from them,
    /// and a mismatch is a caller error the allocator does not detect.
    /// On the fallback path a null pointer is excluded outright, as the
    /// kernel's release path rejects it.
    pub fn deallocate(&mut self, ptr: u64, size: usize, align: usize)
        requires
            old(self).wf(),
            size >= 1,
            align >= 1,
            spec_list_index(size as int, align as int) is None ==> {
                &&& ptr >= 1
                &&& ptr + size <= u64::MAX
                &&& crate::fallback::dealloc_compatible(
                    old(self).state().holes, ptr as int, size as int)
            },
        ensures
            final(self).wf(),
            final(self).state() == spec_deallocate(
                old(self).state(), ptr as int, size as int, align as int),
    {
        match list_index(size, align) {
            Some(index) => {
                // The freed block becomes the new head of its class's
                // free list. Every class block can host the list node:
                // see `lemma_class_holds_free_node`.
                self.list_heads[index].push(ptr);
                proof {
                    assert(final(self).lists() =~~= old(self).lists().update(
                        index as int, old(self).lists()[index as int].push(ptr)));
                }
            }
            None => {
                self.fallback_allocator.deallocate(ptr, size as u64);
                proof {
                    assert(final(self).lists() =~~= old(self).lists());
                }
            }
        }
    }
}

/// Freeing a class block and allocating from the same class again
/// returns the same address and restores the allocator's state: the
/// freed block is reused before the fallback allocator is touched.
pub proof fn lemma_reuse_after_free(
    s: BlockState,
    ptr: u64,
    size1: int,
    align1: int,
    size2: int,
    align2: int,
)
    requires
        0 <= spec_list_index(size1, align1)->Some_0 < s.lists.len(),
        spec_list_index(size1, align1) is Some,
        spec_list_index(size1, align1) == spec_list_index(size2, align2),
    ensures
        spec_allocate(spec_deallocate(s, ptr as int, size1, align1), size2, align2).0
            == Some(ptr as int),
        spec_allocate(spec_deallocate(s, ptr as int, size1, align1), size2, align2).1.holes
            == s.holes,
        spec_allocate(spec_deallocate(s, ptr as int, size1, align1), size2, align2).1.lists
            =~~= s.lists,
{
    let i = spec_list_index(size1, align1)->Some_0;
    let s1 = spec_deallocate(s, ptr as int, size1, align1);
    assert(s1.lists[i] == s.lists[i].push(ptr));
    assert(s1.lists[i].last() == ptr);
    assert(s1.lists[i].drop_last() =~~= s.lists[i]);
}

/// A request routed to the fallback allocator and larger than all its
/// free bytes together fails, and leaves the allocator's state exactly
/// as it was: exhaustion mutates nothing.
pub proof fn lemma_block_exhaustion(s: BlockState, size: int, align: int)
    requires
        size >= 1,
        align >= 1,
        match spec_list_index(size, align) {
            Some(i) => s.lists[i].len() == 0
                && spec_block_size(i) > crate::fallback::free_bytes(s.holes),
            None => size > crate::fallback::free_bytes(s.holes),
        },
    ensures
        spec_allocate(s, size, align).0 is None,
        spec_allocate(s, size, align).1 == s,
{
    match spec_list_index(size, align) {
        Some(i) => {
            crate::fallback::lemma_exhaustion(s.holes, spec_block_size(i), spec_block_size(i));
        }
        None => {
            crate::fallback::lemma_exhaustion(s.holes, size, align);
        }
    }
    assert(spec_allocate(s, size, align).1.lists == s.lists);
    assert(spec_allocate(s, size, align).1 == s);
}

} // verus!
