//! Kernel heap initialisation: carve the fixed virtual heap window out
//! of the address space by mapping every one of its pages to a fresh
//! physical frame, then hand the window to the block allocator.

use vstd::prelude::*;
use crate::memory::BootInfoFrameAllocator;
use crate::memory::PAGE_SIZE;
use crate::memory::usable_frames;
use crate::paging::PageTables;
use crate::paging::MapToError;
use crate::paging::TranslateResult;
use crate::paging::VIRT_LIMIT;
use crate::paging::ENTRY_PRESENT;
use crate::paging::ENTRY_WRITABLE;
use crate::paging::spec_translate;
use crate::paging::spec_leaf_entry;
use crate::paging::page_base;
use crate::paging::frames_fresh;
use crate::fixed_size_block::FixedSizeBlockAllocator;
use crate::fallback::Hole;

verus! {

/// First virtual address of the kernel heap.
pub const HEAP_START: u64 = 0x4444_4444_0000;

/// Size of the kernel heap in bytes.
pub const HEAP_SIZE: u64 = 10240;

/// Information about the kernel heap, returned once after a successful
/// initialisation, purely for diagnostic reporting.
#[derive(Debug, Clone, Copy, PartialEq, Eq, Structural)]
pub struct HeapInfo {
    /// First virtual address of the heap window.
    pub start_virt_addr: u64,
    /// The physical frame backing the window's first page.
    pub start_phys_addr: u64,
    /// Size of the heap window in bytes.
    pub size: u64,
}

/// What a successful initialisation did to the tree: the three pages of
/// the window are mapped, present and writable, to three distinct
/// frames the allocator supplied — the `n0`-th, `k1`-th and `k2`-th
/// usable frames of the map, where `n0` was the allocator's cursor.
pub open spec fn heap_pages_backed(
    mapper: PageTables,
    uf: Seq<u64>,
    n0: int,
    k1: int,
    k2: int,
) -> bool {
    &&& n0 < k1 < k2 < uf.len()
    &&& uf[n0] != uf[k1] && uf[n0] != uf[k2] && uf[k1] != uf[k2]
    &&& (forall|va: u64| page_base(va) == HEAP_START
        ==> #[trigger] spec_translate(mapper, va)
            == TranslateResult::Mapped((uf[n0] + crate::paging::page_offset(va)) as u64)
            && spec_leaf_entry(mapper, va) == Some(uf[n0] | ENTRY_PRESENT | ENTRY_WRITABLE))
    &&& (forall|va: u64| page_base(va) == (HEAP_START + PAGE_SIZE) as u64
        ==> #[trigger] spec_translate(mapper, va)
            == TranslateResult::Mapped((uf[k1] + crate::paging::page_offset(va)) as u64)
            && spec_leaf_entry(mapper, va) == Some(uf[k1] | ENTRY_PRESENT | ENTRY_WRITABLE))
    &&& (forall|va: u64| page_base(va) == (HEAP_START + 2 * PAGE_SIZE) as u64
        ==> #[trigger] spec_translate(mapper, va)
            == TranslateResult::Mapped((uf[k2] + crate::paging::page_offset(va)) as u64)
            && spec_leaf_entry(mapper, va) == Some(uf[k2] | ENTRY_PRESENT | ENTRY_WRITABLE))
}

/// Allocate a frame for one heap page and map the page to it, returning
/// the frame.
fn map_heap_page(
    pt: &mut PageTables,
    fa: &mut BootInfoFrameAllocator,
    page: u64,
) -> (r: Result<u64, MapToError>)
    requires
        old(pt).wf(),
        old(fa).wf(),
        old(fa).next() + 8 < usize::MAX,
        frames_fresh(*old(fa), old(pt).tables_view()),
        page as int % (PAGE_SIZE as int) == 0,
        page < VIRT_LIMIT,
    ensures
        final(pt).wf(),
        final(pt).root == old(pt).root,
        final(fa).wf(),
        final(fa).map() == old(fa).map(),
        old(fa).next() <= final(fa).next() <= old(fa).next() + 4,
        frames_fresh(*final(fa), final(pt).tables_view()),
        r matches Ok(f) ==> ({
            &&& old(fa).next() < usable_frames(old(fa).map()).len()
            &&& old(fa).next() < final(fa).next()
            &&& f == usable_frames(old(fa).map())[old(fa).next()]
            &&& (forall|va: u64| page_base(va) == page
                ==> #[trigger] spec_translate(*final(pt), va)
                    == TranslateResult::Mapped((f + crate::paging::page_offset(va)) as u64)
                    && spec_leaf_entry(*final(pt), va) == Some(f | ENTRY_PRESENT | ENTRY_WRITABLE))
        }),
        r is Ok ==> forall|va: u64| va < VIRT_LIMIT && page_base(va) != page
            ==> #[trigger] spec_translate(*final(pt), va) == spec_translate(*old(pt), va),
        r is Err ==> forall|va: u64| #[trigger] spec_translate(*final(pt), va)
            == spec_translate(*old(pt), va),
        forall|va: u64| spec_translate(*old(pt), va) is Mapped
            ==> #[trigger] spec_translate(*final(pt), va) == spec_translate(*old(pt), va)
                && spec_leaf_entry(*final(pt), va) == spec_leaf_entry(*old(pt), va),
        r is Ok ==> spec_translate(*old(pt), page) == TranslateResult::NotMapped,
        (spec_translate(*old(pt), page) == TranslateResult::NotMapped
            && old(fa).remaining_frames().len() >= 4) ==> r is Ok,
        (spec_translate(*old(pt), page) is Mapped && old(fa).remaining_frames().len() >= 1)
            ==> r == Err::<u64, MapToError>(MapToError::PageAlreadyMapped),
{
    let frame = match fa.allocate_frame() {
        None => {
            return Err(MapToError::FrameAllocationFailed);
        }
        Some(f) => f,
    };
    proof {
        let rem0 = old(fa).remaining_frames();
        assert(rem0.len() > 0 && frame == rem0[0]);
        assert(fa.remaining_frames() =~= rem0.skip(1));
        assert forall|k: int| 0 <= k < fa.remaining_frames().len()
            implies crate::paging::frame_untracked(
                old(pt).tables_view(), #[trigger] fa.remaining_frames()[k]) by {
            assert(fa.remaining_frames()[k] == rem0[k + 1]);
            assert(crate::paging::frame_untracked(old(pt).tables_view(), rem0[k + 1]));
        }
    }
    let r = pt.map_to(page, frame, fa);
    proof {
        if spec_translate(*old(pt), page) == TranslateResult::NotMapped
            && old(fa).remaining_frames().len() >= 4 {
            crate::paging::lemma_outcome_of_unmapped(
                *old(pt), page, old(fa).remaining_frames().len() - 1);
        }
        if r is Ok {
            crate::paging::lemma_outcome_ok_unmapped(
                *old(pt), page, old(fa).remaining_frames().len() - 1);
        }
        if spec_translate(*old(pt), page) is Mapped {
            crate::paging::lemma_outcome_of_already_mapped(
                *old(pt), page, old(fa).remaining_frames().len() - 1);
        }
    }
    match r {
        Ok(()) => Ok(frame),
        Err(e) => Err(e),
    }
}

/// Initialise the kernel heap: map every page of the fixed window
/// `[HEAP_START, HEAP_START + HEAP_SIZE)` to a fresh frame, then hand
/// the window to the block allocator.
///
/// The window spans three pages; each is mapped in turn, present and
/// writable, to a distinct frame from the allocator. The first failure
/// is returned at once, leaving pages already mapped in place (failure
/// is fatal to startup, so no rollback is attempted) and the block
/// allocator untouched. On success every address of the window
/// translates to a physical address, the block allocator owns exactly
/// the window, and the returned descriptor names the window and the
/// frame backing its first page.
pub fn init_heap(
    mapper: &mut PageTables,
    frame_allocator: &mut BootInfoFrameAllocator,
    allocator: &mut FixedSizeBlockAllocator,
) -> (r: Result<HeapInfo, MapToError>)
    requires
        old(mapper).wf(),
        old(frame_allocator).wf(),
        old(frame_allocator).next() + 16 < usize::MAX,
        frames_fresh(*old(frame_allocator), old(mapper).tables_view()),
        old(allocator).wf(),
        old(allocator).state().holes.len() == 0,
    ensures
        final(mapper).wf(),
        final(mapper).root == old(mapper).root,
        final(frame_allocator).wf(),
        final(frame_allocator).map() == old(frame_allocator).map(),
        old(frame_allocator).next() <= final(frame_allocator).next()
            <= old(frame_allocator).next() + 12,
        frames_fresh(*final(frame_allocator), final(mapper).tables_view()),
        final(allocator).wf(),
        // The descriptor: the window and the frame under its first page.
        r matches Ok(hi) ==> ({
            &&& hi.start_virt_addr == HEAP_START
            &&& hi.size == HEAP_SIZE
            &&& old(frame_allocator).next() < usable_frames(old(frame_allocator).map()).len()
            &&& hi.start_phys_addr == usable_frames(
                old(frame_allocator).map())[old(frame_allocator).next()]
        }),
        // Mapping completeness: the whole window translates.
        r is Ok ==> forall|va: u64| HEAP_START <= va < HEAP_START + HEAP_SIZE
            ==> #[trigger] spec_translate(*final(mapper), va) is Mapped,
        // The pages are backed by three distinct fresh frames, present
        // and writable.
        r is Ok ==> exists|k1: int, k2: int| #[trigger] heap_pages_backed(
            *final(mapper),
            usable_frames(old(frame_allocator).map()),
            old(frame_allocator).next(),
            k1,
            k2,
        ),
        // The block allocator is initialised exactly once, with the
        // window, on success only.
        r is Ok ==> final(allocator).state().holes
            == seq![(Hole { start: HEAP_START, size: HEAP_SIZE })],
        r is Ok ==> final(allocator).state().lists == old(allocator).state().lists,
        r is Err ==> *final(allocator) == *old(allocator),
        // No mapping is ever undone: what translated before still
        // translates to the same address, on success and on failure
        // alike (no rollback).
        forall|va: u64| spec_translate(*old(mapper), va) is Mapped
            ==> #[trigger] spec_translate(*final(mapper), va) == spec_translate(*old(mapper), va),
        // Nothing outside the window's pages changes even on failure.
        r is Err ==> forall|va: u64|
            va < VIRT_LIMIT && !(HEAP_START <= page_base(va) < HEAP_START + 3 * PAGE_SIZE)
            ==> #[trigger] spec_translate(*final(mapper), va) == spec_translate(*old(mapper), va),
        // Success comes only for a window that was wholly unmapped.
        r is Ok ==> forall|va: u64| HEAP_START <= va < HEAP_START + HEAP_SIZE
            ==> #[trigger] spec_translate(*old(mapper), va) == TranslateResult::NotMapped,
        // Success is owed when the window is unmapped and frames
        // suffice; a window page already mapped is reported as such.
        ((forall|va: u64| HEAP_START <= va < HEAP_START + HEAP_SIZE
            ==> #[trigger] spec_translate(*old(mapper), va) == TranslateResult::NotMapped)
            && old(frame_allocator).remaining_frames().len() >= 12) ==> r is Ok,
        (old(frame_allocator).remaining_frames().len() >= 12
            && (forall|va: u64| HEAP_START <= va < HEAP_START + HEAP_SIZE
                ==> #[trigger] spec_translate(*old(mapper), va) != TranslateResult::Unsupported)
            && (exists|va: u64| HEAP_START <= va < HEAP_START + HEAP_SIZE
                && #[trigger] spec_translate(*old(mapper), va) is Mapped))
            ==> r == Err::<HeapInfo, MapToError>(MapToError::PageAlreadyMapped),
{
    proof {
        // The fixed window covers exactly three pages.
        assert(2 * PAGE_SIZE < HEAP_SIZE <= 3 * PAGE_SIZE);
        assert(HEAP_START as int % (PAGE_SIZE as int) == 0
            && (HEAP_START + PAGE_SIZE) as int % (PAGE_SIZE as int) == 0
            && (HEAP_START + 2 * PAGE_SIZE) as int % (PAGE_SIZE as int) == 0) by (bit_vector);
        assert(page_base(HEAP_START) == HEAP_START
            && page_base((HEAP_START + PAGE_SIZE) as u64) == HEAP_START + PAGE_SIZE
            && page_base((HEAP_START + 2 * PAGE_SIZE) as u64) == HEAP_START + 2 * PAGE_SIZE)
            by (bit_vector);
    }
    let p0: u64 = HEAP_START;
    let p1: u64 = HEAP_START + PAGE_SIZE;
    let p2: u64 = HEAP_START + 2 * PAGE_SIZE;
    let ghost s0 = *mapper;
    let ghost uf = usable_frames(old(frame_allocator).map());
    let ghost n0 = old(frame_allocator).next();
    let ghost rem0 = old(frame_allocator).remaining_frames();
    let f0 = match map_heap_page(mapper, frame_allocator, p0) {
        Ok(f) => f,
        Err(e) => {
            proof {
                assert(HEAP_START <= p0 < HEAP_START + HEAP_SIZE);
                if rem0.len() >= 12 {
                    // With frames in hand, failing means the first page
                    // was not free.
                    assert(spec_translate(s0, p0) != TranslateResult::NotMapped);
                    if spec_translate(s0, p0) is Mapped {
                        assert(e == MapToError::PageAlreadyMapped);
                    }
                }
            }
            return Err(e);
        }
    };
    let ghost s1 = *mapper;
    let ghost fa1 = *frame_allocator;
    let ghost k1 = frame_allocator.next();
    let f1 = match map_heap_page(mapper, frame_allocator, p1) {
        Ok(f) => f,
        Err(e) => {
            proof {
                assert(HEAP_START <= p1 < HEAP_START + HEAP_SIZE);
                assert(spec_translate(s1, p1) == spec_translate(s0, p1));
                if rem0.len() >= 12 {
                    assert(fa1.remaining_frames().len() >= 8) by {
                        assert(rem0 == uf.skip(n0));
                        assert(fa1.remaining_frames() == uf.skip(fa1.next()));
                    }
                    assert(spec_translate(s0, p1) != TranslateResult::NotMapped);
                    if spec_translate(s0, p1) is Mapped {
                        assert(e == MapToError::PageAlreadyMapped);
                    }
                }
                assert forall|va: u64| spec_translate(s0, va) is Mapped
                    implies #[trigger] spec_translate(*mapper, va) == spec_translate(s0, va) by {
                    assert(spec_translate(s1, va) == spec_translate(s0, va));
                }
                assert forall|va: u64| va < VIRT_LIMIT
                    && !(HEAP_START <= page_base(va) < HEAP_START + 3 * PAGE_SIZE)
                    implies #[trigger] spec_translate(*mapper, va) == spec_translate(s0, va) by {
                    assert(page_base(va) != p0);
                    assert(spec_translate(s1, va) == spec_translate(s0, va));
                }
            }
            return Err(e);
        }
    };
    let ghost s2 = *mapper;
    let ghost fa2 = *frame_allocator;
    let ghost k2 = frame_allocator.next();
    let f2 = match map_heap_page(mapper, frame_allocator, p2) {
        Ok(f) => f,
        Err(e) => {
            proof {
                assert(HEAP_START <= p2 < HEAP_START + HEAP_SIZE);
                assert(spec_translate(s2, p2) == spec_translate(s1, p2));
                assert(spec_translate(s1, p2) == spec_translate(s0, p2));
                if rem0.len() >= 12 {
                    assert(fa2.remaining_frames().len() >= 4) by {
                        assert(rem0 == uf.skip(n0));
                        assert(fa2.remaining_frames() == uf.skip(fa2.next()));
                    }
                    assert(spec_translate(s0, p2) != TranslateResult::NotMapped);
                    if spec_translate(s0, p2) is Mapped {
                        assert(e == MapToError::PageAlreadyMapped);
                    }
                }
                assert forall|va: u64| spec_translate(s0, va) is Mapped
                    implies #[trigger] spec_translate(*mapper, va) == spec_translate(s0, va) by {
                    assert(spec_translate(s1, va) == spec_translate(s0, va));
                    assert(spec_translate(s2, va) == spec_translate(s1, va));
                }
                assert forall|va: u64| va < VIRT_LIMIT
                    && !(HEAP_START <= page_base(va) < HEAP_START + 3 * PAGE_SIZE)
                    implies #[trigger] spec_translate(*mapper, va) == spec_translate(s0, va) by {
                    assert(page_base(va) != p0 && page_base(va) != p1);
                    assert(spec_translate(s1, va) == spec_translate(s0, va));
                    assert(spec_translate(s2, va) == spec_translate(s1, va));
                }
            }
            return Err(e);
        }
    };
    allocator.init(HEAP_START, HEAP_SIZE);
    proof {
        let sf = *mapper;
        // The three pages were unmapped beforehand, so the whole window
        // was, and the already-mapped cause cannot have arisen.
        assert(spec_translate(s1, p1) == spec_translate(s0, p1));
        assert(spec_translate(s2, p2) == spec_translate(s1, p2));
        assert forall|va: u64| HEAP_START <= va < HEAP_START + HEAP_SIZE
            implies #[trigger] spec_translate(s0, va) == TranslateResult::NotMapped by {
            lemma_window_membership(va);
            let p = page_base(va);
            crate::paging::lemma_same_page_indices(va, p);
            crate::paging::lemma_walk_same_indices(s0.tables_view(), s0.root, va, p, 4);
        }
        // Every window address now translates to its page's frame.
        assert forall|va: u64| HEAP_START <= va < HEAP_START + HEAP_SIZE
            implies #[trigger] spec_translate(sf, va) is Mapped by {
            lemma_window_membership(va);
        }
        // The backing frames: the cursor's frame and two later ones,
        // pairwise distinct because the allocator never repeats itself.
        assert(f0 == uf[n0]);
        assert(f1 == uf[k1] && n0 < k1 < uf.len());
        assert(f2 == uf[k2] && k1 < k2 < uf.len());
        assert(uf[n0] != uf[k1] && uf[n0] != uf[k2] && uf[k1] != uf[k2]) by {
            let rem0 = old(frame_allocator).remaining_frames();
            assert(rem0 == uf.skip(n0));
            assert(rem0[0] == uf[n0] && rem0[k1 - n0] == uf[k1] && rem0[k2 - n0] == uf[k2]);
        }
        assert forall|va: u64| page_base(va) == p0
            implies #[trigger] spec_translate(sf, va)
                == TranslateResult::Mapped((f0 + crate::paging::page_offset(va)) as u64)
                && spec_leaf_entry(sf, va) == Some(f0 | ENTRY_PRESENT | ENTRY_WRITABLE) by {
            assert(va < VIRT_LIMIT && page_base(va) != p1 && page_base(va) != p2) by (bit_vector)
                requires
                    va & 0xffff_ffff_ffff_f000 == p0,
                    p0 == 0x4444_4444_0000u64,
                    p1 == 0x4444_4444_1000u64,
                    p2 == 0x4444_4444_2000u64,
                    VIRT_LIMIT == 0x8000_0000_0000u64,
            ;
            assert(spec_translate(s1, va) is Mapped);
            assert(spec_translate(s2, va) is Mapped);
        }
        assert forall|va: u64| page_base(va) == p1
            implies #[trigger] spec_translate(sf, va)
                == TranslateResult::Mapped((f1 + crate::paging::page_offset(va)) as u64)
                && spec_leaf_entry(sf, va) == Some(f1 | ENTRY_PRESENT | ENTRY_WRITABLE) by {
            assert(va < VIRT_LIMIT && page_base(va) != p2) by (bit_vector)
                requires
                    va & 0xffff_ffff_ffff_f000 == p1,
                    p1 == 0x4444_4444_1000u64,
                    p2 == 0x4444_4444_2000u64,
                    VIRT_LIMIT == 0x8000_0000_0000u64,
            ;
            assert(spec_translate(s2, va) is Mapped);
        }
        assert(heap_pages_backed(sf, uf, n0, k1, k2));
        // Nothing mapped before has moved.
        assert forall|va: u64| spec_translate(s0, va) is Mapped
            implies #[trigger] spec_translate(sf, va) == spec_translate(s0, va) by {
            assert(spec_translate(s1, va) == spec_translate(s0, va));
            assert(spec_translate(s2, va) == spec_translate(s1, va));
        }
    }
    Ok(HeapInfo { start_virt_addr: HEAP_START, start_phys_addr: f0, size: HEAP_SIZE })
}

/// A window address belongs to one of the window's three pages.
proof fn lemma_window_membership(va: u64)
    requires
        HEAP_START <= va < HEAP_START + HEAP_SIZE,
    ensures
        va < VIRT_LIMIT,
        page_base(va) == HEAP_START
            || page_base(va) == (HEAP_START + PAGE_SIZE) as u64
            || page_base(va) == (HEAP_START + 2 * PAGE_SIZE) as u64,
{
    assert(va < VIRT_LIMIT && (va & 0xffff_ffff_ffff_f000 == HEAP_START
        || va & 0xffff_ffff_ffff_f000 == HEAP_START + 4096
        || va & 0xffff_ffff_ffff_f000 == HEAP_START + 8192)) by (bit_vector)
        requires
            HEAP_START == 0x4444_4444_0000u64,
            HEAP_SIZE == 10240u64,
            VIRT_LIMIT == 0x8000_0000_0000u64,
            HEAP_START <= va < HEAP_START + HEAP_SIZE,
    ;
}

} // verus!
