//! First-fit free-region allocator: the fallback tier of the heap.
//!
//! It keeps the unused parts of the heap window as a sorted list of
//! disjoint byte ranges ("holes"), serves a request from the first hole
//! that can hold a suitably aligned block, and coalesces ranges with their
//! neighbours when a block is released. In the running kernel the hole
//! list is threaded through the free memory itself; here it is held as
//! plain data so the algorithm can be specified and proved.

use vstd::prelude::*;

verus! {

/// One free byte range `[start, start + size)` of the heap window.
#[derive(Debug, Clone, Copy, PartialEq, Eq, Structural)]
pub struct Hole {
    pub start: u64,
    pub size: u64,
}

/// First byte past the end of a hole.
pub open spec fn hole_end(h: Hole) -> int {
    h.start + h.size
}

/// Well-formed hole list: every hole is non-empty and ends within the
/// address space, and the holes are sorted with a gap between neighbours
/// (adjacent ranges are always coalesced, so no two holes touch).
pub open spec fn wf_holes(s: Seq<Hole>) -> bool {
    &&& forall|i: int| 0 <= i < s.len() ==> (#[trigger] s[i]).size >= 1
    &&& forall|i: int| 0 <= i < s.len() ==> hole_end(#[trigger] s[i]) <= u64::MAX
    &&& forall|i: int, j: int| 0 <= i < j < s.len() ==> hole_end(#[trigger] s[i]) < (#[trigger] s[j]).start
}

/// Total number of free bytes.
pub open spec fn free_bytes(s: Seq<Hole>) -> int
    decreases s.len(),
{
    if s.len() == 0 {
        0
    } else {
        s[0].size + free_bytes(s.drop_first())
    }
}

/// `a` rounded up to the next multiple of `align`.
pub open spec fn align_up(a: int, align: int) -> int {
    if a % align == 0 { a } else { a + align - a % align }
}

/// Whether a block of the given size and alignment can be carved out of
/// the hole.
pub open spec fn hole_fits(h: Hole, size: int, align: int) -> bool {
    align_up(h.start as int, align) + size <= hole_end(h)
}

/// Index of the first hole that can hold the request, if any.
pub open spec fn first_fit(s: Seq<Hole>, size: int, align: int) -> Option<int>
    decreases s.len(),
{
    if s.len() == 0 {
        None
    } else if hole_fits(s[0], size, align) {
        Some(0int)
    } else {
        match first_fit(s.drop_first(), size, align) {
            Some(i) => Some(i + 1),
            None => None,
        }
    }
}

/// Address handed out for the request, if any: the aligned start of the
/// first fitting hole.
pub open spec fn spec_alloc_addr(s: Seq<Hole>, size: int, align: int) -> Option<int> {
    match first_fit(s, size, align) {
        Some(i) => Some(align_up(s[i].start as int, align)),
        None => None,
    }
}

/// What is left of a hole after carving the allocated block out of it:
/// the bytes below the aligned start, and the bytes past the block.
pub open spec fn alloc_pieces(h: Hole, size: int, align: int) -> Seq<Hole> {
    let a = align_up(h.start as int, align);
    let front: Seq<Hole> = if a > h.start {
        seq![(Hole { start: h.start, size: (a - h.start) as u64 })]
    } else {
        Seq::empty()
    };
    let back: Seq<Hole> = if a + size < hole_end(h) {
        seq![(Hole { start: (a + size) as u64, size: (hole_end(h) - a - size) as u64 })]
    } else {
        Seq::empty()
    };
    front + back
}

/// The hole list after serving the request: the first fitting hole is
/// replaced by what is left of it; on failure the list is unchanged.
pub open spec fn spec_alloc_holes(s: Seq<Hole>, size: int, align: int) -> Seq<Hole> {
    match first_fit(s, size, align) {
        Some(i) => s.subrange(0, i) + alloc_pieces(s[i], size, align) + s.subrange(i + 1, s.len() as int),
        None => s,
    }
}

/// Number of holes that start below `start`: where a released range is
/// put back into the sorted list.
pub open spec fn insert_pos(s: Seq<Hole>, start: int) -> int
    decreases s.len(),
{
    if s.len() == 0 {
        0
    } else if s[0].start < start {
        1 + insert_pos(s.drop_first(), start)
    } else {
        0
    }
}

/// The hole list after releasing `[start, start + size)`: the range is
/// inserted in sorted position and merged with a neighbour it touches.
pub open spec fn spec_dealloc_holes(s: Seq<Hole>, start: int, size: int) -> Seq<Hole> {
    let k = insert_pos(s, start);
    let merge_left = k > 0 && hole_end(s[k - 1]) == start;
    let merge_right = k < s.len() && start + size == s[k].start;
    if merge_left && merge_right {
        s.subrange(0, k - 1)
            + seq![(Hole { start: s[k - 1].start, size: (s[k - 1].size + size + s[k].size) as u64 })]
            + s.subrange(k + 1, s.len() as int)
    } else if merge_left {
        s.subrange(0, k - 1)
            + seq![(Hole { start: s[k - 1].start, size: (s[k - 1].size + size) as u64 })]
            + s.subrange(k, s.len() as int)
    } else if merge_right {
        s.subrange(0, k)
            + seq![(Hole { start: start as u64, size: (size + s[k].size) as u64 })]
            + s.subrange(k + 1, s.len() as int)
    } else {
        s.subrange(0, k)
            + seq![(Hole { start: start as u64, size: size as u64 })]
            + s.subrange(k, s.len() as int)
    }
}

/// A released range may not overlap any hole: releasing free memory is a
/// caller error that the allocator does not defend against.
pub open spec fn dealloc_compatible(s: Seq<Hole>, start: int, size: int) -> bool {
    forall|i: int| 0 <= i < s.len()
        ==> start + size <= (#[trigger] s[i]).start || hole_end(s[i]) <= start
}

/// Rounding up to a multiple stays within one `align` of the argument and
/// lands on a multiple of `align`.
pub proof fn lemma_align_up(a: int, align: int)
    requires
        align >= 1,
        a >= 0,
    ensures
        a <= align_up(a, align) < a + align,
        align_up(a, align) % align == 0,
{
    if a % align == 0 {
    } else {
        let q = a / align;
        vstd::arithmetic::div_mod::lemma_fundamental_div_mod(a, align);
        assert(align_up(a, align) == (q + 1) * align) by (nonlinear_arith)
            requires
                a == q * align + a % align,
                a % align != 0,
        ;
        vstd::arithmetic::div_mod::lemma_mod_multiples_basic(q + 1, align);
    }
}

/// The first-fit index is the least index of a fitting hole.
pub proof fn lemma_first_fit(s: Seq<Hole>, size: int, align: int)
    ensures
        first_fit(s, size, align) matches Some(i) ==> 0 <= i < s.len() && hole_fits(s[i], size, align)
            && (forall|j: int| 0 <= j < i ==> !hole_fits(s[j], size, align)),
        first_fit(s, size, align) is None ==> forall|j: int|
            0 <= j < s.len() ==> !hole_fits(s[j], size, align),
    decreases s.len(),
{
    if s.len() == 0 {
    } else if hole_fits(s[0], size, align) {
    } else {
        lemma_first_fit(s.drop_first(), size, align);
        assert(forall|j: int| 1 <= j < s.len() ==> s.drop_first()[j - 1] == s[j]);
    }
}

/// In a well-formed list the insertion point is the boundary between
/// holes below and holes above the released range.
pub proof fn lemma_insert_pos(s: Seq<Hole>, start: int)
    requires
        wf_holes(s),
    ensures
        0 <= insert_pos(s, start) <= s.len(),
        forall|j: int| 0 <= j < insert_pos(s, start) ==> (#[trigger] s[j]).start < start,
        forall|j: int| insert_pos(s, start) <= j < s.len() ==> (#[trigger] s[j]).start >= start,
    decreases s.len(),
{
    if s.len() == 0 {
    } else {
        assert(forall|j: int| 1 <= j < s.len() ==> s.drop_first()[j - 1] == s[j]);
        assert(wf_holes(s.drop_first()));
        lemma_insert_pos(s.drop_first(), start);
        if s[0].start >= start {
            assert forall|j: int| 0 <= j < s.len() implies (#[trigger] s[j]).start >= start by {
                if j > 0 {
                    assert(hole_end(s[0]) < s[j].start);
                    assert(s[0].size >= 1);
                }
            }
        }
    }
}

/// The free byte count is never negative, and bounds each hole's size.
pub proof fn lemma_free_bytes_bounds_each(s: Seq<Hole>)
    ensures
        free_bytes(s) >= 0,
        forall|i: int| 0 <= i < s.len() ==> (#[trigger] s[i]).size <= free_bytes(s),
    decreases s.len(),
{
    if s.len() == 0 {
    } else {
        lemma_free_bytes_bounds_each(s.drop_first());
        assert(forall|i: int| 1 <= i < s.len() ==> s.drop_first()[i - 1] == s[i]);
    }
}

/// Exhaustion is deterministic: a request for more bytes than are free in
/// the whole list fits no hole, so it fails and the hole list is left
/// exactly as it was.
pub proof fn lemma_exhaustion(s: Seq<Hole>, size: int, align: int)
    requires
        align >= 1,
        size > free_bytes(s),
    ensures
        first_fit(s, size, align) is None,
        spec_alloc_holes(s, size, align) == s,
        spec_alloc_addr(s, size, align) is None,
{
    lemma_free_bytes_bounds_each(s);
    lemma_first_fit(s, size, align);
    match first_fit(s, size, align) {
        None => {}
        Some(i) => {
            let h = s[i];
            lemma_align_up(h.start as int, align);
            assert(size <= h.size);
        }
    }
}

/// The fallback allocator: the free regions of the heap window.
pub struct FallbackAllocator {
    holes: Vec<Hole>,
}

impl FallbackAllocator {
    /// The current free ranges, sorted by address.
    pub closed spec fn holes(self) -> Seq<Hole> {
        self.holes@
    }

    /// Create an empty allocator that fails every request until it is
    /// given a heap window.
    pub fn new() -> (r: FallbackAllocator)
        ensures
            r.holes() == Seq::<Hole>::empty(),
    {
        FallbackAllocator { holes: Vec::new() }
    }

    /// Hand the allocator its heap window. Called exactly once, before
    /// any request is served.
    pub fn init(&mut self, heap_start: u64, heap_size: u64)
        requires
            old(self).holes().len() == 0,
            heap_size >= 1,
            heap_start + heap_size <= u64::MAX,
        ensures
            final(self).holes() == seq![(Hole { start: heap_start, size: heap_size })],
            wf_holes(final(self).holes()),
    {
        self.holes.push(Hole { start: heap_start, size: heap_size });
        assert(self.holes@ =~= seq![(Hole { start: heap_start, size: heap_size })]);
    }

    /// Serve a request first-fit: carve an aligned block of `size` bytes
    /// out of the first hole that can hold one, or fail leaving the list
    /// unchanged.
    pub fn allocate_first_fit(&mut self, size: u64, align: u64) -> (r: Option<u64>)
        requires
            wf_holes(old(self).holes()),
            size >= 1,
            align >= 1,
        ensures
            final(self).holes() == spec_alloc_holes(old(self).holes(), size as int, align as int),
            wf_holes(final(self).holes()),
            r matches Some(a) ==> Some(a as int) == spec_alloc_addr(old(self).holes(), size as int, align as int)
                && a % align == 0
                && a + size <= u64::MAX,
            r is None <==> first_fit(old(self).holes(), size as int, align as int) is None,
    {
        let ghost s0 = self.holes@;
        let mut i: usize = 0;
        loop
            invariant
                wf_holes(s0),
                size >= 1,
                align >= 1,
                self.holes@ == s0,
                i <= s0.len(),
                forall|j: int| 0 <= j < i ==> !hole_fits(s0[j], size as int, align as int),
            ensures
                self.holes@ == s0,
                if i < s0.len() {
                    hole_fits(s0[i as int], size as int, align as int)
                        && (forall|j: int| 0 <= j < i ==> !hole_fits(s0[j], size as int, align as int))
                } else {
                    forall|j: int| 0 <= j < s0.len() ==> !hole_fits(s0[j], size as int, align as int)
                },
            decreases s0.len() - i,
        {
            if i >= self.holes.len() {
                break;
            }
            let h = self.holes[i];
            proof {
                lemma_align_up(h.start as int, align as int);
            }
            let rem: u64 = h.start % align;
            let pad: u64 = if rem == 0 { 0 } else { align - rem };
            assert(h.start + pad == align_up(h.start as int, align as int));
            if pad <= h.size && size <= h.size - pad {
                break;
            }
            assert(!hole_fits(s0[i as int], size as int, align as int));
            i = i + 1;
        }
        proof {
            lemma_first_fit(s0, size as int, align as int);
        }
        if i < self.holes.len() {
            assert(first_fit(s0, size as int, align as int) == Some(i as int)) by {
                lemma_first_fit_is(s0, size as int, align as int, i as int);
            }
            let h = self.holes[i];
            proof {
                lemma_align_up(h.start as int, align as int);
            }
            let rem: u64 = h.start % align;
            let pad: u64 = if rem == 0 { 0 } else { align - rem };
            let addr: u64 = h.start + pad;
            // Carve [addr, addr + size) out of hole i.
            if pad == 0 && size == h.size {
                self.holes.remove(i);
            } else if pad == 0 {
                self.holes[i] = Hole { start: h.start + size, size: h.size - size };
            } else if pad + size == h.size {
                self.holes[i] = Hole { start: h.start, size: pad };
            } else {
                self.holes[i] = Hole { start: h.start, size: pad };
                self.holes.insert(i + 1, Hole { start: addr + size, size: h.size - pad - size });
            }
            proof {
                let sf = spec_alloc_holes(s0, size as int, align as int);
                assert(self.holes@ =~= sf);
                lemma_wf_alloc(s0, size as int, align as int);
            }
            Some(addr)
        } else {
            None
        }
    }

    /// Release `[start, start + size)`: insert the range back in sorted
    /// position and coalesce it with any neighbour it touches. The
    /// released range starts at a real block, never at the null
    /// address.
    pub fn deallocate(&mut self, start: u64, size: u64)
        requires
            wf_holes(old(self).holes()),
            size >= 1,
            start >= 1,
            start + size <= u64::MAX,
            dealloc_compatible(old(self).holes(), start as int, size as int),
        ensures
            final(self).holes() == spec_dealloc_holes(old(self).holes(), start as int, size as int),
            wf_holes(final(self).holes()),
    {
        let ghost s0 = self.holes@;
        let mut k: usize = 0;
        loop
            invariant
                self.holes@ == s0,
                k <= s0.len(),
                forall|j: int| 0 <= j < k ==> (#[trigger] s0[j]).start < start,
            ensures
                self.holes@ == s0,
                k <= s0.len(),
                forall|j: int| 0 <= j < k ==> (#[trigger] s0[j]).start < start,
                k == s0.len() || s0[k as int].start >= start,
            decreases s0.len() - k,
        {
            if k >= self.holes.len() {
                break;
            }
            if self.holes[k].start >= start {
                break;
            }
            k = k + 1;
        }
        proof {
            lemma_insert_pos_is(s0, start as int, k as int);
        }
        let merge_left = k > 0 && {
            let prev = self.holes[k - 1];
            prev.start + prev.size == start
        };
        let merge_right = k < self.holes.len() && start + size == self.holes[k].start;
        proof {
            // The range does not overlap hole k - 1 or hole k, so the
            // merged sizes stay within the address space.
            if k > 0 {
                assert(hole_end(s0[k - 1 as int]) <= start);
            }
            if k < s0.len() {
                assert(start + size <= s0[k as int].start);
            }
        }
        if merge_left && merge_right {
            let prev = self.holes[k - 1];
            let next = self.holes[k];
            self.holes[k - 1] = Hole { start: prev.start, size: prev.size + size + next.size };
            self.holes.remove(k);
        } else if merge_left {
            let prev = self.holes[k - 1];
            self.holes[k - 1] = Hole { start: prev.start, size: prev.size + size };
        } else if merge_right {
            let next = self.holes[k];
            self.holes[k] = Hole { start, size: size + next.size };
        } else {
            self.holes.insert(k, Hole { start, size });
        }
        proof {
            let sf = spec_dealloc_holes(s0, start as int, size as int);
            assert(self.holes@ =~= sf);
            lemma_wf_dealloc(s0, start as int, size as int);
        }
    }
}

/// A scan that stopped at the first fitting hole found the first-fit
/// index.
proof fn lemma_first_fit_is(s: Seq<Hole>, size: int, align: int, i: int)
    requires
        0 <= i < s.len(),
        hole_fits(s[i], size, align),
        forall|j: int| 0 <= j < i ==> !hole_fits(s[j], size, align),
    ensures
        first_fit(s, size, align) == Some(i),
    decreases s.len(),
{
    if i == 0 {
    } else {
        assert(forall|j: int| 1 <= j < s.len() ==> s.drop_first()[j - 1] == s[j]);
        lemma_first_fit_is(s.drop_first(), size, align, i - 1);
    }
}

/// A scan that stopped at the first hole at or above `start` found the
/// insertion point.
proof fn lemma_insert_pos_is(s: Seq<Hole>, start: int, k: int)
    requires
        0 <= k <= s.len(),
        forall|j: int| 0 <= j < k ==> (#[trigger] s[j]).start < start,
        k == s.len() || s[k].start >= start,
    ensures
        insert_pos(s, start) == k,
    decreases s.len(),
{
    if k == 0 {
    } else {
        assert(forall|j: int| 1 <= j < s.len() ==> s.drop_first()[j - 1] == s[j]);
        lemma_insert_pos_is(s.drop_first(), start, k - 1);
    }
}

/// Serving a request keeps the hole list well formed.
proof fn lemma_wf_alloc(s: Seq<Hole>, size: int, align: int)
    requires
        wf_holes(s),
        size >= 1,
        align >= 1,
    ensures
        wf_holes(spec_alloc_holes(s, size, align)),
{
    lemma_first_fit(s, size, align);
    match first_fit(s, size, align) {
        None => {}
        Some(i) => {
            lemma_align_up(s[i].start as int, align);
            let sf = spec_alloc_holes(s, size, align);
            let pieces = alloc_pieces(s[i], size, align);
            assert forall|x: int, y: int| 0 <= x < y < sf.len() implies hole_end(sf[x]) < sf[y].start by {
                lemma_alloc_piece_in_hole(s[i], size, align);
            }
            assert forall|x: int| 0 <= x < sf.len() implies (#[trigger] sf[x]).size >= 1
                && hole_end(sf[x]) <= u64::MAX by {
                lemma_alloc_piece_in_hole(s[i], size, align);
            }
        }
    }
}

/// Both leftover pieces of a carved hole are non-empty subranges of it,
/// in order.
proof fn lemma_alloc_piece_in_hole(h: Hole, size: int, align: int)
    requires
        hole_fits(h, size, align),
        hole_end(h) <= u64::MAX,
        size >= 1,
        align >= 1,
    ensures
        forall|x: int| 0 <= x < alloc_pieces(h, size, align).len()
            ==> h.start <= (#[trigger] alloc_pieces(h, size, align)[x]).start
                && hole_end(alloc_pieces(h, size, align)[x]) <= hole_end(h)
                && alloc_pieces(h, size, align)[x].size >= 1,
        forall|x: int, y: int| 0 <= x < y < alloc_pieces(h, size, align).len()
            ==> hole_end(#[trigger] alloc_pieces(h, size, align)[x])
                < (#[trigger] alloc_pieces(h, size, align)[y]).start,
{
    lemma_align_up(h.start as int, align);
}

/// Releasing a compatible range keeps the hole list well formed.
#[verifier::rlimit(50)]
proof fn lemma_wf_dealloc(s: Seq<Hole>, start: int, size: int)
    requires
        wf_holes(s),
        size >= 1,
        0 <= start,
        start + size <= u64::MAX,
        dealloc_compatible(s, start, size),
    ensures
        wf_holes(spec_dealloc_holes(s, start, size)),
{
    lemma_insert_pos(s, start);
    let k = insert_pos(s, start);
    let sf = spec_dealloc_holes(s, start, size);
    let merge_left = k > 0 && hole_end(s[k - 1]) == start;
    let merge_right = k < s.len() && start + size == s[k].start;
    if k > 0 {
        // The range overlaps no hole and hole k - 1 starts below it.
        assert(hole_end(s[k - 1]) <= start);
    }
    if k < s.len() {
        assert(start + size <= s[k].start);
    }
    if merge_left && merge_right {
        assert(sf.len() == s.len() - 1);
        assert(forall|x: int| 0 <= x < k - 1 ==> sf[x] == s[x]);
        assert(sf[k - 1] == (Hole {
            start: s[k - 1].start,
            size: (s[k - 1].size + size + s[k].size) as u64,
        }));
        assert(forall|x: int| k <= x < sf.len() ==> sf[x] == s[x + 1]);
        assert(hole_end(sf[k - 1]) == hole_end(s[k]));
        assert forall|x: int, y: int| 0 <= x < y < sf.len() implies hole_end(#[trigger] sf[x])
            < (#[trigger] sf[y]).start by {}
    } else if merge_left {
        assert(sf.len() == s.len());
        assert(forall|x: int| 0 <= x < k - 1 ==> sf[x] == s[x]);
        assert(sf[k - 1] == (Hole { start: s[k - 1].start, size: (s[k - 1].size + size) as u64 }));
        assert(forall|x: int| k <= x < sf.len() ==> sf[x] == s[x]);
        assert(hole_end(sf[k - 1]) == start + size);
        assert(k < s.len() ==> start + size < s[k].start);
        assert forall|x: int, y: int| 0 <= x < y < sf.len() implies hole_end(#[trigger] sf[x])
            < (#[trigger] sf[y]).start by {}
    } else if merge_right {
        assert(sf.len() == s.len());
        assert(forall|x: int| 0 <= x < k ==> sf[x] == s[x]);
        assert(sf[k] == (Hole { start: start as u64, size: (size + s[k].size) as u64 }));
        assert(forall|x: int| k < x < sf.len() ==> sf[x] == s[x]);
        assert(hole_end(sf[k]) == hole_end(s[k]));
        assert(k > 0 ==> hole_end(s[k - 1]) < start);
        assert forall|x: int, y: int| 0 <= x < y < sf.len() implies hole_end(#[trigger] sf[x])
            < (#[trigger] sf[y]).start by {}
    } else {
        assert(sf.len() == s.len() + 1);
        assert(forall|x: int| 0 <= x < k ==> sf[x] == s[x]);
        assert(sf[k] == (Hole { start: start as u64, size: size as u64 }));
        assert(forall|x: int| k < x < sf.len() ==> sf[x] == s[x - 1]);
        assert(k > 0 ==> hole_end(s[k - 1]) < start);
        assert(k < s.len() ==> start + size < s[k].start);
        assert forall|x: int, y: int| 0 <= x < y < sf.len() implies hole_end(#[trigger] sf[x])
            < (#[trigger] sf[y]).start by {}
    }
}

} // verus!
