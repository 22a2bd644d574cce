//! Physical frame allocation from the firmware memory map.
//!
//! The firmware hands the kernel an ordered list of physical memory
//! regions, each flagged usable or not. The frame allocator lazily
//! enumerates the 4096-byte frames of the usable regions in order and
//! hands out the next one on every call; frames are never taken back.

use vstd::prelude::*;

verus! {

/// Size in bytes of a physical frame and of a virtual page.
pub const PAGE_SIZE: u64 = 4096;

/// One byte past the highest physical address the model admits: frame
/// addresses fit in the 52 address bits of a page-table entry.
pub const PHYS_LIMIT: u64 = 0x0010_0000_0000_0000;

/// One region of the firmware memory map: the physical byte range
/// `[start, end)` and whether the firmware flags it usable.
#[derive(Debug, Clone, Copy, PartialEq, Eq, Structural)]
pub struct MemoryRegion {
    pub start: u64,
    pub end: u64,
    pub usable: bool,
}

/// A region the firmware may hand over: frame-aligned on both ends and
/// within the physical address space.
pub open spec fn wf_region(r: MemoryRegion) -> bool {
    &&& r.start as int % (PAGE_SIZE as int) == 0
    &&& r.end as int % (PAGE_SIZE as int) == 0
    &&& r.start <= r.end
    &&& r.end <= PHYS_LIMIT
}

/// A well-formed memory map: every region is well formed. Overlap of
/// usable regions is not checked here; the allocator trusts the
/// firmware's flags completely.
pub open spec fn wf_map(s: Seq<MemoryRegion>) -> bool {
    forall|i: int| 0 <= i < s.len() ==> wf_region(#[trigger] s[i])
}

/// The frames of one region: every 4096th address of a usable region,
/// nothing of an unusable one.
pub open spec fn region_frames(r: MemoryRegion) -> Seq<u64> {
    if r.usable {
        Seq::new(((r.end - r.start) / (PAGE_SIZE as int)) as nat, |i: int| (r.start + (PAGE_SIZE as int) * i) as u64)
    } else {
        Seq::empty()
    }
}

/// All usable frames of the map, in map order.
pub open spec fn usable_frames(s: Seq<MemoryRegion>) -> Seq<u64>
    decreases s.len(),
{
    if s.len() == 0 {
        Seq::empty()
    } else {
        region_frames(s[0]) + usable_frames(s.drop_first())
    }
}

/// Splitting the map splits its usable frames.
pub proof fn lemma_usable_frames_decompose(s: Seq<MemoryRegion>, i: int)
    requires
        0 <= i <= s.len(),
    ensures
        usable_frames(s) == usable_frames(s.take(i)) + usable_frames(s.skip(i)),
    decreases i,
{
    if i == 0 {
        assert(s.take(0) =~= Seq::<MemoryRegion>::empty());
        assert(s.skip(0) =~= s);
        assert(usable_frames(s) =~= usable_frames(s.take(0)) + usable_frames(s.skip(0)));
    } else {
        lemma_usable_frames_decompose(s.drop_first(), i - 1);
        assert(s.take(i)[0] == s[0]);
        assert(s.take(i).drop_first() =~= s.drop_first().take(i - 1));
        assert(s.skip(i) =~= s.drop_first().skip(i - 1));
        assert(usable_frames(s.take(i)) == region_frames(s[0]) + usable_frames(s.drop_first().take(i - 1)));
        assert(usable_frames(s) =~= usable_frames(s.take(i)) + usable_frames(s.skip(i)));
    }
}

/// The frames of the tail of the map, starting at region `i`.
pub proof fn lemma_usable_frames_skip_step(s: Seq<MemoryRegion>, i: int)
    requires
        0 <= i < s.len(),
    ensures
        usable_frames(s.skip(i)) == region_frames(s[i]) + usable_frames(s.skip(i + 1)),
{
    assert(s.skip(i).len() > 0);
    assert(s.skip(i)[0] == s[i]);
    assert(s.skip(i).drop_first() =~= s.skip(i + 1));
}

/// In a well-formed region the byte range is an exact number of frames.
pub proof fn lemma_region_frame_count(r: MemoryRegion)
    requires
        wf_region(r),
    ensures
        (PAGE_SIZE as int) * ((r.end - r.start) / (PAGE_SIZE as int)) == r.end - r.start,
        r.usable ==> forall|k: int| 0 <= k < region_frames(r).len()
            ==> r.start <= #[trigger] region_frames(r)[k] && region_frames(r)[k] + PAGE_SIZE <= r.end,
{
    let d = PAGE_SIZE as int;
    let len = r.end - r.start;
    vstd::arithmetic::div_mod::lemma_sub_mod_noop(r.end as int, r.start as int, d);
    vstd::arithmetic::div_mod::lemma_small_mod(0, d as nat);
    assert(len % d == 0);
    vstd::arithmetic::div_mod::lemma_fundamental_div_mod(len, d);
    assert(d * (len / d) == len);
    if r.usable {
        assert forall|k: int| 0 <= k < region_frames(r).len()
            implies r.start <= #[trigger] region_frames(r)[k]
                && region_frames(r)[k] + PAGE_SIZE <= r.end by {
            assert(d * k + d <= d * (len / d)) by (nonlinear_arith)
                requires
                    0 <= k < len / d,
                    d > 0,
            ;
        }
    }
}

/// Every usable frame lies in some usable region of the map.
pub open spec fn in_usable_region(s: Seq<MemoryRegion>, a: u64) -> bool {
    exists|i: int| 0 <= i < s.len() && (#[trigger] s[i]).usable && s[i].start <= a && a + PAGE_SIZE <= s[i].end
}

proof fn lemma_frames_in_regions(s: Seq<MemoryRegion>, k: int)
    requires
        wf_map(s),
        0 <= k < usable_frames(s).len(),
    ensures
        in_usable_region(s, usable_frames(s)[k]),
    decreases s.len(),
{
    let head = region_frames(s[0]);
    if k < head.len() {
        lemma_region_frame_count(s[0]);
        assert(s[0].usable && s[0].start <= head[k] && head[k] + PAGE_SIZE <= s[0].end);
    } else {
        assert(wf_map(s.drop_first())) by {
            assert(forall|j: int| 0 <= j < s.drop_first().len() ==> s.drop_first()[j] == s[j + 1]);
        }
        lemma_frames_in_regions(s.drop_first(), k - head.len());
        let a = usable_frames(s)[k];
        assert(a == usable_frames(s.drop_first())[k - head.len()]);
        let i = choose|i: int| 0 <= i < s.drop_first().len() && (#[trigger] s.drop_first()[i]).usable
            && s.drop_first()[i].start <= a && a + PAGE_SIZE <= s.drop_first()[i].end;
        assert(s[i + 1] == s.drop_first()[i]);
    }
}

/// Every usable frame is frame-aligned and lies inside the physical
/// address space.
pub proof fn lemma_usable_frames_aligned(s: Seq<MemoryRegion>, k: int)
    requires
        wf_map(s),
        0 <= k < usable_frames(s).len(),
    ensures
        usable_frames(s)[k] as int % (PAGE_SIZE as int) == 0,
        usable_frames(s)[k] + PAGE_SIZE <= PHYS_LIMIT,
    decreases s.len(),
{
    let head = region_frames(s[0]);
    let d = PAGE_SIZE as int;
    if k < head.len() {
        lemma_region_frame_count(s[0]);
        let f = head[k];
        assert(f == s[0].start + d * k);
        vstd::arithmetic::div_mod::lemma_mod_multiples_vanish(k, s[0].start as int, d);
        assert((d * k + s[0].start) % d == s[0].start as int % d);
    } else {
        assert(wf_map(s.drop_first())) by {
            assert(forall|j: int| 0 <= j < s.drop_first().len() ==> s.drop_first()[j] == s[j + 1]);
        }
        lemma_usable_frames_aligned(s.drop_first(), k - head.len());
        assert(usable_frames(s)[k] == usable_frames(s.drop_first())[k - head.len()]);
    }
}

/// Whether the usable parts of the map are pairwise disjoint. The
/// firmware promises this; the allocator does not check it.
pub open spec fn disjoint_usable(s: Seq<MemoryRegion>) -> bool {
    forall|i: int, j: int| 0 <= i < j < s.len() && (#[trigger] s[i]).usable && (#[trigger] s[j]).usable
        ==> s[i].end <= s[j].start || s[j].end <= s[i].start
}

/// Frame uniqueness: over a well-formed map whose usable regions do not
/// overlap, no frame is enumerated twice, so successive allocations all
/// return distinct addresses.
pub proof fn lemma_usable_frames_distinct(s: Seq<MemoryRegion>, k: int, l: int)
    requires
        wf_map(s),
        disjoint_usable(s),
        0 <= k < l < usable_frames(s).len(),
    ensures
        usable_frames(s)[k] != usable_frames(s)[l],
    decreases s.len(),
{
    let head = region_frames(s[0]);
    let d = PAGE_SIZE as int;
    if l < head.len() {
        // Both in the first region: distinct strides.
        assert(d * k < d * l) by (nonlinear_arith)
            requires
                0 <= k < l,
                d > 0,
        ;
    } else if k >= head.len() {
        assert(wf_map(s.drop_first()) && disjoint_usable(s.drop_first())) by {
            assert(forall|j: int| 0 <= j < s.drop_first().len() ==> s.drop_first()[j] == s[j + 1]);
        }
        lemma_usable_frames_distinct(s.drop_first(), k - head.len(), l - head.len());
    } else {
        // One frame from the first region, one from a later usable
        // region; the regions do not overlap.
        lemma_region_frame_count(s[0]);
        assert(wf_map(s.drop_first())) by {
            assert(forall|j: int| 0 <= j < s.drop_first().len() ==> s.drop_first()[j] == s[j + 1]);
        }
        lemma_frames_in_regions(s.drop_first(), l - head.len());
        let a = usable_frames(s)[l];
        assert(a == usable_frames(s.drop_first())[l - head.len()]);
        let i = choose|i: int| 0 <= i < s.drop_first().len() && (#[trigger] s.drop_first()[i]).usable
            && s.drop_first()[i].start <= a && a + PAGE_SIZE <= s.drop_first()[i].end;
        assert(s[i + 1] == s.drop_first()[i]);
        assert(s[0].usable);
        assert(s[0].end <= s[i + 1].start || s[i + 1].end <= s[0].start);
    }
}

/// A frame allocator over the firmware memory map: hands out the usable
/// frames in map order, one per call, and never reuses one.
pub struct BootInfoFrameAllocator {
    memory_map: Vec<MemoryRegion>,
    next: usize,
}

impl BootInfoFrameAllocator {
    /// The memory map the allocator draws from.
    pub closed spec fn map(self) -> Seq<MemoryRegion> {
        self.memory_map@
    }

    /// How many usable frames have been handed out.
    pub closed spec fn next(self) -> int {
        self.next as int
    }

    /// The frames this allocator will still hand out, in order.
    pub open spec fn remaining_frames(self) -> Seq<u64> {
        if self.next() <= usable_frames(self.map()).len() {
            usable_frames(self.map()).skip(self.next())
        } else {
            Seq::empty()
        }
    }

    /// Well-formed allocator: a well-formed map and a cursor that has
    /// only ever been advanced.
    pub open spec fn wf(self) -> bool {
        &&& wf_map(self.map())
        &&& self.next() >= 0
    }

    /// Initialise the allocator from the firmware memory map. The caller
    /// guarantees the map is the firmware's: usable flags are trusted,
    /// and usable regions are really unused.
    pub fn init(memory_map: Vec<MemoryRegion>) -> (r: BootInfoFrameAllocator)
        requires
            wf_map(memory_map@),
        ensures
            r.wf(),
            r.map() == memory_map@,
            r.next() == 0,
    {
        BootInfoFrameAllocator { memory_map, next: 0 }
    }

    /// Enumerate every usable frame of the map, in order. This
    /// materialises the whole sequence and serves diagnostics and tests;
    /// `allocate_frame` finds its frame arithmetically instead.
    pub fn useable_frames(&self) -> (r: Vec<u64>)
        requires
            self.wf(),
        ensures
            r@ == usable_frames(self.map()),
    {
        let s = self.memory_map.len();
        let mut out: Vec<u64> = Vec::new();
        let mut i: usize = 0;
        while i < s
            invariant
                self.wf(),
                s == self.map().len(),
                i <= s,
                out@ == usable_frames(self.map().take(i as int)),
            decreases s - i,
        {
            let r = self.memory_map[i];
            proof {
                lemma_usable_frames_decompose(self.map(), i as int);
                lemma_usable_frames_decompose(self.map(), i + 1);
                lemma_usable_frames_skip_step(self.map(), i as int);
                assert(self.map().take(i + 1).take(i as int) =~= self.map().take(i as int));
                lemma_usable_frames_decompose(self.map().take(i + 1), i as int);
                lemma_usable_frames_skip_step(self.map().take(i + 1), i as int);
                assert(self.map().take(i + 1).skip(i + 1) =~= Seq::<MemoryRegion>::empty());
                assert(self.map().take(i + 1)[i as int] == self.map()[i as int]);
                assert(usable_frames(self.map().take(i + 1))
                    == usable_frames(self.map().take(i as int)) + region_frames(self.map()[i as int]));
                lemma_region_frame_count(r);
            }
            if r.usable {
                let mut a: u64 = r.start;
                while a < r.end
                    invariant
                        wf_region(r),
                        r.usable,
                        r.start <= a <= r.end,
                        a % PAGE_SIZE == 0,
                        out@ == usable_frames(self.map().take(i as int))
                            + region_frames(r).take(((a - r.start) / (PAGE_SIZE as int)) as int),
                    decreases r.end - a,
                {
                    proof {
                        let d = PAGE_SIZE as int;
                        let j = (a - r.start) / d;
                        vstd::arithmetic::div_mod::lemma_sub_mod_noop(a as int, r.start as int, d);
                        vstd::arithmetic::div_mod::lemma_small_mod(0, d as nat);
                        assert((a - r.start) % d == 0);
                        vstd::arithmetic::div_mod::lemma_fundamental_div_mod(a - r.start, d);
                        assert(d * j == a - r.start);
                        assert((j + 1) * d + 0 == a + d - r.start) by (nonlinear_arith)
                            requires
                                d * j == a - r.start,
                        ;
                        vstd::arithmetic::div_mod::lemma_fundamental_div_mod_converse_div(
                            a + d - r.start, d, j + 1, 0);
                        lemma_region_frame_count(r);
                        assert(j < region_frames(r).len()) by (nonlinear_arith)
                            requires
                                d * j == a - r.start,
                                a < r.end,
                                d * (region_frames(r).len() as int) == r.end - r.start,
                                d > 0,
                        ;
                        assert(region_frames(r)[j] == a);
                        assert(region_frames(r).take(j + 1)
                            =~= region_frames(r).take(j).push(a));
                    }
                    out.push(a);
                    a = a + PAGE_SIZE;
                }
                proof {
                    let d = PAGE_SIZE as int;
                    lemma_region_frame_count(r);
                    assert(((a - r.start) / d) as int == region_frames(r).len()) by (nonlinear_arith)
                        requires
                            a == r.end,
                            d * (region_frames(r).len() as int) == r.end - r.start,
                            d * ((a - r.start) / d) + (a - r.start) % d == a - r.start,
                            0 <= (a - r.start) % d < d,
                            d > 0,
                    ;
                    assert(region_frames(r).take(region_frames(r).len() as int) =~= region_frames(r));
                }
            } else {
                proof {
                    assert(region_frames(r) =~= Seq::<u64>::empty());
                    assert(out@ =~= usable_frames(self.map().take(i + 1)));
                }
            }
            i = i + 1;
        }
        proof {
            assert(self.map().take(s as int) =~= self.map());
        }
        out
    }

    /// Hand out the next usable frame of the map, or report exhaustion
    /// once every usable frame has been issued. The cursor advances
    /// either way, as the kernel's allocator does.
    pub fn allocate_frame(&mut self) -> (r: Option<u64>)
        requires
            old(self).wf(),
            old(self).next() < usize::MAX,
        ensures
            final(self).wf(),
            final(self).map() == old(self).map(),
            final(self).next() == old(self).next() + 1,
            r == (if old(self).next() < usable_frames(old(self).map()).len() {
                Some(usable_frames(old(self).map())[old(self).next()])
            } else {
                None::<u64>
            }),
    {
        let s = self.memory_map.len();
        let mut remaining: u64 = self.next as u64;
        let mut i: usize = 0;
        let mut found: Option<u64> = None;
        while i < s
            invariant
                self.wf(),
                s == self.map().len(),
                i <= s,
                found is None ==> remaining == self.next() - usable_frames(self.map().take(i as int)).len(),
                found is None ==> usable_frames(self.map().take(i as int)).len() <= self.next(),
                found == (if self.next() < usable_frames(self.map().take(i as int)).len() {
                    Some(usable_frames(self.map())[self.next()])
                } else {
                    None::<u64>
                }),
            decreases s - i,
        {
            if found.is_some() {
                proof {
                    lemma_usable_frames_decompose(self.map(), i as int);
                    lemma_usable_frames_decompose(self.map(), i + 1);
                    assert(usable_frames(self.map().take(i + 1)).len()
                        >= usable_frames(self.map().take(i as int)).len()) by {
                        assert(self.map().take(i + 1).take(i as int) =~= self.map().take(i as int));
                        lemma_usable_frames_decompose(self.map().take(i + 1), i as int);
                    }
                }
                i = i + 1;
                continue;
            }
            let r = self.memory_map[i];
            proof {
                lemma_region_frame_count(r);
                assert(self.map().take(i + 1).take(i as int) =~= self.map().take(i as int));
                lemma_usable_frames_decompose(self.map().take(i + 1), i as int);
                lemma_usable_frames_skip_step(self.map().take(i + 1), i as int);
                assert(self.map().take(i + 1).skip(i + 1) =~= Seq::<MemoryRegion>::empty());
                assert(self.map().take(i + 1)[i as int] == self.map()[i as int]);
                assert(usable_frames(self.map().take(i + 1))
                    == usable_frames(self.map().take(i as int)) + region_frames(r));
            }
            if r.usable {
                let count: u64 = (r.end - r.start) / PAGE_SIZE;
                if remaining < count {
                    let frame: u64 = r.start + PAGE_SIZE * remaining;
                    proof {
                        let d = PAGE_SIZE as int;
                        assert(d * (remaining as int) == (PAGE_SIZE * remaining) as int) by (nonlinear_arith)
                            requires
                                remaining < count,
                                d == PAGE_SIZE as int,
                                d * (count as int) <= r.end - r.start,
                                r.end <= PHYS_LIMIT,
                                d > 0,
                        ;
                        assert(region_frames(r)[remaining as int] == frame);
                        lemma_usable_frames_decompose(self.map(), i as int);
                        lemma_usable_frames_skip_step(self.map(), i as int);
                        assert(usable_frames(self.map())[self.next()] == frame);
                    }
                    found = Some(frame);
                } else {
                    remaining = remaining - count;
                }
            }
            i = i + 1;
        }
        proof {
            assert(self.map().take(s as int) =~= self.map());
        }
        self.next = self.next + 1;
        found
    }
}

} // verus!
