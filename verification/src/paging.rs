//! The four-level page-table walk: translating virtual addresses and
//! installing new 4 KiB mappings.
//!
//! On the hardware the tables live in physical frames and are read
//! through the kernel's linear mapping of all physical memory; that
//! access is a capability granted outside this crate. Here the tables
//! are held as plain data: each table records the physical frame it
//! would occupy, its level in the tree, and its 512 raw entries, so the
//! walk itself — the part worth proving — is ordinary verified code.

use vstd::prelude::*;
use crate::memory::BootInfoFrameAllocator;
use crate::memory::usable_frames;
use crate::memory::PAGE_SIZE;
use crate::memory::PHYS_LIMIT;

verus! {

/// Number of entries in a page table.
pub const TABLE_ENTRIES: usize = 512;

/// Present bit of a table entry.
pub const ENTRY_PRESENT: u64 = 1;

/// Writable bit of a table entry.
pub const ENTRY_WRITABLE: u64 = 2;

/// Huge-page bit of a table entry. This kernel never sets it; finding
/// it set is an unsupported condition.
pub const ENTRY_HUGE: u64 = 0x80;

/// Mask of the 52-bit physical address held in a table entry.
pub const ENTRY_ADDR_MASK: u64 = 0x000f_ffff_ffff_f000;

/// One byte past the low canonical half of the virtual address space.
///
/// The model admits mappings in this half only: below the bound the
/// four level indices determine the page and the page determines the
/// indices, which is what the mapper's frame conditions quantify over.
/// The hardware's high half mirrors the low one through sign
/// extension; this kernel places the heap and everything it maps in
/// the low half, so the bound loses it nothing.
pub const VIRT_LIMIT: u64 = 0x8000_0000_0000;

/// Whether a table entry is present.
pub open spec fn entry_present(e: u64) -> bool {
    e & ENTRY_PRESENT == ENTRY_PRESENT
}

/// Whether a table entry maps a huge page.
pub open spec fn entry_huge(e: u64) -> bool {
    e & ENTRY_HUGE == ENTRY_HUGE
}

/// The physical address held in a table entry.
pub open spec fn entry_addr(e: u64) -> u64 {
    e & ENTRY_ADDR_MASK
}

/// One page table: the physical frame it occupies, its level in the
/// tree (4 is the root level, 1 holds the leaf entries), and its raw
/// entries. The hardware knows a table's level from the walk; the model
/// records it in the table.
pub struct Table {
    pub base: u64,
    pub level: u8,
    pub entries: Vec<u64>,
}

/// Ghost image of one page table.
pub ghost struct TableView {
    pub base: u64,
    pub level: int,
    pub entries: Seq<u64>,
}

impl View for Table {
    type V = TableView;

    open spec fn view(&self) -> TableView {
        TableView { base: self.base, level: self.level as int, entries: self.entries@ }
    }
}

/// The page-table tree: the root table's frame and every table of the
/// tree. Holding this value stands for the one-time capability to read
/// and write the active tables through the linear mapping.
pub struct PageTables {
    pub root: u64,
    pub tables: Vec<Table>,
}

impl PageTables {
    /// Ghost image of the tree's tables.
    pub open spec fn tables_view(self) -> Seq<TableView> {
        views_of(self.tables@)
    }
}

/// Whether some table occupies frame `base`.
pub open spec fn has_table(s: Seq<TableView>, base: u64) -> bool {
    exists|i: int| 0 <= i < s.len() && (#[trigger] s[i]).base == base
}

/// Index of the table occupying frame `base`.
pub open spec fn table_index(s: Seq<TableView>, base: u64) -> int {
    choose|i: int| 0 <= i < s.len() && (#[trigger] s[i]).base == base
}

/// The table occupying frame `base`.
pub open spec fn table_at(s: Seq<TableView>, base: u64) -> TableView {
    s[table_index(s, base)]
}

/// Entry `idx` of the table occupying frame `base`.
pub open spec fn entry_at(s: Seq<TableView>, base: u64, idx: int) -> u64 {
    table_at(s, base).entries[idx]
}

/// No two tables occupy the same frame.
pub open spec fn distinct_bases(s: Seq<TableView>) -> bool {
    forall|i: int, j: int| 0 <= i < j < s.len() ==> (#[trigger] s[i]).base != (#[trigger] s[j]).base
}

/// What a walk needs of the tables: distinct frames and full entry
/// arrays.
pub open spec fn wf_read(s: Seq<TableView>) -> bool {
    &&& distinct_bases(s)
    &&& forall|i: int| 0 <= i < s.len() ==> (#[trigger] s[i]).entries.len() == TABLE_ENTRIES
}

/// With distinct frames, lookup by frame finds exactly the table that
/// carries it.
pub proof fn lemma_table_at(s: Seq<TableView>, i: int)
    requires
        distinct_bases(s),
        0 <= i < s.len(),
    ensures
        table_index(s, s[i].base) == i,
        table_at(s, s[i].base) == s[i],
{
    assert(has_table(s, s[i].base));
    let j = table_index(s, s[i].base);
    assert(0 <= j < s.len() && s[j].base == s[i].base);
}

/// The index a virtual address selects in a table of the given level.
pub open spec fn level_index(va: u64, level: int) -> int {
    if level == 4 {
        ((va >> 39) & 0x1ff) as int
    } else if level == 3 {
        ((va >> 30) & 0x1ff) as int
    } else if level == 2 {
        ((va >> 21) & 0x1ff) as int
    } else {
        ((va >> 12) & 0x1ff) as int
    }
}

/// The offset of a virtual address within its page.
pub open spec fn page_offset(va: u64) -> int {
    (va & 0xfff) as int
}

/// The page a virtual address belongs to.
pub open spec fn page_base(va: u64) -> u64 {
    va & 0xffff_ffff_ffff_f000
}

/// Result of walking the tree for one virtual address.
#[derive(Debug, Clone, Copy, PartialEq, Eq, Structural)]
pub enum Walk {
    /// The walk reached a leaf entry: the base of the mapped frame.
    Frame(u64),
    /// Some entry on the path was absent (or pointed to no table).
    NotMapped,
    /// Some entry on the path maps a huge page: unsupported.
    Huge,
}

/// The table walk: from the table at `base` (of the given level), follow
/// the address's index at each level down to the leaf entry.
///
/// A present leaf carries the mapped frame; an absent entry, or one that
/// points to a frame no table occupies, ends the walk unmapped; an entry
/// with the huge-page bit ends it unsupported. A leaf slot counts as
/// occupied whenever it is non-zero, exactly as the hardware mapper
/// treats it.
pub open spec fn walk_from(s: Seq<TableView>, base: u64, va: u64, level: int) -> Walk
    decreases level,
{
    if level < 1 {
        Walk::NotMapped
    } else if !has_table(s, base) {
        Walk::NotMapped
    } else {
        let e = entry_at(s, base, level_index(va, level));
        if !entry_present(e) {
            Walk::NotMapped
        } else if entry_huge(e) {
            Walk::Huge
        } else if level == 1 {
            Walk::Frame(entry_addr(e))
        } else {
            walk_from(s, entry_addr(e), va, level - 1)
        }
    }
}

/// Result of translating one virtual address.
#[derive(Debug, Clone, Copy, PartialEq, Eq, Structural)]
pub enum TranslateResult {
    /// The physical address the virtual address maps to.
    Mapped(u64),
    /// No mapping exists for the address.
    NotMapped,
    /// The walk found a huge-page mapping, which this kernel neither
    /// creates nor supports; it indicates a corrupted tree.
    Unsupported,
}

/// What translation returns: the walked frame plus the page offset.
pub open spec fn spec_translate(pt: PageTables, va: u64) -> TranslateResult {
    match walk_from(pt.tables_view(), pt.root, va, 4) {
        Walk::Frame(f) => TranslateResult::Mapped((f + page_offset(va)) as u64),
        Walk::NotMapped => TranslateResult::NotMapped,
        Walk::Huge => TranslateResult::Unsupported,
    }
}

/// Find entry `idx` of the table occupying `base`, or report that no
/// table occupies it.
fn entry_lookup(tables: &Vec<Table>, base: u64, idx: usize) -> (r: Option<u64>)
    requires
        wf_read(views_of(tables@)),
        idx < TABLE_ENTRIES,
    ensures
        r matches Some(e) ==> has_table(views_of(tables@), base)
            && e == entry_at(views_of(tables@), base, idx as int),
        r is None <==> !has_table(views_of(tables@), base),
{
    let ghost vs = views_of(tables@);
    let n = tables.len();
    let mut i: usize = 0;
    while i < n
        invariant
            wf_read(vs),
            vs == views_of(tables@),
            idx < TABLE_ENTRIES,
            n == tables@.len(),
            i <= n,
            forall|j: int| 0 <= j < i ==> (#[trigger] vs[j]).base != base,
        decreases n - i,
    {
        if tables[i].base == base {
            proof {
                lemma_table_at(vs, i as int);
            }
            return Some(tables[i].entries[idx]);
        }
        i = i + 1;
    }
    assert(!has_table(vs, base));
    None
}

/// Ghost images of a sequence of tables.
pub open spec fn views_of(ts: Seq<Table>) -> Seq<TableView> {
    Seq::new(ts.len(), |i: int| ts[i]@)
}

/// Translate a virtual address into the physical address it is mapped
/// to, `NotMapped` if some level's entry is absent, or `Unsupported` if
/// the walk runs into a huge-page entry, which this kernel never
/// creates.
pub fn translate_addr(pt: &PageTables, addr: u64) -> (r: TranslateResult)
    requires
        wf_read(pt.tables_view()),
    ensures
        r == spec_translate(*pt, addr),
{
    proof {
        reveal_with_fuel(walk_from, 5);
    }
    assert((addr >> 39) & 0x1ff < 512 && (addr >> 30) & 0x1ff < 512
        && (addr >> 21) & 0x1ff < 512 && (addr >> 12) & 0x1ff < 512) by (bit_vector);
    let i4: usize = ((addr >> 39) & 0x1ff) as usize;
    let i3: usize = ((addr >> 30) & 0x1ff) as usize;
    let i2: usize = ((addr >> 21) & 0x1ff) as usize;
    let i1: usize = ((addr >> 12) & 0x1ff) as usize;
    let e4 = match entry_lookup(&pt.tables, pt.root, i4) {
        None => { return TranslateResult::NotMapped; }
        Some(e) => e,
    };
    if e4 & ENTRY_PRESENT != ENTRY_PRESENT {
        return TranslateResult::NotMapped;
    }
    if e4 & ENTRY_HUGE == ENTRY_HUGE {
        return TranslateResult::Unsupported;
    }
    let e3 = match entry_lookup(&pt.tables, e4 & ENTRY_ADDR_MASK, i3) {
        None => { return TranslateResult::NotMapped; }
        Some(e) => e,
    };
    if e3 & ENTRY_PRESENT != ENTRY_PRESENT {
        return TranslateResult::NotMapped;
    }
    if e3 & ENTRY_HUGE == ENTRY_HUGE {
        return TranslateResult::Unsupported;
    }
    let e2 = match entry_lookup(&pt.tables, e3 & ENTRY_ADDR_MASK, i2) {
        None => { return TranslateResult::NotMapped; }
        Some(e) => e,
    };
    if e2 & ENTRY_PRESENT != ENTRY_PRESENT {
        return TranslateResult::NotMapped;
    }
    if e2 & ENTRY_HUGE == ENTRY_HUGE {
        return TranslateResult::Unsupported;
    }
    let e1 = match entry_lookup(&pt.tables, e2 & ENTRY_ADDR_MASK, i1) {
        None => { return TranslateResult::NotMapped; }
        Some(e) => e,
    };
    if e1 & ENTRY_PRESENT != ENTRY_PRESENT {
        return TranslateResult::NotMapped;
    }
    if e1 & ENTRY_HUGE == ENTRY_HUGE {
        return TranslateResult::Unsupported;
    }
    let frame = e1 & ENTRY_ADDR_MASK;
    let off = addr & 0xfff;
    assert((e1 & ENTRY_ADDR_MASK) + (addr & 0xfff) <= u64::MAX) by (bit_vector);
    TranslateResult::Mapped(frame + off)
}

/// An intermediate pointer: a present, non-huge entry of a table above
/// the leaf level, which therefore points at a lower table.
pub open spec fn is_intermediate_ptr(s: Seq<TableView>, ti: int, j: int) -> bool {
    &&& 0 <= ti < s.len()
    &&& 0 <= j < TABLE_ENTRIES
    &&& s[ti].level >= 2
    &&& entry_present(s[ti].entries[j])
    &&& !entry_huge(s[ti].entries[j])
}

/// A well-formed table tree.
///
/// Tables occupy distinct frames and are full; levels run from 4 down
/// to 1; every intermediate pointer leads to a table one level down;
/// and no two intermediate pointers share a target, so every table has
/// at most one parent slot — the tree never aliases. The kernel
/// preserves all of this because the frames it builds tables from are
/// fresh.
pub open spec fn wf_tables(s: Seq<TableView>) -> bool {
    &&& wf_read(s)
    &&& forall|i: int| 0 <= i < s.len() ==> 1 <= (#[trigger] s[i]).level <= 4
    &&& forall|ti: int, j: int| #[trigger] is_intermediate_ptr(s, ti, j)
        ==> has_table(s, entry_addr(s[ti].entries[j]))
            && table_at(s, entry_addr(s[ti].entries[j])).level == s[ti].level - 1
    &&& forall|ti: int, j: int, ti2: int, j2: int|
        #[trigger] is_intermediate_ptr(s, ti, j) && #[trigger] is_intermediate_ptr(s, ti2, j2)
            && (ti != ti2 || j != j2)
        ==> entry_addr(s[ti].entries[j]) != entry_addr(s[ti2].entries[j2])
    &&& forall|ti: int, j: int| 0 <= ti < s.len() && 0 <= j < TABLE_ENTRIES && s[ti].level == 1
        ==> (#[trigger] s[ti].entries[j]) == 0 || entry_present(s[ti].entries[j])
}

impl PageTables {
    /// A well-formed tree rooted at a level-4 table.
    pub open spec fn wf(self) -> bool {
        &&& wf_tables(self.tables_view())
        &&& has_table(self.tables_view(), self.root)
        &&& table_at(self.tables_view(), self.root).level == 4
    }
}

/// A frame the tree knows nothing of: no table occupies it and no
/// intermediate pointer targets it. Only such frames may become new
/// tables.
pub open spec fn frame_untracked(s: Seq<TableView>, f: u64) -> bool {
    &&& !has_table(s, f)
    &&& forall|ti: int, j: int| #[trigger] is_intermediate_ptr(s, ti, j)
        ==> entry_addr(s[ti].entries[j]) != f
}

/// The frames the allocator will still hand out are fit to become
/// tables of this tree: frame-aligned, inside the physical space,
/// pairwise distinct, and unknown to the tree.
pub open spec fn frames_fresh(fa: BootInfoFrameAllocator, s: Seq<TableView>) -> bool {
    &&& forall|k: int| 0 <= k < fa.remaining_frames().len()
        ==> frame_untracked(s, #[trigger] fa.remaining_frames()[k])
    &&& forall|k: int| 0 <= k < fa.remaining_frames().len()
        ==> (#[trigger] fa.remaining_frames()[k]) as int % (PAGE_SIZE as int) == 0
            && fa.remaining_frames()[k] < PHYS_LIMIT
    &&& forall|k: int, l: int| 0 <= k < l < fa.remaining_frames().len()
        ==> #[trigger] fa.remaining_frames()[k] != #[trigger] fa.remaining_frames()[l]
}

/// A table of zeroed entries, as a new table frame is prepared.
pub open spec fn zero_entries() -> Seq<u64> {
    Seq::new(TABLE_ENTRIES as nat, |k: int| 0u64)
}

/// The tree after linking a fresh zeroed table of level `cl` under
/// entry `idx` of table `pi`.
pub open spec fn created_tables(s: Seq<TableView>, pi: int, idx: int, fresh: u64, cl: int) -> Seq<TableView> {
    s.update(
        pi,
        TableView {
            base: s[pi].base,
            level: s[pi].level,
            entries: s[pi].entries.update(idx, fresh | ENTRY_PRESENT | ENTRY_WRITABLE),
        },
    ).push(TableView { base: fresh, level: cl, entries: zero_entries() })
}

/// The tree after writing entry `idx` of table `pi` to `e`.
pub open spec fn written_tables(s: Seq<TableView>, pi: int, idx: int, e: u64) -> Seq<TableView> {
    s.update(
        pi,
        TableView { base: s[pi].base, level: s[pi].level, entries: s[pi].entries.update(idx, e) },
    )
}

/// Table lookup in a tree extended with a fresh table.
pub proof fn lemma_lookup_created(s: Seq<TableView>, pi: int, idx: int, fresh: u64, cl: int)
    requires
        distinct_bases(s),
        0 <= pi < s.len(),
        !has_table(s, fresh),
    ensures
        ({
            let s2 = created_tables(s, pi, idx, fresh, cl);
            &&& distinct_bases(s2)
            &&& forall|b: u64| #[trigger] has_table(s2, b) <==> (has_table(s, b) || b == fresh)
            &&& table_at(s2, fresh) == (TableView { base: fresh, level: cl, entries: zero_entries() })
            &&& table_at(s2, s[pi].base) == (TableView {
                base: s[pi].base,
                level: s[pi].level,
                entries: s[pi].entries.update(idx, fresh | ENTRY_PRESENT | ENTRY_WRITABLE),
            })
            &&& forall|b: u64| b != fresh && b != s[pi].base && #[trigger] has_table(s, b)
                ==> has_table(s2, b) && table_at(s2, b) == table_at(s, b)
        }),
{
    let s2 = created_tables(s, pi, idx, fresh, cl);
    assert(s2.len() == s.len() + 1);
    assert(forall|i: int| 0 <= i < s.len() ==> (#[trigger] s2[i]).base == s[i].base);
    assert(s2[s.len() as int].base == fresh);
    assert forall|i: int, j: int| 0 <= i < j < s2.len() implies (#[trigger] s2[i]).base != (#[trigger] s2[j]).base by {
        if j == s.len() {
            assert(has_table(s, s[i].base));
        }
    }
    assert forall|b: u64| #[trigger] has_table(s2, b) implies (has_table(s, b) || b == fresh) by {
        let i = choose|i: int| 0 <= i < s2.len() && (#[trigger] s2[i]).base == b;
        if i < s.len() {
            assert(s[i].base == b);
        }
    }
    assert forall|b: u64| has_table(s, b) || b == fresh implies #[trigger] has_table(s2, b) by {
        if b == fresh {
            assert(s2[s.len() as int].base == b);
        } else {
            let i = choose|i: int| 0 <= i < s.len() && (#[trigger] s[i]).base == b;
            assert(s2[i].base == b);
        }
    }
    lemma_table_at(s2, s.len() as int);
    lemma_table_at(s2, pi);
    assert forall|b: u64| b != fresh && b != s[pi].base && #[trigger] has_table(s, b)
        implies has_table(s2, b) && table_at(s2, b) == table_at(s, b) by {
        let i = choose|i: int| 0 <= i < s.len() && (#[trigger] s[i]).base == b;
        lemma_table_at(s, i);
        lemma_table_at(s2, i);
        assert(s2[i] == s[i]);
    }
}

/// Table lookup in a tree with one entry rewritten.
pub proof fn lemma_lookup_written(s: Seq<TableView>, pi: int, idx: int, e: u64)
    requires
        distinct_bases(s),
        0 <= pi < s.len(),
    ensures
        ({
            let s2 = written_tables(s, pi, idx, e);
            &&& distinct_bases(s2)
            &&& forall|b: u64| #[trigger] has_table(s2, b) <==> has_table(s, b)
            &&& table_at(s2, s[pi].base) == (TableView {
                base: s[pi].base,
                level: s[pi].level,
                entries: s[pi].entries.update(idx, e),
            })
            &&& forall|b: u64| b != s[pi].base && #[trigger] has_table(s, b)
                ==> table_at(s2, b) == table_at(s, b)
        }),
{
    let s2 = written_tables(s, pi, idx, e);
    assert(s2.len() == s.len());
    assert(forall|i: int| 0 <= i < s.len() ==> (#[trigger] s2[i]).base == s[i].base);
    assert forall|b: u64| #[trigger] has_table(s2, b) <==> has_table(s, b) by {
        if has_table(s2, b) {
            let i = choose|i: int| 0 <= i < s2.len() && (#[trigger] s2[i]).base == b;
            assert(s[i].base == b);
        }
        if has_table(s, b) {
            let i = choose|i: int| 0 <= i < s.len() && (#[trigger] s[i]).base == b;
            assert(s2[i].base == b);
        }
    }
    lemma_table_at(s2, pi);
    assert forall|b: u64| b != s[pi].base && #[trigger] has_table(s, b)
        implies table_at(s2, b) == table_at(s, b) by {
        let i = choose|i: int| 0 <= i < s.len() && (#[trigger] s[i]).base == b;
        lemma_table_at(s, i);
        lemma_table_at(s2, i);
        assert(s2[i] == s[i]);
    }
}

/// Every level's index is a table index.
pub proof fn lemma_level_index_bound(va: u64, level: int)
    ensures
        0 <= level_index(va, level) < TABLE_ENTRIES,
{
    assert((va >> 39) & 0x1ff < 512) by (bit_vector);
    assert((va >> 30) & 0x1ff < 512) by (bit_vector);
    assert((va >> 21) & 0x1ff < 512) by (bit_vector);
    assert((va >> 12) & 0x1ff < 512) by (bit_vector);
}

/// A zero entry is absent.
pub proof fn lemma_zero_entry_absent()
    ensures
        !entry_present(0u64),
{
    assert(0u64 & 1u64 != 1u64) by (bit_vector);
}

/// A walk entering a zeroed table ends unmapped.
pub proof fn lemma_walk_zero_table(s: Seq<TableView>, base: u64, va: u64, level: int)
    requires
        has_table(s, base),
        table_at(s, base).entries == zero_entries(),
        level >= 1,
    ensures
        walk_from(s, base, va, level) == Walk::NotMapped,
{
    lemma_level_index_bound(va, level);
    lemma_zero_entry_absent();
    assert(entry_at(s, base, level_index(va, level)) == 0u64);
}

/// Linking a fresh zeroed table under an absent slot keeps the tree
/// well formed, places the new table one level down, rewrites only
/// that slot, and keeps every other fresh frame fresh.
pub proof fn lemma_wf_create(s: Seq<TableView>, pi: int, idx: int, fresh: u64)
    requires
        wf_tables(s),
        0 <= pi < s.len(),
        0 <= idx < TABLE_ENTRIES,
        s[pi].level >= 2,
        !entry_present(s[pi].entries[idx]),
        frame_untracked(s, fresh),
        fresh as int % (PAGE_SIZE as int) == 0,
        fresh < PHYS_LIMIT,
    ensures
        ({
            let ne = fresh | ENTRY_PRESENT | ENTRY_WRITABLE;
            let s2 = created_tables(s, pi, idx, fresh, s[pi].level - 1);
            &&& wf_tables(s2)
            &&& s2.len() == s.len() + 1
            &&& (forall|b: u64| #[trigger] has_table(s2, b) <==> (has_table(s, b) || b == fresh))
            &&& has_table(s2, fresh)
            &&& table_at(s2, fresh).level == s[pi].level - 1
            &&& table_at(s2, fresh).entries == zero_entries()
            &&& has_table(s2, s[pi].base)
            &&& table_at(s2, s[pi].base).level == s[pi].level
            &&& entry_at(s2, s[pi].base, idx) == ne
            &&& entry_present(ne) && !entry_huge(ne) && entry_addr(ne) == fresh
            &&& (forall|b: u64, y: int| has_table(s, b) && 0 <= y < TABLE_ENTRIES
                && (b != s[pi].base || y != idx)
                ==> #[trigger] entry_at(s2, b, y) == entry_at(s, b, y))
            &&& (forall|f: u64| #[trigger] frame_untracked(s, f) && f != fresh
                ==> frame_untracked(s2, f))
        }),
{
    let ne = fresh | ENTRY_PRESENT | ENTRY_WRITABLE;
    let s2 = created_tables(s, pi, idx, fresh, s[pi].level - 1);
    assert(ne & ENTRY_PRESENT == ENTRY_PRESENT && ne & ENTRY_HUGE != ENTRY_HUGE
        && ne & ENTRY_ADDR_MASK == fresh) by (bit_vector)
        requires
            ne == fresh | ENTRY_PRESENT | ENTRY_WRITABLE,
            fresh as int % (PAGE_SIZE as int) == 0,
            fresh < PHYS_LIMIT,
            ENTRY_PRESENT == 1u64,
            ENTRY_WRITABLE == 2u64,
            ENTRY_HUGE == 0x80u64,
            ENTRY_ADDR_MASK == 0x000f_ffff_ffff_f000u64,
            PAGE_SIZE == 4096u64,
            PHYS_LIMIT == 0x0010_0000_0000_0000u64,
    ;
    lemma_lookup_created(s, pi, idx, fresh, s[pi].level - 1);
    lemma_zero_entry_absent();
    assert(forall|i: int| 0 <= i < s.len() && i != pi ==> s2[i] == s[i]);
    assert(s2[pi].entries == s[pi].entries.update(idx, ne));
    assert(s2[s.len() as int].entries == zero_entries());
    lemma_table_at(s, pi);
    // Which slots are intermediate pointers in the new tree.
    assert forall|ti: int, j: int| #[trigger] is_intermediate_ptr(s2, ti, j) && ti < s.len()
        && !(ti == pi && j == idx)
        implies is_intermediate_ptr(s, ti, j) && s2[ti].entries[j] == s[ti].entries[j] by {}
    assert forall|j: int| 0 <= j < TABLE_ENTRIES
        implies !entry_present(#[trigger] s2[s.len() as int].entries[j]) by {}
    // Pointer validity.
    assert forall|ti: int, j: int| #[trigger] is_intermediate_ptr(s2, ti, j)
        implies has_table(s2, entry_addr(s2[ti].entries[j]))
            && table_at(s2, entry_addr(s2[ti].entries[j])).level == s2[ti].level - 1 by {
        if ti == s.len() {
            assert(false);
        } else if ti == pi && j == idx {
            assert(entry_addr(s2[ti].entries[j]) == fresh);
        } else {
            assert(is_intermediate_ptr(s, ti, j));
            let t = entry_addr(s[ti].entries[j]);
            assert(has_table(s, t) && table_at(s, t).level == s[ti].level - 1);
            assert(t != fresh);
            if t == s[pi].base {
                assert(table_at(s2, t).level == s[pi].level);
            } else {
                assert(table_at(s2, t) == table_at(s, t));
            }
        }
    }
    // Pointer injectivity.
    assert forall|ti: int, j: int, ti2: int, j2: int|
        #[trigger] is_intermediate_ptr(s2, ti, j) && #[trigger] is_intermediate_ptr(s2, ti2, j2)
            && (ti != ti2 || j != j2)
        implies entry_addr(s2[ti].entries[j]) != entry_addr(s2[ti2].entries[j2]) by {
        if ti == pi && j == idx {
            assert(entry_addr(s2[ti].entries[j]) == fresh);
            assert(is_intermediate_ptr(s, ti2, j2));
            assert(entry_addr(s2[ti2].entries[j2]) != fresh);
        } else if ti2 == pi && j2 == idx {
            assert(entry_addr(s2[ti2].entries[j2]) == fresh);
            assert(is_intermediate_ptr(s, ti, j));
            assert(entry_addr(s2[ti].entries[j]) != fresh);
        } else {
            assert(is_intermediate_ptr(s, ti, j) && is_intermediate_ptr(s, ti2, j2));
        }
    }
    // Other fresh frames stay fresh.
    assert forall|f: u64| #[trigger] frame_untracked(s, f) && f != fresh
        implies frame_untracked(s2, f) by {
        assert(!has_table(s2, f));
        assert forall|ti: int, j: int| #[trigger] is_intermediate_ptr(s2, ti, j)
            implies entry_addr(s2[ti].entries[j]) != f by {
            if ti == pi && j == idx {
                assert(entry_addr(s2[ti].entries[j]) == fresh);
            } else {
                assert(ti < s.len() || !entry_present(s2[ti].entries[j]));
                assert(is_intermediate_ptr(s, ti, j));
            }
        }
    }
    // No other slot changes.
    assert forall|b: u64, y: int| has_table(s, b) && 0 <= y < TABLE_ENTRIES
        && (b != s[pi].base || y != idx)
        implies #[trigger] entry_at(s2, b, y) == entry_at(s, b, y) by {
        if b == s[pi].base {
            assert(table_at(s2, b).entries == s[pi].entries.update(idx, ne));
        } else {
            assert(table_at(s2, b) == table_at(s, b));
        }
    }
}

/// Linking a fresh zeroed table changes no walk: walks that read the
/// rewritten slot found it absent before and now run into the zeroed
/// table, and every other walk reads only unchanged slots.
pub proof fn lemma_walk_create(
    s: Seq<TableView>,
    pi: int,
    idx: int,
    fresh: u64,
    base: u64,
    va: u64,
    level: int,
)
    requires
        wf_tables(s),
        0 <= pi < s.len(),
        0 <= idx < TABLE_ENTRIES,
        s[pi].level >= 2,
        !entry_present(s[pi].entries[idx]),
        frame_untracked(s, fresh),
        fresh as int % (PAGE_SIZE as int) == 0,
        fresh < PHYS_LIMIT,
        base != fresh,
        has_table(s, base) ==> table_at(s, base).level == level,
    ensures
        walk_from(created_tables(s, pi, idx, fresh, s[pi].level - 1), base, va, level)
            == walk_from(s, base, va, level),
        walk_from(s, base, va, level) is Frame
            ==> l1_slot(created_tables(s, pi, idx, fresh, s[pi].level - 1), base, va, level)
                == l1_slot(s, base, va, level),
    decreases level,
{
    let s2 = created_tables(s, pi, idx, fresh, s[pi].level - 1);
    lemma_wf_create(s, pi, idx, fresh);
    lemma_level_index_bound(va, level);
    if level < 1 {
    } else if !has_table(s, base) {
        assert(!has_table(s2, base));
    } else {
        let bi = table_index(s, base);
        assert(0 <= bi < s.len() && s[bi].base == base);
        lemma_table_at(s, bi);
        let li = level_index(va, level);
        if base == s[pi].base && li == idx {
            assert(bi == pi);
            assert(level == s[pi].level);
            assert(!entry_present(entry_at(s, base, li)));
            assert(walk_from(s, base, va, level) == Walk::NotMapped);
            let ne = fresh | ENTRY_PRESENT | ENTRY_WRITABLE;
            assert(entry_at(s2, base, li) == ne);
            assert(walk_from(s2, base, va, level) == walk_from(s2, fresh, va, level - 1));
            lemma_walk_zero_table(s2, fresh, va, level - 1);
        } else {
            let e = entry_at(s, base, li);
            assert(entry_at(s2, base, li) == e);
            assert(has_table(s2, base));
            if !entry_present(e) {
            } else if entry_huge(e) {
            } else if level == 1 {
                assert(l1_slot(s2, base, va, level) == Some((base, level_index(va, 1))));
                assert(l1_slot(s, base, va, level) == Some((base, level_index(va, 1))));
            } else {
                let nb = entry_addr(e);
                assert(is_intermediate_ptr(s, bi, li)) by {
                    assert(s[bi].level == level);
                    assert(s[bi].entries[li] == e);
                }
                assert(has_table(s, nb) && table_at(s, nb).level == level - 1);
                assert(nb != fresh);
                lemma_walk_create(s, pi, idx, fresh, nb, va, level - 1);
                assert(l1_slot(s2, base, va, level) == l1_slot(s2, nb, va, level - 1));
                assert(l1_slot(s, base, va, level) == l1_slot(s, nb, va, level - 1));
            }
        }
    }
}

/// The leaf slot a walk for `va` would end in: the level-1 table and
/// the index within it, if the path of intermediate entries reaches
/// that far.
pub open spec fn l1_slot(s: Seq<TableView>, base: u64, va: u64, level: int) -> Option<(u64, int)>
    decreases level,
{
    if level < 1 || !has_table(s, base) {
        None
    } else if level == 1 {
        Some((base, level_index(va, 1)))
    } else {
        let e = entry_at(s, base, level_index(va, level));
        if !entry_present(e) || entry_huge(e) {
            None
        } else {
            l1_slot(s, entry_addr(e), va, level - 1)
        }
    }
}

/// A walk's leaf slot index is the address's level-1 index.
pub proof fn lemma_l1_slot_idx(s: Seq<TableView>, base: u64, va: u64, level: int)
    requires
        l1_slot(s, base, va, level) is Some,
    ensures
        (l1_slot(s, base, va, level)->Some_0).1 == level_index(va, 1),
    decreases level,
{
    if level < 1 || !has_table(s, base) {
    } else if level == 1 {
    } else {
        let e = entry_at(s, base, level_index(va, level));
        lemma_l1_slot_idx(s, entry_addr(e), va, level - 1);
    }
}

/// The raw leaf entry a virtual address's walk ends in, when the path
/// of intermediate entries reaches a leaf table at all. This exposes
/// the flags of a mapping — notably present and writable — which the
/// translated address alone does not show.
pub open spec fn spec_leaf_entry(pt: PageTables, va: u64) -> Option<u64> {
    match l1_slot(pt.tables_view(), pt.root, va, 4) {
        Some(sl) => Some(entry_at(pt.tables_view(), sl.0, sl.1)),
        None => None,
    }
}

/// A walk reads only the address's index at each level, so addresses
/// that agree on every index walk alike.
pub proof fn lemma_walk_same_indices(s: Seq<TableView>, base: u64, va1: u64, va2: u64, level: int)
    requires
        forall|l: int| 1 <= l <= level ==> level_index(va1, l) == level_index(va2, l),
    ensures
        walk_from(s, base, va1, level) == walk_from(s, base, va2, level),
    decreases level,
{
    if level < 1 || !has_table(s, base) {
    } else {
        let e = entry_at(s, base, level_index(va1, level));
        if !entry_present(e) || entry_huge(e) || level == 1 {
        } else {
            lemma_walk_same_indices(s, entry_addr(e), va1, va2, level - 1);
        }
    }
}

/// The leaf slot, too, depends only on the address's indices.
pub proof fn lemma_l1_slot_same_indices(s: Seq<TableView>, base: u64, va1: u64, va2: u64, level: int)
    requires
        forall|l: int| 1 <= l <= level ==> level_index(va1, l) == level_index(va2, l),
    ensures
        l1_slot(s, base, va1, level) == l1_slot(s, base, va2, level),
    decreases level,
{
    if level < 1 || !has_table(s, base) {
    } else if level == 1 {
    } else {
        let e = entry_at(s, base, level_index(va1, level));
        if !entry_present(e) || entry_huge(e) {
        } else {
            lemma_l1_slot_same_indices(s, entry_addr(e), va1, va2, level - 1);
        }
    }
}

/// A walk whose leaf slot holds an absent entry ends unmapped.
pub proof fn lemma_walk_unmapped_at_empty_slot(s: Seq<TableView>, base: u64, va: u64, level: int)
    requires
        l1_slot(s, base, va, level) is Some,
        !entry_present(entry_at(
            s,
            (l1_slot(s, base, va, level)->Some_0).0,
            (l1_slot(s, base, va, level)->Some_0).1,
        )),
    ensures
        walk_from(s, base, va, level) == Walk::NotMapped,
    decreases level,
{
    if level < 1 || !has_table(s, base) {
    } else if level == 1 {
        assert(l1_slot(s, base, va, level) == Some((base, level_index(va, 1))));
    } else {
        let e = entry_at(s, base, level_index(va, level));
        assert(entry_present(e) && !entry_huge(e));
        lemma_walk_unmapped_at_empty_slot(s, entry_addr(e), va, level - 1);
    }
}

/// Writing a leaf entry keeps the tree well formed: a level-1 table
/// holds no intermediate pointers, so the tree's shape is untouched.
pub proof fn lemma_wf_leaf(s: Seq<TableView>, pi: int, idx: int, le: u64)
    requires
        wf_tables(s),
        0 <= pi < s.len(),
        0 <= idx < TABLE_ENTRIES,
        s[pi].level == 1,
        le == 0 || entry_present(le),
    ensures
        ({
            let s2 = written_tables(s, pi, idx, le);
            &&& wf_tables(s2)
            &&& s2.len() == s.len()
            &&& (forall|b: u64| #[trigger] has_table(s2, b) <==> has_table(s, b))
            &&& has_table(s2, s[pi].base)
            &&& table_at(s2, s[pi].base).level == 1
            &&& entry_at(s2, s[pi].base, idx) == le
            &&& (forall|b: u64, y: int| has_table(s, b) && 0 <= y < TABLE_ENTRIES
                && (b != s[pi].base || y != idx)
                ==> #[trigger] entry_at(s2, b, y) == entry_at(s, b, y))
            &&& (forall|f: u64| #[trigger] frame_untracked(s, f) ==> frame_untracked(s2, f))
        }),
{
    let s2 = written_tables(s, pi, idx, le);
    lemma_lookup_written(s, pi, idx, le);
    lemma_table_at(s, pi);
    assert(forall|i: int| 0 <= i < s.len() && i != pi ==> s2[i] == s[i]);
    assert(s2[pi].entries == s[pi].entries.update(idx, le));
    // A level-1 table holds no intermediate pointers, so the pointer
    // structure is exactly the old one.
    assert forall|ti: int, j: int| #[trigger] is_intermediate_ptr(s2, ti, j)
        implies is_intermediate_ptr(s, ti, j) && s2[ti].entries[j] == s[ti].entries[j] by {
        assert(ti != pi);
    }
    assert forall|ti: int, j: int| #[trigger] is_intermediate_ptr(s, ti, j)
        implies is_intermediate_ptr(s2, ti, j) by {
        assert(ti != pi);
    }
    assert forall|ti: int, j: int| #[trigger] is_intermediate_ptr(s2, ti, j)
        implies has_table(s2, entry_addr(s2[ti].entries[j]))
            && table_at(s2, entry_addr(s2[ti].entries[j])).level == s2[ti].level - 1 by {
        let t = entry_addr(s[ti].entries[j]);
        assert(has_table(s, t) && table_at(s, t).level == s[ti].level - 1);
        if t == s[pi].base {
            assert(table_at(s2, t).level == s[pi].level);
        } else {
            assert(table_at(s2, t) == table_at(s, t));
        }
    }
    assert forall|f: u64| #[trigger] frame_untracked(s, f)
        implies frame_untracked(s2, f) by {
        assert(!has_table(s2, f));
        assert forall|ti: int, j: int| #[trigger] is_intermediate_ptr(s2, ti, j)
            implies entry_addr(s2[ti].entries[j]) != f by {
            assert(is_intermediate_ptr(s, ti, j));
        }
    }
    assert forall|b: u64, y: int| has_table(s, b) && 0 <= y < TABLE_ENTRIES
        && (b != s[pi].base || y != idx)
        implies #[trigger] entry_at(s2, b, y) == entry_at(s, b, y) by {
        if b == s[pi].base {
            assert(table_at(s2, b).entries == s[pi].entries.update(idx, le));
        } else {
            assert(table_at(s2, b) == table_at(s, b));
        }
    }
}

/// Writing a leaf entry into an empty slot maps exactly the walks that
/// end in that slot, and no other: such a walk found the slot empty
/// before and now finds the new frame; every other walk reads only
/// unchanged slots.
pub proof fn lemma_walk_leaf(
    s: Seq<TableView>,
    pi: int,
    idx: int,
    le: u64,
    base: u64,
    va: u64,
    level: int,
)
    requires
        wf_tables(s),
        0 <= pi < s.len(),
        0 <= idx < TABLE_ENTRIES,
        s[pi].level == 1,
        s[pi].entries[idx] == 0,
        entry_present(le),
        !entry_huge(le),
        has_table(s, base) ==> table_at(s, base).level == level,
        level <= 4,
    ensures
        walk_from(written_tables(s, pi, idx, le), base, va, level)
            == (if l1_slot(s, base, va, level) == Some((s[pi].base, idx)) {
                Walk::Frame(entry_addr(le))
            } else {
                walk_from(s, base, va, level)
            }),
        l1_slot(written_tables(s, pi, idx, le), base, va, level) == l1_slot(s, base, va, level),
    decreases level,
{
    let s2 = written_tables(s, pi, idx, le);
    lemma_wf_leaf(s, pi, idx, le);
    lemma_level_index_bound(va, level);
    lemma_zero_entry_absent();
    if level < 1 {
    } else if !has_table(s, base) {
        assert(!has_table(s2, base));
    } else {
        let bi = table_index(s, base);
        assert(0 <= bi < s.len() && s[bi].base == base);
        lemma_table_at(s, bi);
        let li = level_index(va, level);
        if level == 1 {
            assert(l1_slot(s, base, va, level) == Some((base, li)));
            assert(l1_slot(s2, base, va, level) == Some((base, li)));
            if base == s[pi].base && li == idx {
                assert(bi == pi);
                assert(entry_at(s2, base, li) == le);
                assert(walk_from(s2, base, va, level) == Walk::Frame(entry_addr(le)));
            } else {
                assert(entry_at(s2, base, li) == entry_at(s, base, li));
            }
        } else {
            // The rewritten table is at level 1; this one is higher.
            assert(base != s[pi].base) by {
                if base == s[pi].base {
                    assert(bi == pi);
                }
            }
            let e = entry_at(s, base, li);
            assert(entry_at(s2, base, li) == e);
            if !entry_present(e) {
            } else if entry_huge(e) {
            } else {
                let nb = entry_addr(e);
                assert(is_intermediate_ptr(s, bi, li)) by {
                    assert(s[bi].level == level);
                    assert(s[bi].entries[li] == e);
                }
                assert(has_table(s, nb) && table_at(s, nb).level == level - 1);
                lemma_walk_leaf(s, pi, idx, le, nb, va, level - 1);
                assert(l1_slot(s2, base, va, level) == l1_slot(s2, nb, va, level - 1));
                assert(l1_slot(s, base, va, level) == l1_slot(s, nb, va, level - 1));
            }
        }
    }
}

/// Only one path of indices reaches a given leaf table: intermediate
/// pointers never alias, so the parent slot of each table on the path
/// is unique, and any address whose walk ends in leaf table `b1` used
/// exactly the same indices at levels 4, 3 and 2.
pub proof fn lemma_path_unique(
    s: Seq<TableView>,
    root: u64,
    b3: u64,
    b2: u64,
    b1: u64,
    i4: int,
    i3: int,
    i2: int,
    va: u64,
)
    requires
        wf_tables(s),
        has_table(s, root),
        table_at(s, root).level == 4,
        0 <= i4 < TABLE_ENTRIES,
        0 <= i3 < TABLE_ENTRIES,
        0 <= i2 < TABLE_ENTRIES,
        entry_present(entry_at(s, root, i4)),
        !entry_huge(entry_at(s, root, i4)),
        entry_addr(entry_at(s, root, i4)) == b3,
        entry_present(entry_at(s, b3, i3)),
        !entry_huge(entry_at(s, b3, i3)),
        entry_addr(entry_at(s, b3, i3)) == b2,
        entry_present(entry_at(s, b2, i2)),
        !entry_huge(entry_at(s, b2, i2)),
        entry_addr(entry_at(s, b2, i2)) == b1,
        l1_slot(s, root, va, 4) is Some,
        (l1_slot(s, root, va, 4)->Some_0).0 == b1,
    ensures
        level_index(va, 4) == i4,
        level_index(va, 3) == i3,
        level_index(va, 2) == i2,
{
    let ri = table_index(s, root);
    assert(0 <= ri < s.len() && s[ri].base == root);
    // The given path: each step is an intermediate pointer, so each
    // step's target is a table one level down.
    assert(is_intermediate_ptr(s, ri, i4));
    assert(has_table(s, b3) && table_at(s, b3).level == 3);
    let t3 = table_index(s, b3);
    assert(0 <= t3 < s.len() && s[t3].base == b3 && s[t3].level == 3);
    assert(is_intermediate_ptr(s, t3, i3));
    assert(has_table(s, b2) && table_at(s, b2).level == 2);
    let t2 = table_index(s, b2);
    assert(0 <= t2 < s.len() && s[t2].base == b2 && s[t2].level == 2);
    assert(is_intermediate_ptr(s, t2, i2));
    // The walk for va: unfold its own path.
    let j4 = level_index(va, 4);
    let j3 = level_index(va, 3);
    let j2 = level_index(va, 2);
    lemma_level_index_bound(va, 4);
    lemma_level_index_bound(va, 3);
    lemma_level_index_bound(va, 2);
    let e4p = entry_at(s, root, j4);
    assert(entry_present(e4p) && !entry_huge(e4p));
    let b3p = entry_addr(e4p);
    assert(l1_slot(s, b3p, va, 3) == l1_slot(s, root, va, 4));
    assert(is_intermediate_ptr(s, ri, j4));
    assert(has_table(s, b3p) && table_at(s, b3p).level == 3);
    let e3p = entry_at(s, b3p, j3);
    assert(entry_present(e3p) && !entry_huge(e3p));
    let b2p = entry_addr(e3p);
    assert(l1_slot(s, b2p, va, 2) == l1_slot(s, b3p, va, 3));
    let t3p = table_index(s, b3p);
    assert(0 <= t3p < s.len() && s[t3p].base == b3p && s[t3p].level == 3);
    assert(is_intermediate_ptr(s, t3p, j3));
    assert(has_table(s, b2p) && table_at(s, b2p).level == 2);
    let e2p = entry_at(s, b2p, j2);
    assert(entry_present(e2p) && !entry_huge(e2p));
    let b1p = entry_addr(e2p);
    assert(l1_slot(s, b1p, va, 1) == l1_slot(s, b2p, va, 2));
    let t2p = table_index(s, b2p);
    assert(0 <= t2p < s.len() && s[t2p].base == b2p && s[t2p].level == 2);
    assert(is_intermediate_ptr(s, t2p, j2));
    assert(has_table(s, b1p));
    assert(b1p == b1);
    // Both level-2 pointers target the leaf table: same slot.
    assert(t2p == t2 && j2 == i2) by {
        if t2p != t2 || j2 != i2 {
            assert(entry_addr(s[t2p].entries[j2]) != entry_addr(s[t2].entries[i2]));
        }
    }
    assert(b2p == b2);
    // Both level-3 pointers target the level-2 table: same slot.
    assert(t3p == t3 && j3 == i3) by {
        if t3p != t3 || j3 != i3 {
            assert(entry_addr(s[t3p].entries[j3]) != entry_addr(s[t3].entries[i3]));
        }
    }
    assert(b3p == b3);
    // Both root pointers target the level-3 table: same slot.
    assert(j4 == i4) by {
        if j4 != i4 {
            assert(entry_addr(s[ri].entries[j4]) != entry_addr(s[ri].entries[i4]));
        }
    }
}

/// Errors of installing a mapping, as the mapper reports them.
#[derive(Debug, Clone, Copy, PartialEq, Eq, Structural)]
pub enum MapToError {
    /// An intermediate table had to be created and the frame allocator
    /// was exhausted.
    FrameAllocationFailed,
    /// An entry on the path already maps a huge page.
    ParentEntryHugePage,
    /// The leaf slot for the page is already occupied.
    PageAlreadyMapped,
}

/// What installing a mapping for `page` returns, over the tree as it
/// stands and the number of frames the allocator can still supply:
/// a huge-page entry on the path fails the mapping; an occupied leaf
/// slot fails it; otherwise it succeeds exactly when the allocator can
/// supply the missing intermediate tables (all levels below the first
/// absent entry are missing).
pub open spec fn spec_map_outcome(pt: PageTables, page: u64, avail: int) -> Result<(), MapToError> {
    let s = pt.tables_view();
    let e4 = entry_at(s, pt.root, level_index(page, 4));
    if entry_present(e4) && entry_huge(e4) {
        Err(MapToError::ParentEntryHugePage)
    } else if entry_present(e4) {
        let e3 = entry_at(s, entry_addr(e4), level_index(page, 3));
        if entry_present(e3) && entry_huge(e3) {
            Err(MapToError::ParentEntryHugePage)
        } else if entry_present(e3) {
            let e2 = entry_at(s, entry_addr(e3), level_index(page, 2));
            if entry_present(e2) && entry_huge(e2) {
                Err(MapToError::ParentEntryHugePage)
            } else if entry_present(e2) {
                let e1 = entry_at(s, entry_addr(e2), level_index(page, 1));
                if e1 != 0 {
                    Err(MapToError::PageAlreadyMapped)
                } else {
                    Ok(())
                }
            } else if avail >= 1 {
                Ok(())
            } else {
                Err(MapToError::FrameAllocationFailed)
            }
        } else if avail >= 2 {
            Ok(())
        } else {
            Err(MapToError::FrameAllocationFailed)
        }
    } else if avail >= 3 {
        Ok(())
    } else {
        Err(MapToError::FrameAllocationFailed)
    }
}

/// Two addresses of one page use the same index at every level.
pub proof fn lemma_same_page_indices(va: u64, page: u64)
    requires
        page_base(va) == page,
    ensures
        level_index(va, 4) == level_index(page, 4),
        level_index(va, 3) == level_index(page, 3),
        level_index(va, 2) == level_index(page, 2),
        level_index(va, 1) == level_index(page, 1),
    {
    assert((va >> 39) & 0x1ff == (page >> 39) & 0x1ff
        && (va >> 30) & 0x1ff == (page >> 30) & 0x1ff
        && (va >> 21) & 0x1ff == (page >> 21) & 0x1ff
        && (va >> 12) & 0x1ff == (page >> 12) & 0x1ff) by (bit_vector)
        requires
            va & 0xffff_ffff_ffff_f000 == page,
    ;
}

/// In the low canonical half, addresses that agree on every level's
/// index lie in the same page.
pub proof fn lemma_same_indices_same_page(va: u64, page: u64)
    requires
        va < VIRT_LIMIT,
        page < VIRT_LIMIT,
        level_index(va, 4) == level_index(page, 4),
        level_index(va, 3) == level_index(page, 3),
        level_index(va, 2) == level_index(page, 2),
        level_index(va, 1) == level_index(page, 1),
    ensures
        page_base(va) == page_base(page),
{
    assert(va & 0xffff_ffff_ffff_f000 == page & 0xffff_ffff_ffff_f000) by (bit_vector)
        requires
            va < 0x8000_0000_0000,
            page < 0x8000_0000_0000,
            (va >> 39) & 0x1ff == (page >> 39) & 0x1ff,
            (va >> 30) & 0x1ff == (page >> 30) & 0x1ff,
            (va >> 21) & 0x1ff == (page >> 21) & 0x1ff,
            (va >> 12) & 0x1ff == (page >> 12) & 0x1ff,
    ;
}

/// A table of zeroed entries in a given frame.
fn zero_table(base: u64, level: u8) -> (t: Table)
    ensures
        t@.base == base,
        t@.level == level as int,
        t@.entries == zero_entries(),
{
    let mut entries: Vec<u64> = Vec::new();
    let mut i: usize = 0;
    while i < TABLE_ENTRIES
        invariant
            i <= TABLE_ENTRIES,
            entries@.len() == i,
            forall|k: int| 0 <= k < i ==> entries@[k] == 0u64,
        decreases TABLE_ENTRIES - i,
    {
        entries.push(0);
        i = i + 1;
    }
    proof {
        assert(entries@ =~= zero_entries());
    }
    Table { base, level, entries }
}

/// Write entry `idx` of the table occupying `base`.
fn set_table_entry(tables: &mut Vec<Table>, base: u64, idx: usize, e: u64)
    requires
        wf_read(views_of(old(tables)@)),
        has_table(views_of(old(tables)@), base),
        idx < TABLE_ENTRIES,
    ensures
        views_of(final(tables)@) == written_tables(
            views_of(old(tables)@),
            table_index(views_of(old(tables)@), base),
            idx as int,
            e,
        ),
{
    let ghost vs = views_of(tables@);
    let n = tables.len();
    let mut i: usize = 0;
    loop
        invariant
            wf_read(vs),
            vs == views_of(tables@),
            has_table(vs, base),
            idx < TABLE_ENTRIES,
            n == tables@.len(),
            i <= n,
            forall|j: int| 0 <= j < i ==> (#[trigger] vs[j]).base != base,
        ensures
            vs == views_of(tables@),
            i < n,
            vs[i as int].base == base,
            forall|j: int| 0 <= j < i ==> (#[trigger] vs[j]).base != base,
        decreases n - i,
    {
        if i >= tables.len() {
            proof {
                assert(!has_table(vs, base));
            }
        }
        if tables[i].base == base {
            break;
        }
        i = i + 1;
    }
    proof {
        lemma_table_at(vs, i as int);
    }
    tables[i].entries[idx] = e;
    proof {
        assert(views_of(tables@) =~= written_tables(vs, i as int, idx as int, e));
    }
}

impl PageTables {
    /// Obtain the page-table tree: a root table, as the firmware leaves
    /// it, with nothing mapped. On the hardware this reads the table
    /// root register, and doing it twice would alias mutable table
    /// memory: it must be called exactly once.
    pub fn new(root: u64) -> (pt: PageTables)
        ensures
            pt.wf(),
            pt.root == root,
            pt.tables_view() == seq![(TableView { base: root, level: 4, entries: zero_entries() })],
            forall|va: u64| #[trigger] spec_translate(pt, va) == TranslateResult::NotMapped,
            forall|f: u64| f != root ==> #[trigger] frame_untracked(pt.tables_view(), f),
    {
        let t = zero_table(root, 4);
        let mut tables: Vec<Table> = Vec::new();
        tables.push(t);
        let pt = PageTables { root, tables };
        proof {
            let s = pt.tables_view();
            assert(s =~= seq![(TableView { base: root, level: 4, entries: zero_entries() })]);
            assert(s[0].base == root);
            lemma_table_at(s, 0);
            lemma_zero_entry_absent();
            assert forall|ti: int, j: int| !(#[trigger] is_intermediate_ptr(s, ti, j)) by {
                if 0 <= ti < s.len() && 0 <= j < TABLE_ENTRIES {
                    assert(s[ti].entries[j] == 0u64);
                }
            }
            assert forall|va: u64| #[trigger] spec_translate(pt, va) == TranslateResult::NotMapped by {
                lemma_walk_zero_table(s, root, va, 4);
            }
        }
        pt
    }
}

/// The result contract of finding or creating a child table: a
/// huge-page entry or an exhausted allocator fail it (and change
/// nothing); a present entry is followed as it is; an absent entry is
/// filled with the allocator's next frame, zeroed, one level down.
pub open spec fn ensure_child_post(
    old_pt: PageTables,
    new_pt: PageTables,
    old_rem: Seq<u64>,
    old_next: int,
    new_next: int,
    parent: u64,
    plevel: int,
    idx: int,
    r: Result<u64, MapToError>,
) -> bool {
    let s = old_pt.tables_view();
    let e = entry_at(s, parent, idx);
    &&& (r == Err::<u64, MapToError>(MapToError::ParentEntryHugePage)
        <==> entry_present(e) && entry_huge(e))
    &&& (r == Err::<u64, MapToError>(MapToError::FrameAllocationFailed)
        <==> !entry_present(e) && old_rem.len() == 0)
    &&& (r is Err ==> r == Err::<u64, MapToError>(MapToError::ParentEntryHugePage)
        || r == Err::<u64, MapToError>(MapToError::FrameAllocationFailed))
    &&& (r is Err ==> new_pt == old_pt)
    &&& (match r {
        Ok(b) => ({
            &&& (if entry_present(e) {
                b == entry_addr(e) && new_pt == old_pt && new_next == old_next
            } else {
                &&& old_rem.len() > 0
                &&& b == old_rem[0]
                &&& new_pt.tables_view() == created_tables(
                    s, table_index(s, parent), idx, b, plevel - 1)
                &&& new_next == old_next + 1
                &&& table_at(new_pt.tables_view(), b).entries == zero_entries()
            })
            &&& child_ok_post(s, new_pt.tables_view(), parent, idx, plevel, b)
        }),
        Err(_) => true,
    })
}

/// What holds of the tree once a child table stands under entry `idx`
/// of `parent`: the child is one level down, the entry points at it,
/// and no other slot or table level has changed.
pub open spec fn child_ok_post(
    s: Seq<TableView>,
    s2: Seq<TableView>,
    parent: u64,
    idx: int,
    plevel: int,
    b: u64,
) -> bool {
    &&& has_table(s2, b)
    &&& table_at(s2, b).level == plevel - 1
    &&& entry_present(entry_at(s2, parent, idx))
    &&& !entry_huge(entry_at(s2, parent, idx))
    &&& entry_addr(entry_at(s2, parent, idx)) == b
    &&& (forall|x: u64| #[trigger] has_table(s, x)
        ==> has_table(s2, x) && table_at(s2, x).level == table_at(s, x).level)
    &&& (forall|x: u64, y: int| has_table(s, x) && 0 <= y < TABLE_ENTRIES
        && (x != parent || y != idx)
        ==> #[trigger] entry_at(s2, x, y) == entry_at(s, x, y))
}

/// Find the child table under entry `idx` of table `parent`, creating
/// it from a fresh frame when the entry is absent.
#[verifier::rlimit(80)]
fn ensure_child(
    pt: &mut PageTables,
    fa: &mut BootInfoFrameAllocator,
    parent: u64,
    plevel: u8,
    idx: usize,
) -> (r: Result<u64, MapToError>)
    requires
        old(pt).wf(),
        old(fa).wf(),
        old(fa).next() + 2 < usize::MAX,
        frames_fresh(*old(fa), old(pt).tables_view()),
        has_table(old(pt).tables_view(), parent),
        table_at(old(pt).tables_view(), parent).level == plevel,
        2 <= plevel <= 4,
        idx < TABLE_ENTRIES,
    ensures
        final(pt).wf(),
        final(pt).root == old(pt).root,
        final(fa).wf(),
        final(fa).map() == old(fa).map(),
        old(fa).next() <= final(fa).next() <= old(fa).next() + 1,
        frames_fresh(*final(fa), final(pt).tables_view()),
        forall|va: u64| #[trigger] walk_from(final(pt).tables_view(), old(pt).root, va, 4)
            == walk_from(old(pt).tables_view(), old(pt).root, va, 4),
        forall|va: u64| walk_from(old(pt).tables_view(), old(pt).root, va, 4) is Frame
            ==> #[trigger] l1_slot(final(pt).tables_view(), old(pt).root, va, 4)
                == l1_slot(old(pt).tables_view(), old(pt).root, va, 4)
                && entry_at(
                    final(pt).tables_view(),
                    (l1_slot(old(pt).tables_view(), old(pt).root, va, 4)->Some_0).0,
                    (l1_slot(old(pt).tables_view(), old(pt).root, va, 4)->Some_0).1,
                ) == entry_at(
                    old(pt).tables_view(),
                    (l1_slot(old(pt).tables_view(), old(pt).root, va, 4)->Some_0).0,
                    (l1_slot(old(pt).tables_view(), old(pt).root, va, 4)->Some_0).1,
                ),
        ensure_child_post(
            *old(pt),
            *final(pt),
            old(fa).remaining_frames(),
            old(fa).next(),
            final(fa).next(),
            parent,
            plevel as int,
            idx as int,
            r,
        ),
{
    let ghost s0 = pt.tables_view();
    let ghost pi = table_index(s0, parent);
    proof {
        assert(0 <= pi < s0.len() && s0[pi].base == parent && table_at(s0, parent) == s0[pi]);
    }
    let e = match entry_lookup(&pt.tables, parent, idx) {
        None => {
            proof {
                assert(false);
            }
            0
        }
        Some(e) => e,
    };
    if e & ENTRY_PRESENT == ENTRY_PRESENT {
        if e & ENTRY_HUGE == ENTRY_HUGE {
            return Err(MapToError::ParentEntryHugePage);
        }
        let b = e & ENTRY_ADDR_MASK;
        proof {
            assert(is_intermediate_ptr(s0, pi, idx as int)) by {
                assert(s0[pi].level == plevel);
                assert(s0[pi].entries[idx as int] == e);
            }
            assert(has_table(s0, b) && table_at(s0, b).level == plevel - 1);
        }
        Ok(b)
    } else {
        match fa.allocate_frame() {
            None => {
                proof {
                    assert(old(fa).remaining_frames().len() == 0);
                }
                Err(MapToError::FrameAllocationFailed)
            }
            Some(f) => {
                proof {
                    let uf = usable_frames(old(fa).map());
                    let n0 = old(fa).next();
                    assert(n0 >= 0);
                    assert(n0 < uf.len());
                    assert(old(fa).remaining_frames() == uf.skip(n0));
                    assert(uf.skip(n0).len() == uf.len() - n0);
                    assert(old(fa).remaining_frames().len() > 0);
                    assert(uf.skip(n0)[0] == uf[n0]);
                    assert(f == uf[n0]);
                    assert(f == old(fa).remaining_frames()[0]);
                    assert(frame_untracked(s0, f));
                    assert(f as int % (PAGE_SIZE as int) == 0 && f < PHYS_LIMIT);
                }
                let t = zero_table(f, plevel - 1);
                pt.tables.push(t);
                proof {
                    let sp = s0.push(t@);
                    assert(views_of(pt.tables@) =~= sp);
                    assert(has_table(sp, parent)) by {
                        assert(sp[pi].base == parent);
                    }
                    assert(distinct_bases(sp)) by {
                        assert(forall|i: int| 0 <= i < s0.len() ==> sp[i] == s0[i]);
                        assert forall|i: int, j: int| 0 <= i < j < sp.len()
                            implies (#[trigger] sp[i]).base != (#[trigger] sp[j]).base by {
                            if j == s0.len() {
                                assert(has_table(s0, s0[i].base));
                            }
                        }
                    }
                    assert(wf_read(sp)) by {
                        assert(forall|i: int| 0 <= i < s0.len() ==> sp[i] == s0[i]);
                    }
                }
                set_table_entry(&mut pt.tables, parent, idx, f | ENTRY_PRESENT | ENTRY_WRITABLE);
                proof {
                    let sp = s0.push(t@);
                    lemma_table_at(sp, pi);
                    assert(views_of(pt.tables@) == written_tables(
                        sp, pi, idx as int, f | ENTRY_PRESENT | ENTRY_WRITABLE));
                    assert(views_of(pt.tables@) =~= created_tables(
                        s0, pi, idx as int, f, plevel - 1));
                    lemma_wf_create(s0, pi, idx as int, f);
                    lemma_lookup_created(s0, pi, idx as int, f, plevel - 1);
                    assert(pt.wf()) by {
                        assert(has_table(s0, old(pt).root));
                        assert(old(pt).root != f);
                        assert(table_at(pt.tables_view(), pt.root).level == 4) by {
                            if old(pt).root == parent {
                                assert(table_at(s0, parent).level == 4);
                                assert(table_at(pt.tables_view(), parent).level == s0[pi].level);
                            } else {
                                assert(table_at(pt.tables_view(), old(pt).root)
                                    == table_at(s0, old(pt).root));
                            }
                        }
                    }
                    assert forall|va: u64| #[trigger] walk_from(pt.tables_view(), old(pt).root, va, 4)
                        == walk_from(s0, old(pt).root, va, 4) by {
                        lemma_walk_create(s0, pi, idx as int, f, old(pt).root, va, 4);
                    }
                    assert forall|va: u64| walk_from(s0, old(pt).root, va, 4) is Frame
                        implies #[trigger] l1_slot(pt.tables_view(), old(pt).root, va, 4)
                            == l1_slot(s0, old(pt).root, va, 4)
                            && entry_at(
                                pt.tables_view(),
                                (l1_slot(s0, old(pt).root, va, 4)->Some_0).0,
                                (l1_slot(s0, old(pt).root, va, 4)->Some_0).1,
                            ) == entry_at(
                                s0,
                                (l1_slot(s0, old(pt).root, va, 4)->Some_0).0,
                                (l1_slot(s0, old(pt).root, va, 4)->Some_0).1,
                            ) by {
                        lemma_walk_create(s0, pi, idx as int, f, old(pt).root, va, 4);
                        lemma_walk_frame_leaf(s0, old(pt).root, va, 4);
                        let sl = l1_slot(s0, old(pt).root, va, 4)->Some_0;
                        // The rewritten slot held an absent entry; the walk's
                        // slot holds a present one, so it is another slot.
                        assert(sl.0 != parent || sl.1 != idx as int);
                    }
                    // The remaining frames are the old ones less the first,
                    // and stay fresh for the grown tree.
                    assert(fa.remaining_frames() =~= old(fa).remaining_frames().skip(1));
                    assert forall|k: int| 0 <= k < fa.remaining_frames().len()
                        implies frame_untracked(pt.tables_view(), #[trigger] fa.remaining_frames()[k]) by {
                        assert(fa.remaining_frames()[k] == old(fa).remaining_frames()[k + 1]);
                        assert(frame_untracked(s0, old(fa).remaining_frames()[k + 1]));
                        assert(old(fa).remaining_frames()[k + 1] != f);
                    }
                }
                Ok(f)
            }
        }
    }
}

/// Conversely: in a well-formed tree the mapping succeeds only for a
/// page whose walk ends unmapped.
pub proof fn lemma_outcome_ok_unmapped(pt: PageTables, page: u64, avail: int)
    requires
        pt.wf(),
        spec_map_outcome(pt, page, avail) == Ok::<(), MapToError>(()),
    ensures
        walk_from(pt.tables_view(), pt.root, page, 4) == Walk::NotMapped,
{
    let s = pt.tables_view();
    let root = pt.root;
    lemma_level_index_bound(page, 4);
    lemma_level_index_bound(page, 3);
    lemma_level_index_bound(page, 2);
    lemma_level_index_bound(page, 1);
    lemma_zero_entry_absent();
    let e4 = entry_at(s, root, level_index(page, 4));
    let ri = table_index(s, root);
    if entry_present(e4) {
        assert(!entry_huge(e4));
        assert(is_intermediate_ptr(s, ri, level_index(page, 4))) by {
            assert(s[ri] == table_at(s, root));
        }
        let b3 = entry_addr(e4);
        assert(has_table(s, b3) && table_at(s, b3).level == 3);
        let t3 = table_index(s, b3);
        assert(walk_from(s, root, page, 4) == walk_from(s, b3, page, 3));
        let e3 = entry_at(s, b3, level_index(page, 3));
        if entry_present(e3) {
            assert(!entry_huge(e3));
            assert(is_intermediate_ptr(s, t3, level_index(page, 3))) by {
                assert(s[t3] == table_at(s, b3));
            }
            let b2 = entry_addr(e3);
            assert(has_table(s, b2) && table_at(s, b2).level == 2);
            let t2 = table_index(s, b2);
            assert(walk_from(s, b3, page, 3) == walk_from(s, b2, page, 2));
            let e2 = entry_at(s, b2, level_index(page, 2));
            if entry_present(e2) {
                assert(!entry_huge(e2));
                assert(is_intermediate_ptr(s, t2, level_index(page, 2))) by {
                    assert(s[t2] == table_at(s, b2));
                }
                let b1 = entry_addr(e2);
                assert(has_table(s, b1));
                assert(walk_from(s, b2, page, 2) == walk_from(s, b1, page, 1));
                let e1 = entry_at(s, b1, level_index(page, 1));
                assert(e1 == 0);
                assert(walk_from(s, b1, page, 1) == Walk::NotMapped);
            }
        }
    }
}

/// A page whose walk already reaches a frame cannot be mapped again:
/// the attempt reports the occupied leaf slot.
pub proof fn lemma_outcome_of_already_mapped(pt: PageTables, page: u64, avail: int)
    requires
        pt.wf(),
        walk_from(pt.tables_view(), pt.root, page, 4) is Frame,
    ensures
        spec_map_outcome(pt, page, avail) == Err::<(), MapToError>(MapToError::PageAlreadyMapped),
{
    let s = pt.tables_view();
    let root = pt.root;
    assert(has_table(s, root));
    let e4 = entry_at(s, root, level_index(page, 4));
    assert(entry_present(e4) && !entry_huge(e4));
    let b3 = entry_addr(e4);
    assert(walk_from(s, root, page, 4) == walk_from(s, b3, page, 3));
    let e3 = entry_at(s, b3, level_index(page, 3));
    assert(entry_present(e3) && !entry_huge(e3));
    let b2 = entry_addr(e3);
    assert(walk_from(s, b3, page, 3) == walk_from(s, b2, page, 2));
    let e2 = entry_at(s, b2, level_index(page, 2));
    assert(entry_present(e2) && !entry_huge(e2));
    let b1 = entry_addr(e2);
    assert(walk_from(s, b2, page, 2) == walk_from(s, b1, page, 1));
    let e1 = entry_at(s, b1, level_index(page, 1));
    assert(entry_present(e1));
    assert(e1 != 0) by {
        lemma_zero_entry_absent();
    }
}

/// A walk that reaches a frame has a leaf slot, and that slot holds
/// the present entry the frame came from.
pub proof fn lemma_walk_frame_leaf(s: Seq<TableView>, base: u64, va: u64, level: int)
    requires
        walk_from(s, base, va, level) is Frame,
    ensures
        l1_slot(s, base, va, level) is Some,
        has_table(s, (l1_slot(s, base, va, level)->Some_0).0),
        0 <= (l1_slot(s, base, va, level)->Some_0).1 < TABLE_ENTRIES,
        entry_present(entry_at(
            s,
            (l1_slot(s, base, va, level)->Some_0).0,
            (l1_slot(s, base, va, level)->Some_0).1,
        )),
        walk_from(s, base, va, level) == Walk::Frame(entry_addr(entry_at(
            s,
            (l1_slot(s, base, va, level)->Some_0).0,
            (l1_slot(s, base, va, level)->Some_0).1,
        ))),
    decreases level,
{
    lemma_level_index_bound(va, 1);
    if level < 1 || !has_table(s, base) {
    } else {
        let e = entry_at(s, base, level_index(va, level));
        if !entry_present(e) || entry_huge(e) {
        } else if level == 1 {
            assert(l1_slot(s, base, va, level) == Some((base, level_index(va, 1))));
        } else {
            lemma_walk_frame_leaf(s, entry_addr(e), va, level - 1);
        }
    }
}

/// Walks fixed, translations fixed.
proof fn lemma_translate_from_walks(pt1: PageTables, pt2: PageTables)
    requires
        pt1.root == pt2.root,
        forall|va: u64| #[trigger] walk_from(pt2.tables_view(), pt2.root, va, 4)
            == walk_from(pt1.tables_view(), pt1.root, va, 4),
    ensures
        forall|va: u64| #[trigger] spec_translate(pt2, va) == spec_translate(pt1, va),
{
    assert forall|va: u64| #[trigger] spec_translate(pt2, va) == spec_translate(pt1, va) by {
        assert(walk_from(pt2.tables_view(), pt2.root, va, 4)
            == walk_from(pt1.tables_view(), pt1.root, va, 4));
    }
}

/// The page offset is below the page size.
proof fn lemma_page_offset_bound(va: u64)
    ensures
        0 <= page_offset(va) < 4096,
{
    assert(va & 0xfff < 4096) by (bit_vector);
}

impl PageTables {
    /// Install a present and writable mapping from the virtual page at
    /// `page` to the physical frame at `frame`, creating any missing
    /// intermediate tables from frames supplied by `fa`.
    ///
    /// On success every address of the page translates to the frame,
    /// and no other translation changes. The mapping fails when an
    /// entry on the path maps a huge page, when the leaf slot is
    /// already occupied, or when the frame allocator cannot supply a
    /// missing table; a failure leaves every translation as it was
    /// (tables already created are left in place, exactly as the
    /// kernel's mapper leaves them).
    #[verifier::rlimit(100)]
    pub fn map_to(
        &mut self,
        page: u64,
        frame: u64,
        fa: &mut BootInfoFrameAllocator,
    ) -> (r: Result<(), MapToError>)
        requires
            old(self).wf(),
            old(fa).wf(),
            old(fa).next() + 4 < usize::MAX,
            frames_fresh(*old(fa), old(self).tables_view()),
            page as int % (PAGE_SIZE as int) == 0,
            page < VIRT_LIMIT,
            frame as int % (PAGE_SIZE as int) == 0,
            frame < PHYS_LIMIT,
        ensures
            final(self).wf(),
            final(self).root == old(self).root,
            final(fa).wf(),
            final(fa).map() == old(fa).map(),
            old(fa).next() <= final(fa).next() <= old(fa).next() + 3,
            frames_fresh(*final(fa), final(self).tables_view()),
            r == spec_map_outcome(*old(self), page, old(fa).remaining_frames().len() as int),
            r is Ok ==> forall|va: u64| page_base(va) == page
                ==> #[trigger] spec_translate(*final(self), va)
                    == TranslateResult::Mapped((frame + page_offset(va)) as u64),
            r is Ok ==> forall|va: u64| va < VIRT_LIMIT && page_base(va) != page
                ==> #[trigger] spec_translate(*final(self), va) == spec_translate(*old(self), va),
            r is Err ==> forall|va: u64| #[trigger] spec_translate(*final(self), va)
                == spec_translate(*old(self), va),
            forall|va: u64| spec_translate(*old(self), va) is Mapped
                ==> #[trigger] spec_translate(*final(self), va) == spec_translate(*old(self), va)
                    && spec_leaf_entry(*final(self), va) == spec_leaf_entry(*old(self), va),
            r is Ok ==> forall|va: u64| page_base(va) == page
                ==> #[trigger] spec_leaf_entry(*final(self), va)
                    == Some(frame | ENTRY_PRESENT | ENTRY_WRITABLE),
    {
        proof {
            assert((page >> 39) & 0x1ff < 512 && (page >> 30) & 0x1ff < 512
                && (page >> 21) & 0x1ff < 512 && (page >> 12) & 0x1ff < 512) by (bit_vector);
        }
        let i4: usize = ((page >> 39) & 0x1ff) as usize;
        let i3: usize = ((page >> 30) & 0x1ff) as usize;
        let i2: usize = ((page >> 21) & 0x1ff) as usize;
        let i1: usize = ((page >> 12) & 0x1ff) as usize;
        let ghost s0 = self.tables_view();
        let ghost rem0 = old(fa).remaining_frames();
        let root = self.root;
        let ghost p4 = entry_present(entry_at(s0, root, i4 as int));

        // Level 3 table.
        let b3 = match ensure_child(self, fa, root, 4, i4) {
            Err(e) => {
                proof {
                    lemma_translate_from_walks(*old(self), *self);
                }
                return Err(e);
            }
            Ok(b) => b,
        };
        let ghost s1 = self.tables_view();
        let ghost rem1 = fa.remaining_frames();
        let ghost p3 = entry_present(entry_at(s1, b3, i3 as int));
        proof {
            if !p4 {
                assert(table_at(s1, b3).entries == zero_entries());
                lemma_zero_entry_absent();
                assert(!p3);
            }
        }

        // Level 2 table.
        let b2 = match ensure_child(self, fa, b3, 3, i3) {
            Err(e) => {
                proof {
                    lemma_translate_from_walks(*old(self), *self);
                    if e == MapToError::ParentEntryHugePage {
                        assert(p4 && s1 == s0);
                    } else {
                        assert(e == MapToError::FrameAllocationFailed);
                        assert(!p3 && rem1.len() == 0);
                        if p4 {
                            assert(s1 == s0 && rem1 == rem0);
                        } else {
                            assert(rem1 =~= rem0.skip(1));
                            assert(rem0.len() == 1);
                        }
                    }
                }
                return Err(e);
            }
            Ok(b) => b,
        };
        let ghost s2 = self.tables_view();
        let ghost rem2 = fa.remaining_frames();
        let ghost p2 = entry_present(entry_at(s2, b2, i2 as int));
        proof {
            if !p3 {
                assert(table_at(s2, b2).entries == zero_entries());
                lemma_zero_entry_absent();
                assert(!p2);
            }
            // The root slot for the page is untouched by the second step.
            assert(root != b3) by {
                assert(table_at(s1, root).level == 4);
                assert(table_at(s1, b3).level == 3);
            }
            assert(entry_at(s2, root, i4 as int) == entry_at(s1, root, i4 as int));
            assert(table_at(s2, root).level == 4);
        }

        // Level 1 table.
        let b1 = match ensure_child(self, fa, b2, 2, i2) {
            Err(e) => {
                proof {
                    lemma_translate_from_walks(*old(self), *self);
                    if e == MapToError::ParentEntryHugePage {
                        assert(p3 && s2 == s1);
                        assert(p4 && s1 == s0);
                    } else {
                        assert(e == MapToError::FrameAllocationFailed);
                        assert(!p2 && rem2.len() == 0);
                        if p4 && p3 {
                            assert(s2 == s0 && rem2 == rem0);
                        } else if p4 {
                            assert(s1 == s0 && rem1 == rem0);
                            assert(rem2 =~= rem1.skip(1));
                            assert(rem0.len() == 1);
                        } else {
                            assert(rem1 =~= rem0.skip(1));
                            assert(rem2 =~= rem1.skip(1));
                            assert(rem0.len() == 2);
                        }
                    }
                }
                return Err(e);
            }
            Ok(b) => b,
        };
        let ghost s3 = self.tables_view();
        let ghost rem3 = fa.remaining_frames();
        proof {
            // The slots of the page's path so far are untouched.
            assert(root != b2) by {
                assert(table_at(s2, root).level == 4);
                assert(table_at(s2, b2).level == 2);
            }
            assert(b3 != b2) by {
                assert(table_at(s2, b3).level == 3);
            }
            assert(entry_at(s3, root, i4 as int) == entry_at(s2, root, i4 as int));
            assert(entry_at(s3, b3, i3 as int) == entry_at(s2, b3, i3 as int));
            assert(table_at(s3, root).level == 4);
            assert(table_at(s3, b1).level == 1);
            if !p2 {
                assert(table_at(s3, b1).entries == zero_entries());
            }
        }

        // Leaf entry.
        let e1 = match entry_lookup(&self.tables, b1, i1) {
            None => {
                proof {
                    assert(false);
                }
                0
            }
            Some(e) => e,
        };
        if e1 != 0 {
            proof {
                lemma_zero_entry_absent();
                // A created leaf table is zeroed, so an occupied slot
                // means no table was created: the tree is as it was.
                assert(p2) by {
                    if !p2 {
                        assert(e1 == 0u64);
                    }
                }
                assert(s3 == s2 && b1 == entry_addr(entry_at(s2, b2, i2 as int)));
                assert(p3) by {
                    if !p3 {
                        assert(!p2);
                    }
                }
                assert(s2 == s1 && b2 == entry_addr(entry_at(s1, b3, i3 as int)));
                assert(p4) by {
                    if !p4 {
                        assert(!p3);
                    }
                }
                assert(s1 == s0 && b3 == entry_addr(entry_at(s0, root, i4 as int)));
                assert(spec_map_outcome(*old(self), page, rem0.len() as int)
                    == Err::<(), MapToError>(MapToError::PageAlreadyMapped));
                lemma_translate_from_walks(*old(self), *self);
            }
            return Err(MapToError::PageAlreadyMapped);
        }
        let le = frame | ENTRY_PRESENT | ENTRY_WRITABLE;
        proof {
            assert(le & ENTRY_PRESENT == ENTRY_PRESENT && le & ENTRY_HUGE != ENTRY_HUGE
                && le & ENTRY_ADDR_MASK == frame && frame <= 0x000f_ffff_ffff_f000) by (bit_vector)
                requires
                    le == frame | ENTRY_PRESENT | ENTRY_WRITABLE,
                    frame as int % (PAGE_SIZE as int) == 0,
                    frame < PHYS_LIMIT,
                    ENTRY_PRESENT == 1u64,
                    ENTRY_WRITABLE == 2u64,
                    ENTRY_HUGE == 0x80u64,
                    ENTRY_ADDR_MASK == 0x000f_ffff_ffff_f000u64,
                    PAGE_SIZE == 4096u64,
                    PHYS_LIMIT == 0x0010_0000_0000_0000u64,
            ;
        }
        let ghost pi1 = table_index(s3, b1);
        proof {
            assert(0 <= pi1 < s3.len() && s3[pi1].base == b1 && s3[pi1] == table_at(s3, b1));
        }
        set_table_entry(&mut self.tables, b1, i1, le);
        proof {
            let sf = written_tables(s3, pi1, i1 as int, le);
            assert(self.tables_view() == sf);
            lemma_wf_leaf(s3, pi1, i1 as int, le);
            assert(self.wf()) by {
                assert(root != b1) by {
                    assert(table_at(s3, root).level == 4);
                }
                lemma_lookup_written(s3, pi1, i1 as int, le);
                assert(table_at(sf, root) == table_at(s3, root));
            }
            // The frames still to come stay fresh.
            assert forall|k: int| 0 <= k < rem3.len()
                implies frame_untracked(sf, #[trigger] rem3[k]) by {
                assert(frame_untracked(s3, rem3[k]));
            }
            // Every walk of the page's path in the pre-write tree.
            assert(l1_slot(s3, root, page, 4) == Some((b1, i1 as int))) by {
                assert(l1_slot(s3, root, page, 4) == l1_slot(s3, b3, page, 3));
                assert(l1_slot(s3, b3, page, 3) == l1_slot(s3, b2, page, 2));
                assert(l1_slot(s3, b2, page, 2) == l1_slot(s3, b1, page, 1));
            }
            // The leaf write maps exactly the slot's walks.
            assert forall|va: u64| #[trigger] walk_from(sf, root, va, 4)
                == (if l1_slot(s3, root, va, 4) == Some((b1, i1 as int)) {
                    Walk::Frame(entry_addr(le))
                } else {
                    walk_from(s3, root, va, 4)
                }) by {
                lemma_walk_leaf(s3, pi1, i1 as int, le, root, va, 4);
            }
            // Addresses of the page itself.
            assert forall|va: u64| page_base(va) == page
                implies #[trigger] spec_translate(*self, va)
                    == TranslateResult::Mapped((frame + page_offset(va)) as u64) by {
                lemma_same_page_indices(va, page);
                lemma_page_offset_bound(va);
                assert(l1_slot(s3, root, va, 4) == l1_slot(s3, b3, va, 3));
                assert(l1_slot(s3, b3, va, 3) == l1_slot(s3, b2, va, 2));
                assert(l1_slot(s3, b2, va, 2) == l1_slot(s3, b1, va, 1));
                assert(l1_slot(s3, root, va, 4) == Some((b1, i1 as int)));
                assert(walk_from(sf, root, va, 4) == Walk::Frame(frame));
            }
            // All other addresses in the low half.
            assert(page_base(page) == page) by {
                assert(page & 0xffff_ffff_ffff_f000 == page) by (bit_vector)
                    requires
                        page as int % 4096 == 0,
                ;
            }
            assert forall|va: u64| va < VIRT_LIMIT && page_base(va) != page
                implies #[trigger] spec_translate(*self, va) == spec_translate(*old(self), va) by {
                if l1_slot(s3, root, va, 4) == Some((b1, i1 as int)) {
                    lemma_l1_slot_idx(s3, root, va, 4);
                    lemma_path_unique(s3, root, b3, b2, b1, i4 as int, i3 as int, i2 as int, va);
                    lemma_same_indices_same_page(va, page);
                }
                assert(walk_from(sf, root, va, 4) == walk_from(s3, root, va, 4));
                assert(walk_from(s3, root, va, 4) == walk_from(s0, root, va, 4));
            }
            // Translations that stood before the call stand unchanged,
            // with their leaf entries: their walks never read the
            // rewritten slots, which were all absent.
            assert forall|va: u64| spec_translate(*old(self), va) is Mapped
                implies #[trigger] spec_translate(*self, va) == spec_translate(*old(self), va)
                    && spec_leaf_entry(*self, va) == spec_leaf_entry(*old(self), va) by {
                assert(walk_from(s0, root, va, 4) is Frame);
                assert(walk_from(s3, root, va, 4) == walk_from(s0, root, va, 4));
                lemma_walk_frame_leaf(s3, root, va, 4);
                let sl = l1_slot(s3, root, va, 4)->Some_0;
                lemma_zero_entry_absent();
                assert(sl.0 != b1 || sl.1 != i1 as int);
                lemma_walk_leaf(s3, pi1, i1 as int, le, root, va, 4);
                assert(l1_slot(s3, root, va, 4) == l1_slot(s0, root, va, 4));
                assert(entry_at(sf, sl.0, sl.1) == entry_at(s3, sl.0, sl.1)) by {
                    assert(has_table(s3, sl.0));
                    assert(s3[pi1].base == b1);
                }
                assert(l1_slot(s3, root, va, 4) != Some((b1, i1 as int)));
                assert(walk_from(sf, root, va, 4) == walk_from(s3, root, va, 4));
            }
            // The page's leaf entry carries the present and writable
            // bits over the mapped frame.
            assert forall|va: u64| page_base(va) == page
                implies #[trigger] spec_leaf_entry(*self, va)
                    == Some(frame | ENTRY_PRESENT | ENTRY_WRITABLE) by {
                lemma_same_page_indices(va, page);
                lemma_walk_leaf(s3, pi1, i1 as int, le, root, page, 4);
                assert(l1_slot(sf, root, page, 4) == Some((b1, i1 as int)));
                lemma_l1_slot_same_indices(sf, root, va, page, 4);
                assert(entry_at(sf, b1, i1 as int) == le);
            }
            // The outcome over the tree as it stood before the call.
            assert(Ok::<(), MapToError>(())
                == spec_map_outcome(*old(self), page, rem0.len() as int)) by {
                lemma_zero_entry_absent();
                if p4 && p3 && p2 {
                    assert(s3 == s0);
                    assert(b3 == entry_addr(entry_at(s0, root, i4 as int)));
                    assert(b2 == entry_addr(entry_at(s0, b3, i3 as int)));
                    assert(b1 == entry_addr(entry_at(s0, b2, i2 as int)));
                    assert(entry_at(s0, b1, i1 as int) == 0);
                } else if p4 && p3 {
                    assert(s2 == s0 && rem2 == rem0);
                    assert(rem2.len() >= 1);
                } else if p4 {
                    assert(s1 == s0 && rem1 == rem0);
                    assert(rem1.len() >= 1 && rem2 =~= rem1.skip(1) && rem2.len() >= 1);
                    assert(rem0.len() >= 2);
                } else {
                    assert(rem0.len() >= 1 && rem1 =~= rem0.skip(1));
                    assert(rem1.len() >= 1 && rem2 =~= rem1.skip(1));
                    assert(rem2.len() >= 1);
                    assert(rem0.len() >= 3);
                }
            }
        }
        Ok(())
    }
}

/// In a well-formed tree, a page whose walk ends unmapped can always
/// be mapped once the allocator holds three frames: nothing on its
/// path is huge, and its leaf slot (if its leaf table exists at all)
/// is empty.
pub proof fn lemma_outcome_of_unmapped(pt: PageTables, page: u64, avail: int)
    requires
        pt.wf(),
        walk_from(pt.tables_view(), pt.root, page, 4) == Walk::NotMapped,
        avail >= 3,
    ensures
        spec_map_outcome(pt, page, avail) == Ok::<(), MapToError>(()),
{
    let s = pt.tables_view();
    let root = pt.root;
    lemma_level_index_bound(page, 4);
    lemma_level_index_bound(page, 3);
    lemma_level_index_bound(page, 2);
    lemma_level_index_bound(page, 1);
    let e4 = entry_at(s, root, level_index(page, 4));
    let ri = table_index(s, root);
    if entry_present(e4) {
        assert(!entry_huge(e4));
        assert(is_intermediate_ptr(s, ri, level_index(page, 4))) by {
            assert(s[ri] == table_at(s, root));
        }
        let b3 = entry_addr(e4);
        assert(has_table(s, b3) && table_at(s, b3).level == 3);
        let t3 = table_index(s, b3);
        assert(walk_from(s, b3, page, 3) == Walk::NotMapped);
        let e3 = entry_at(s, b3, level_index(page, 3));
        if entry_present(e3) {
            assert(!entry_huge(e3));
            assert(is_intermediate_ptr(s, t3, level_index(page, 3))) by {
                assert(s[t3] == table_at(s, b3));
            }
            let b2 = entry_addr(e3);
            assert(has_table(s, b2) && table_at(s, b2).level == 2);
            let t2 = table_index(s, b2);
            assert(walk_from(s, b2, page, 2) == Walk::NotMapped);
            let e2 = entry_at(s, b2, level_index(page, 2));
            if entry_present(e2) {
                assert(!entry_huge(e2));
                assert(is_intermediate_ptr(s, t2, level_index(page, 2))) by {
                    assert(s[t2] == table_at(s, b2));
                }
                let b1 = entry_addr(e2);
                assert(has_table(s, b1) && table_at(s, b1).level == 1);
                let t1 = table_index(s, b1);
                assert(walk_from(s, b1, page, 1) == Walk::NotMapped);
                let e1 = entry_at(s, b1, level_index(page, 1));
                assert(!entry_present(e1));
                assert(e1 == 0) by {
                    assert(s[t1] == table_at(s, b1));
                    assert(s[t1].entries[level_index(page, 1)] == e1);
                }
            }
        }
    }
}

} // verus!
