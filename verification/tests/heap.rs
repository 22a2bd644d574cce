use scos::memory::BootInfoFrameAllocator;
use scos::memory::MemoryRegion;
use scos::memory::PAGE_SIZE;
use scos::paging::PageTables;
use scos::paging::Table;
use scos::paging::TranslateResult;
use scos::paging::MapToError;
use scos::paging::translate_addr;
use scos::allocator::init_heap;
use scos::allocator::HEAP_START;
use scos::allocator::HEAP_SIZE;
use scos::fixed_size_block::FixedSizeBlockAllocator;

fn frames_at(start: u64, count: u64) -> BootInfoFrameAllocator {
    let map = vec![MemoryRegion { start, end: start + count * PAGE_SIZE, usable: true }];
    BootInfoFrameAllocator::init(map)
}

#[test]
fn fresh_tables_translate_nothing() {
    let pt = PageTables::new(0x1000);
    assert_eq!(translate_addr(&pt, 0), TranslateResult::NotMapped);
    assert_eq!(translate_addr(&pt, HEAP_START), TranslateResult::NotMapped);
    assert_eq!(translate_addr(&pt, 0x7fff_ffff_ffff), TranslateResult::NotMapped);
}

#[test]
fn heap_fully_mapped_after_init() {
    let mut pt = PageTables::new(0x1000);
    let mut fa = frames_at(0x200000, 64);
    let mut alloc = FixedSizeBlockAllocator::new();
    let hi = init_heap(&mut pt, &mut fa, &mut alloc).unwrap();
    assert_eq!(hi.start_virt_addr, HEAP_START);
    assert_eq!(hi.start_phys_addr, 0x200000);
    assert_eq!(hi.size, HEAP_SIZE);
    // Every page of the window translates; the leaf frames are the
    // ones the allocator handed out for the pages, in order.
    assert_eq!(translate_addr(&pt, HEAP_START), TranslateResult::Mapped(0x200000));
    assert_eq!(translate_addr(&pt, HEAP_START + 0x234), TranslateResult::Mapped(0x200234));
    assert_eq!(translate_addr(&pt, HEAP_START + 0x1234), TranslateResult::Mapped(0x204234));
    assert_eq!(translate_addr(&pt, HEAP_START + 0x2fff), TranslateResult::Mapped(0x205fff));
    assert_eq!(translate_addr(&pt, HEAP_START + HEAP_SIZE - 1), TranslateResult::Mapped(0x2057ff));
    // Just past the window's last page nothing is mapped.
    assert_eq!(translate_addr(&pt, HEAP_START + 3 * PAGE_SIZE), TranslateResult::NotMapped);
    assert_eq!(translate_addr(&pt, 0), TranslateResult::NotMapped);
    // The block allocator owns the window now.
    assert_eq!(alloc.allocate(24, 8), Some(HEAP_START));
}

#[test]
fn init_heap_without_frames_fails() {
    let mut pt = PageTables::new(0x1000);
    let mut fa = BootInfoFrameAllocator::init(Vec::new());
    let mut alloc = FixedSizeBlockAllocator::new();
    let r = init_heap(&mut pt, &mut fa, &mut alloc);
    assert_eq!(r, Err(MapToError::FrameAllocationFailed));
    // The block allocator was not initialised.
    assert_eq!(alloc.allocate(8, 8), None);
}

#[test]
fn init_heap_with_too_few_frames_fails() {
    // Three frames cover the first page's tables and leaf only
    // partially: the first page needs a leaf and three tables.
    let mut pt = PageTables::new(0x1000);
    let mut fa = frames_at(0x200000, 3);
    let mut alloc = FixedSizeBlockAllocator::new();
    let r = init_heap(&mut pt, &mut fa, &mut alloc);
    assert_eq!(r, Err(MapToError::FrameAllocationFailed));
    assert_eq!(alloc.allocate(8, 8), None);
}

#[test]
fn conflicting_window_page_fails_without_rollback() {
    // One heap page is already mapped before initialisation: the run
    // fails reporting the conflict, the pages mapped before the
    // failure stay mapped (no rollback), and the block allocator is
    // left untouched.
    let mut pt = PageTables::new(0x1000);
    let mut fa = frames_at(0x200000, 64);
    let p1 = HEAP_START + PAGE_SIZE;
    assert_eq!(pt.map_to(p1, 0x600000, &mut fa), Ok(()));
    let mut alloc = FixedSizeBlockAllocator::new();
    let r = init_heap(&mut pt, &mut fa, &mut alloc);
    assert_eq!(r, Err(MapToError::PageAlreadyMapped));
    // The first page was mapped before the conflict and stays mapped.
    assert!(matches!(translate_addr(&pt, HEAP_START), TranslateResult::Mapped(_)));
    // The conflicting page keeps its old mapping.
    assert_eq!(translate_addr(&pt, p1), TranslateResult::Mapped(0x600000));
    // The block allocator was never initialised.
    assert_eq!(alloc.allocate(8, 8), None);
}

#[test]
fn mapping_twice_reports_already_mapped() {
    let mut pt = PageTables::new(0x1000);
    let mut fa = frames_at(0x200000, 64);
    let mut alloc = FixedSizeBlockAllocator::new();
    init_heap(&mut pt, &mut fa, &mut alloc).unwrap();
    let r = pt.map_to(HEAP_START, 0x300000, &mut fa);
    assert_eq!(r, Err(MapToError::PageAlreadyMapped));
    // The old mapping stands.
    assert_eq!(translate_addr(&pt, HEAP_START), TranslateResult::Mapped(0x200000));
}

#[test]
fn map_to_then_translate_round_trip() {
    let mut pt = PageTables::new(0x5000);
    let mut fa = frames_at(0x400000, 8);
    let page: u64 = 0x7000_0000_0000 - PAGE_SIZE;
    assert_eq!(pt.map_to(page, 0x400000, &mut fa), Ok(()));
    assert_eq!(translate_addr(&pt, page), TranslateResult::Mapped(0x400000));
    assert_eq!(translate_addr(&pt, page + 0xabc), TranslateResult::Mapped(0x400abc));
    assert_eq!(translate_addr(&pt, page - 1), TranslateResult::NotMapped);
}

#[test]
fn huge_parent_entry_is_unsupported() {
    // A root entry with the huge-page bit: translation reports the
    // unsupported condition, and mapping under it fails.
    let mut entries = vec![0u64; 512];
    entries[0] = 0x200000 | 0x80 | 0x3;
    let root_table = Table { base: 0x1000, level: 4, entries };
    let mut pt = PageTables { root: 0x1000, tables: vec![root_table] };
    assert_eq!(translate_addr(&pt, 0), TranslateResult::Unsupported);
    let mut fa = frames_at(0x500000, 8);
    assert_eq!(pt.map_to(0, 0x500000, &mut fa), Err(MapToError::ParentEntryHugePage));
}

#[test]
fn dangling_table_pointer_translates_as_unmapped() {
    // A present entry pointing at a frame no table occupies ends the
    // walk unmapped.
    let mut entries = vec![0u64; 512];
    entries[0] = 0x9000 | 0x3;
    let root_table = Table { base: 0x1000, level: 4, entries };
    let pt = PageTables { root: 0x1000, tables: vec![root_table] };
    assert_eq!(translate_addr(&pt, 0), TranslateResult::NotMapped);
}
