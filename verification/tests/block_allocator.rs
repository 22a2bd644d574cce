use scos::fixed_size_block::FixedSizeBlockAllocator;
use scos::fixed_size_block::list_index;
use scos::fixed_size_block::block_size;
use scos::fixed_size_block::BLOCK_COUNT;

#[test]
fn class_table_values() {
    let expected: [usize; 9] = [8, 16, 32, 64, 128, 256, 512, 1024, 2048];
    assert_eq!(BLOCK_COUNT, 9);
    let mut i: usize = 0;
    while i < BLOCK_COUNT {
        assert_eq!(block_size(i), expected[i]);
        i += 1;
    }
}

#[test]
fn class_selection_minimal() {
    // The selected class is the first one at least as large as
    // max(size, align).
    assert_eq!(list_index(1, 1), Some(0));
    assert_eq!(list_index(8, 1), Some(0));
    assert_eq!(list_index(9, 1), Some(1));
    assert_eq!(list_index(24, 8), Some(2));
    assert_eq!(list_index(20, 4), Some(2));
    assert_eq!(list_index(1, 64), Some(3));
    assert_eq!(list_index(2048, 1), Some(8));
    assert_eq!(list_index(2049, 1), None);
    assert_eq!(list_index(4096, 4096), None);
    assert_eq!(list_index(1, 4096), None);
}

#[test]
fn fresh_block_from_fallback() {
    // allocate(24, 8): class 32, free list empty, so the fallback
    // supplies a fresh 32-byte, 32-aligned block.
    let mut a = FixedSizeBlockAllocator::new();
    a.init(0x10000, 0x4000);
    let p = a.allocate(24, 8);
    assert_eq!(p, Some(0x10000));
    assert_eq!(p.unwrap() % 32, 0);
}

#[test]
fn free_then_reuse_same_class() {
    // Freeing a class block and allocating from the same class again
    // returns the same address, without touching the fallback.
    let mut a = FixedSizeBlockAllocator::new();
    a.init(0x10000, 0x4000);
    let p = a.allocate(24, 8).unwrap();
    assert_eq!(p, 0x10000);
    a.deallocate(p, 24, 8);
    // Same class (32) from different size/align.
    let q = a.allocate(20, 4).unwrap();
    assert_eq!(q, p);
    // The fallback was not touched again: a second fresh block of the
    // class comes right after the first one.
    let r = a.allocate(32, 32).unwrap();
    assert_eq!(r, 0x10020);
}

#[test]
fn oversized_request_bypasses_classes() {
    // allocate(4096, 4096) exceeds the largest class and goes straight
    // to the fallback allocator.
    let mut a = FixedSizeBlockAllocator::new();
    a.init(0x10000, 0x4000);
    let p = a.allocate(24, 8).unwrap();
    assert_eq!(p, 0x10000);
    let q = a.allocate(4096, 4096).unwrap();
    assert_eq!(q, 0x11000);
    assert_eq!(q % 4096, 0);
    // Free lists were never involved: freeing the big block and asking
    // again returns the same range from the fallback.
    a.deallocate(q, 4096, 4096);
    let r = a.allocate(4096, 4096).unwrap();
    assert_eq!(r, q);
}

#[test]
fn exhaustion_returns_none_and_mutates_nothing() {
    // A request larger than the remaining fallback capacity fails
    // deterministically and leaves the allocator as it was.
    let mut a = FixedSizeBlockAllocator::new();
    a.init(0x10000, 0x1000);
    assert_eq!(a.allocate(8192, 1), None);
    assert_eq!(a.allocate(8192, 1), None);
    // The whole window is still intact.
    let p = a.allocate(4096, 1).unwrap();
    assert_eq!(p, 0x10000);
}

#[test]
fn uninitialised_allocator_fails_every_request() {
    let mut a = FixedSizeBlockAllocator::new();
    assert_eq!(a.allocate(8, 8), None);
    assert_eq!(a.allocate(4096, 4096), None);
}

#[test]
fn class_blocks_padded_to_class_size() {
    // Blocks of one class all have the class's size: consecutive fresh
    // 8-byte requests are 8 apart.
    let mut a = FixedSizeBlockAllocator::new();
    a.init(0x20000, 0x1000);
    assert_eq!(a.allocate(1, 1), Some(0x20000));
    assert_eq!(a.allocate(5, 1), Some(0x20008));
    assert_eq!(a.allocate(8, 8), Some(0x20010));
    // A 64-byte class block lands on the next 64-aligned address.
    assert_eq!(a.allocate(33, 1), Some(0x20040));
}

#[test]
fn freed_fallback_range_coalesces() {
    let mut a = FixedSizeBlockAllocator::new();
    a.init(0x30000, 0x3000);
    let p = a.allocate(4096, 1).unwrap();
    let q = a.allocate(4096, 1).unwrap();
    let r = a.allocate(4096, 1).unwrap();
    assert_eq!((p, q, r), (0x30000, 0x31000, 0x32000));
    assert_eq!(a.allocate(4096, 1), None);
    // Release the middle range, then its neighbours: the ranges must
    // coalesce back into one window that can serve a full-size request.
    a.deallocate(q, 4096, 1);
    a.deallocate(p, 4096, 1);
    a.deallocate(r, 4096, 1);
    let again = a.allocate(12288, 1).unwrap();
    assert_eq!(again, 0x30000);
}
