use scos::memory::BootInfoFrameAllocator;
use scos::memory::MemoryRegion;
use scos::memory::PAGE_SIZE;

fn region(start: u64, frames: u64, usable: bool) -> MemoryRegion {
    MemoryRegion { start, end: start + frames * PAGE_SIZE, usable }
}

#[test]
fn sixteen_distinct_frames_then_exhausted() {
    // One usable region of 16 frames: 16 distinct, 4096-stride
    // addresses, then exhaustion.
    let map = vec![region(0x100000, 16, true)];
    let mut fa = BootInfoFrameAllocator::init(map);
    let mut seen: Vec<u64> = Vec::new();
    for i in 0..16u64 {
        let f = fa.allocate_frame().unwrap();
        assert_eq!(f, 0x100000 + i * PAGE_SIZE);
        assert!(!seen.contains(&f));
        seen.push(f);
    }
    assert_eq!(fa.allocate_frame(), None);
    assert_eq!(fa.allocate_frame(), None);
}

#[test]
fn unusable_regions_are_skipped() {
    let map = vec![
        region(0x1000, 2, false),
        region(0x10000, 2, true),
        region(0x20000, 1, false),
        region(0x30000, 1, true),
    ];
    let mut fa = BootInfoFrameAllocator::init(map);
    assert_eq!(fa.allocate_frame(), Some(0x10000));
    assert_eq!(fa.allocate_frame(), Some(0x11000));
    assert_eq!(fa.allocate_frame(), Some(0x30000));
    assert_eq!(fa.allocate_frame(), None);
}

#[test]
fn useable_frames_lists_the_map_in_order() {
    let map = vec![
        region(0x40000, 2, true),
        region(0x80000, 0, true),
        region(0x90000, 1, true),
    ];
    let fa = BootInfoFrameAllocator::init(map);
    let frames = fa.useable_frames();
    assert_eq!(frames, vec![0x40000, 0x41000, 0x90000]);
}

#[test]
fn empty_map_is_exhausted_at_once() {
    let mut fa = BootInfoFrameAllocator::init(Vec::new());
    assert_eq!(fa.allocate_frame(), None);
    assert_eq!(fa.useable_frames(), Vec::<u64>::new());
}
