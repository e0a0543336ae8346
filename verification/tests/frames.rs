use reality_os::frames::{FrameAllocator, MemRegion, FRAME_SIZE};
use reality_os::heap::KernelHeap;
use reality_os::memtest::{begin_mem_selftest, finish_mem_selftest};

fn region(start: u64, end: u64, usable: bool) -> MemRegion {
    MemRegion { start_frame_number: start, end_frame_number: end, usable }
}

#[test]
fn empty_allocator_has_nothing() {
    let mut a = FrameAllocator::empty();
    assert_eq!(a.allocate_frame(), None);
    assert_eq!(a.allocate_frames(3), None);
    let r = a.report_base();
    assert_eq!((r.regions, r.usable_regions, r.usable_frames, r.allocated), (0, 0, 0, 0));
}

#[test]
fn frames_come_in_map_order_skipping_unusable_regions() {
    let map = [region(0, 2, false), region(10, 12, true), region(12, 12, true), region(20, 21, true)];
    let mut a = FrameAllocator::from_memory_map(&map, 0);
    let r = a.report_base();
    assert_eq!(r.regions, 4);
    assert_eq!(r.usable_regions, 2);
    assert_eq!(r.usable_frames, 3);
    assert_eq!(r.total_frames_seen, 5);
    assert_eq!(a.allocate_frame(), Some(10));
    assert_eq!(a.allocate_frame(), Some(11));
    assert_eq!(a.allocate_frame(), Some(20));
    assert_eq!(a.allocate_frame(), None);
    assert_eq!(a.allocate_frame(), None);
    let r = a.report_base();
    assert_eq!(r.allocated, 3);
    assert_eq!(r.free_remaining, 0);
}

#[test]
fn block_allocation_skips_runs_that_are_too_short() {
    let map = [region(5, 8, true), region(100, 110, true)];
    let mut a = FrameAllocator::from_memory_map(&map, 0);
    assert_eq!(a.allocate_frame(), Some(5));
    assert_eq!(a.allocate_frames(4), Some(100));
    // The rest of the first run was abandoned.
    assert_eq!(a.allocate_frame(), Some(104));
    assert_eq!(a.allocate_frames(0), Some(0));
    assert_eq!(a.allocate_frames(6), None);
    assert_eq!(a.report_base().allocated, 6);
}

#[test]
fn only_the_first_64_usable_regions_become_runs() {
    let map: Vec<MemRegion> = (0..70u64).map(|i| region(i * 10, i * 10 + 1, true)).collect();
    let mut a = FrameAllocator::from_memory_map(&map, 0);
    let r = a.report_base();
    assert_eq!(r.usable_regions, 70);
    assert_eq!(r.usable_frames, 70);
    let mut got = Vec::new();
    while let Some(f) = a.allocate_frame() {
        got.push(f);
    }
    assert_eq!(got.len(), 64);
    assert_eq!(got[63], 630);
    assert_eq!(a.report_base().free_remaining, 6);
}

#[test]
fn frame_counts_saturate() {
    let map = [region(0, u64::MAX, true), region(0, 10, false)];
    let a = FrameAllocator::from_memory_map(&map, 0);
    let r = a.report_base();
    assert_eq!(r.usable_frames, u64::MAX);
    assert_eq!(r.total_frames_seen, u64::MAX);
}

#[test]
fn frame_to_virt_adds_the_window_offset() {
    let a = FrameAllocator::from_memory_map(&[region(1, 2, true)], 0xffff_8000_0000_0000);
    assert_eq!(a.frame_to_virt(3), 3 * FRAME_SIZE + 0xffff_8000_0000_0000);
}

#[test]
fn heap_bumps_with_alignment() {
    let a = FrameAllocator::from_memory_map(&[region(0, 100, true)], 0x1000_0000);
    let mut h = KernelHeap::from_frames(&a, 2, 1);
    assert_eq!(h.base_phys(), 2 * 4096);
    assert_eq!(h.capacity_bytes(), 4096);
    let base = 0x1000_0000 + 2 * 4096;
    assert_eq!(h.allocate(3, 1), Some(base));
    assert_eq!(h.used_bytes(), 3);
    assert_eq!(h.allocate(8, 8), Some(base + 8));
    assert_eq!(h.allocate(1, 64), Some(base + 64));
    assert_eq!(h.used_bytes(), 65);
    assert_eq!(h.allocate(0, 8), None);
    assert_eq!(h.allocate(5000, 8), None);
    assert_eq!(h.used_bytes(), 65);
    assert_eq!(h.allocate(4096 - 72, 8), Some(base + 72));
    assert_eq!(h.allocate(1, 8), None);
}

#[test]
fn empty_heap_refuses_everything() {
    let mut h = KernelHeap::empty();
    assert_eq!(h.allocate(1, 8), None);
    assert_eq!(h.capacity_bytes(), 0);
}

fn test_map() -> Vec<MemRegion> {
    vec![region(0, 1, false), region(1, 10, true), region(256, 512, true)]
}

#[test]
fn mem_selftest_without_window() {
    let t = begin_mem_selftest(&test_map(), 0);
    assert_eq!(t.got, 16);
    assert_eq!(t.first, 1);
    assert_eq!(t.touched[..9], [1, 2, 3, 4, 5, 6, 7, 8, 9]);
    assert_eq!(t.touched[9..], [256, 257, 258, 259, 260, 261, 262]);
    assert_eq!(t.heap_start, Some(263));
    assert!(t.heap.is_none());
    let (ok, rep, first) = finish_mem_selftest(&t, true, false);
    assert!(ok);
    assert_eq!(first, 1);
    assert_eq!(rep.allocated, 48);
    assert_eq!(rep.usable_frames, 265);
    assert_eq!(rep.free_remaining, 217);
    assert_eq!(rep.heap_base_phys, 263 * 4096);
    assert_eq!(rep.heap_bytes, 32 * 4096);
    assert_eq!(rep.heap_used, 0);
    assert!(!rep.heap_write_ok);
}

#[test]
fn mem_selftest_with_window_needs_the_heap_check() {
    let t = begin_mem_selftest(&test_map(), 0x8000_0000);
    let h = t.heap.as_ref().unwrap();
    assert_eq!(h.base_phys(), 263 * 4096);
    assert_eq!(h.capacity_bytes(), 32 * 4096);
    assert!(finish_mem_selftest(&t, true, true).0);
    assert!(!finish_mem_selftest(&t, true, false).0);
    assert!(!finish_mem_selftest(&t, false, true).0);
    let (_, rep, _) = finish_mem_selftest(&t, true, true);
    assert!(rep.heap_write_ok);
}

#[test]
fn mem_selftest_fails_on_a_small_map() {
    let t = begin_mem_selftest(&[region(1, 20, true)], 0);
    assert_eq!(t.got, 16);
    assert_eq!(t.heap_start, None);
    let (ok, rep, _) = finish_mem_selftest(&t, true, true);
    assert!(!ok);
    assert_eq!(rep.allocated, 16);
    assert_eq!(rep.heap_bytes, 0);
}

#[test]
fn disjoint_unsorted_runs_never_repeat_a_frame() {
    let map = [region(100, 103, true), region(10, 12, true)];
    let mut a = FrameAllocator::from_memory_map(&map, 0);
    let mut got = Vec::new();
    while let Some(f) = a.allocate_frame() {
        got.push(f);
    }
    assert_eq!(got, vec![100, 101, 102, 10, 11]);
    let r = a.report_base();
    assert!(r.allocated <= r.usable_frames);
}

#[test]
fn heap_blocks_are_aligned_to_the_request() {
    let a = FrameAllocator::from_memory_map(&[region(0, 100, true)], 0x1000_0000);
    let mut h = KernelHeap::from_frames(&a, 3, 2);
    let base = 0x1000_0000 + 3 * 4096;
    let p1 = h.allocate(5, 16).unwrap();
    let p2 = h.allocate(7, 256).unwrap();
    let p3 = h.allocate(1, 4).unwrap();
    assert_eq!((p1 - base) % 16, 0);
    assert_eq!((p2 - base) % 256, 0);
    assert_eq!((p3 - base) % 8, 0);
    assert!(p1 + 5 <= p2 && p2 + 7 <= p3);
}
