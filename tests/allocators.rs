use blog_os_core::allocator::align_up;
use blog_os_core::allocator::bump::BumpAllocator;
use blog_os_core::allocator::fixed_size_block::{list_index, FixedSizeBlockAllocator};
use blog_os_core::allocator::linked_list::{size_align, FreeRegion, LinkedListAllocator};
use blog_os_core::allocator::Dummy;

#[test]
fn align_up_rounds_to_boundary() {
    assert_eq!(align_up(0x1001, 0x1000), 0x2000);
    assert_eq!(align_up(13, 8), 16);
    assert_eq!(align_up(1, 1), 1);
}

#[test]
fn align_up_keeps_aligned_address() {
    assert_eq!(align_up(0x2000, 0x1000), 0x2000);
    assert_eq!(align_up(0, 16), 0);
    for a in 0..100usize {
        for n in [1usize, 2, 4, 8, 16, 32] {
            let r = align_up(a, n);
            assert_eq!(r % n, 0);
            assert!(r >= a && r < a + n);
        }
    }
}

#[test]
fn dummy_never_allocates() {
    assert_eq!(Dummy.allocate(8, 8), None);
}

#[test]
fn bump_frontier_resets_only_after_all_freed() {
    let mut b = BumpAllocator::new();
    b.init(0x1000, 1000);
    let a1 = b.allocate(10, 1).unwrap();
    let a2 = b.allocate(8, 8).unwrap();
    let a3 = b.allocate(4, 4).unwrap();
    assert_eq!(a1, 0x1000);
    assert_eq!(a2, 0x1010);
    assert_eq!(a3, 0x1018);
    assert_eq!(b.allocation_count(), 3);
    let frontier = b.frontier();
    assert_eq!(frontier, 0x101c);
    b.deallocate(a2, 8, 8);
    b.deallocate(a1, 10, 1);
    assert_eq!(b.frontier(), frontier);
    b.deallocate(a3, 4, 4);
    assert_eq!(b.frontier(), 0x1000);
    assert_eq!(b.allocation_count(), 0);
}

#[test]
fn bump_out_of_memory() {
    let mut b = BumpAllocator::new();
    b.init(0x1000, 16);
    assert_eq!(b.allocate(17, 1), None);
    assert_eq!(b.allocate(16, 1), Some(0x1000));
    assert_eq!(b.allocate(1, 1), None);
}

#[test]
fn size_align_pads_to_node() {
    assert_eq!(size_align(20, 8), (24, 8));
    assert_eq!(size_align(1, 1), (16, 8));
    assert_eq!(size_align(40, 32), (64, 32));
}

#[test]
fn linked_list_first_fit_splits_remainder() {
    let mut l = LinkedListAllocator::new();
    l.init(0x3000, 32);
    l.deallocate(0x2000, 64, 8);
    l.deallocate(0x1000, 16, 8);
    let sizes: Vec<usize> = l.free_regions().iter().map(|r| r.size).collect();
    assert_eq!(sizes, vec![16, 64, 32]);
    assert_eq!(l.allocate(20, 8), Some(0x2000));
    assert_eq!(
        l.free_regions().clone(),
        vec![
            FreeRegion { start: 0x2018, size: 40 },
            FreeRegion { start: 0x1000, size: 16 },
            FreeRegion { start: 0x3000, size: 32 },
        ]
    );
}

#[test]
fn linked_list_consumes_whole_block_and_fails_when_full() {
    let mut l = LinkedListAllocator::new();
    l.init(0x1000, 32);
    assert_eq!(l.allocate(40, 8), None);
    assert_eq!(l.allocate(24, 8), Some(0x1000));
    assert!(l.free_regions().is_empty());
    assert_eq!(l.allocate(8, 8), None);
    l.deallocate(0x1000, 24, 8);
    assert_eq!(l.free_regions().clone(), vec![FreeRegion { start: 0x1000, size: 24 }]);
}

#[test]
fn linked_list_skips_misaligned_small_block() {
    let mut l = LinkedListAllocator::new();
    l.init(0x2000, 64);
    l.deallocate(0x1008, 32, 8);
    assert_eq!(l.allocate(16, 32), Some(0x2000));
    assert_eq!(
        l.free_regions().clone(),
        vec![FreeRegion { start: 0x2020, size: 32 }, FreeRegion { start: 0x1008, size: 32 }]
    );
}

#[test]
fn list_index_picks_smallest_class() {
    assert_eq!(list_index(1, 1), Some(0));
    assert_eq!(list_index(24, 8), Some(2));
    assert_eq!(list_index(8, 64), Some(3));
    assert_eq!(list_index(2048, 8), Some(8));
    assert_eq!(list_index(2049, 8), None);
}

#[test]
fn fixed_block_reuses_freed_block() {
    let mut f = FixedSizeBlockAllocator::new();
    f.init(0x10000, 0x10000);
    for s in [1usize, 8, 24, 100, 512, 2048] {
        let a = f.allocate(s, 8).unwrap();
        let other = f.allocate(s, 8).unwrap();
        assert_ne!(a, other);
        f.deallocate(a, s, 8);
        assert_eq!(f.allocate(s, 8), Some(a));
    }
}

#[test]
fn fixed_block_large_requests_use_fallback() {
    let mut f = FixedSizeBlockAllocator::new();
    f.init(0x10000, 0x4000);
    let a = f.allocate(4096, 8).unwrap();
    assert_eq!(a, 0x10000);
    f.deallocate(a, 4096, 8);
    assert_eq!(f.allocate(4096, 8), Some(a));
    assert_eq!(f.allocate(0x4000, 8), None);
}
