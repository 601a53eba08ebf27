use lite_alloc::single_threaded::SegregatedBumpAllocator;

fn fill(a: &mut SegregatedBumpAllocator, ptr: usize, len: usize, val: u8) {
    let mut i = 0;
    while i < len {
        a.write_byte(ptr + i, val);
        i += 1;
    }
}

#[test]
fn test_small_alloc_reuse() {
    let mut allocator = SegregatedBumpAllocator::new();

    // 1. Alloc (miss -> bump)
    let ptr1 = allocator.allocate(16, 8);
    assert!(ptr1.is_some());
    let ptr1 = ptr1.unwrap();
    allocator.write_byte(ptr1, 0xAA);

    // 2. Dealloc (push to the 16-byte bin)
    allocator.deallocate(ptr1, 16, 8);

    // 3. Alloc (hit -> reuse)
    let ptr2 = allocator.allocate(16, 8).unwrap();
    assert_eq!(ptr1, ptr2, "Should reuse the same pointer from bin");
}

#[test]
fn test_cross_bin_isolation() {
    let mut allocator = SegregatedBumpAllocator::new();

    // 16-byte bin
    let p0 = allocator.allocate(10, 1).unwrap();

    // 32-byte bin
    let p1 = allocator.allocate(20, 1).unwrap();

    assert_ne!(p0, p1);

    // Dealloc 16B block
    allocator.deallocate(p0, 10, 1);

    // Alloc 32B block - should NOT reuse 16B block
    let p2 = allocator.allocate(20, 1).unwrap();
    assert_ne!(p0, p2);

    // Alloc 16B block - should reuse p0
    let p3 = allocator.allocate(10, 1).unwrap();
    assert_eq!(p0, p3);
}

#[test]
fn test_large_alloc_bypass() {
    let mut allocator = SegregatedBumpAllocator::new();
    // > 128 Bytes -> Large alloc (bump directly)
    let p1 = allocator.allocate(200, 16);
    assert!(p1.is_some());
    let p1 = p1.unwrap();

    // Dealloc (a deliberate no-op for large blocks)
    allocator.deallocate(p1, 200, 16);

    // Alloc again. Since dealloc leaked the block, it allocates new space.
    let p2 = allocator.allocate(200, 16).unwrap();
    assert_ne!(
        p1, p2,
        "Large objects should not be implicitly reused in this implementation"
    );
}

#[test]
fn test_memory_growth() {
    let mut allocator = SegregatedBumpAllocator::new();
    // Alloc enough to force page growth. The page size is 64KB; allocate
    // 40KB twice.
    let p1 = allocator.allocate(40 * 1024, 16);
    assert!(p1.is_some());

    let p2 = allocator.allocate(40 * 1024, 16);
    assert!(p2.is_some());
    let (p1, p2) = (p1.unwrap(), p2.unwrap());
    assert_ne!(p1, p2);

    // Verify they don't overlap
    let dist = p2.wrapping_sub(p1);
    assert!(dist >= 40 * 1024);
}

#[test]
fn test_high_alignment() {
    let mut allocator = SegregatedBumpAllocator::new();
    // 32B size, but 128B alignment: bypasses the bins (max align 16) and
    // bump-allocates with padding.
    let p1 = allocator.allocate(32, 128);
    assert!(p1.is_some());
    let p1 = p1.unwrap();
    assert_eq!(p1 % 128, 0);

    allocator.deallocate(p1, 32, 128); // A deliberate no-op
}

#[test]
fn segregated_bump_test_realloc_shrink() {
    let mut allocator = SegregatedBumpAllocator::new();
    // 128-byte class: capacity will be 128
    let ptr = allocator.allocate(100, 16).unwrap();
    fill(&mut allocator, ptr, 100, 0xCC);

    // Shrink to 80. Still the 128-byte class: in place.
    let new_ptr = allocator.reallocate(ptr, 100, 16, 80).unwrap();

    assert_eq!(ptr, new_ptr);
    assert_eq!(allocator.read_byte(new_ptr), 0xCC);
}

#[test]
fn test_realloc_grow_large_at_top() {
    let mut allocator = SegregatedBumpAllocator::new();
    // Large alloc > 128B.
    let ptr = allocator.allocate(256, 16).unwrap();
    fill(&mut allocator, ptr, 256, 0xAA);

    // This block sits at the top of the heap: it grows in place.
    let new_ptr = allocator.reallocate(ptr, 256, 16, 512).unwrap();

    assert_eq!(ptr, new_ptr);
    assert_eq!(allocator.read_byte(new_ptr), 0xAA);
    assert_eq!(allocator.read_byte(new_ptr + 255), 0xAA);
}

#[test]
fn test_realloc_move() {
    let mut allocator = SegregatedBumpAllocator::new();
    // 1. Alloc something to block the bottom
    let _ = allocator.allocate(64, 16);

    // 2. Alloc target block (large)
    let ptr = allocator.allocate(256, 16).unwrap();

    // 3. Alloc something else, so ptr is NOT at the top of the heap
    let _p3 = allocator.allocate(64, 16);

    fill(&mut allocator, ptr, 256, 0xBB);

    let new_ptr = allocator.reallocate(ptr, 256, 16, 512).unwrap();

    assert_ne!(ptr, new_ptr); // Must move
    assert_eq!(allocator.read_byte(new_ptr), 0xBB);
}

#[test]
fn test_small_bins() {
    let mut allocator = SegregatedBumpAllocator::new();

    // 16-byte class
    let ptr1 = allocator.allocate(10, 1);
    assert!(ptr1.is_some());
    let ptr1 = ptr1.unwrap();

    // 32-byte class
    let ptr2 = allocator.allocate(20, 1);
    assert!(ptr2.is_some());
    let ptr2 = ptr2.unwrap();

    allocator.deallocate(ptr1, 10, 1);
    // Reuse the 16-byte bin
    let ptr3 = allocator.allocate(10, 1).unwrap();
    assert_eq!(ptr1, ptr3);

    // The 32-byte bin is unaffected
    assert_ne!(ptr3, ptr2);
}

#[test]
fn test_large_bypass() {
    let mut allocator = SegregatedBumpAllocator::new();

    // Large > 128
    let ptr1 = allocator.allocate(200, 16).unwrap();

    allocator.deallocate(ptr1, 200, 16);

    // Large blocks are never reused: released ones leak on purpose.
    let ptr2 = allocator.allocate(200, 16).unwrap();
    assert_ne!(ptr1, ptr2);
}

#[test]
fn test_mixed_bins() {
    let mut allocator = SegregatedBumpAllocator::new();

    let p1 = allocator.allocate(16, 16).unwrap();
    let p2 = allocator.allocate(32, 16).unwrap();
    let p3 = allocator.allocate(64, 16).unwrap();
    let p4 = allocator.allocate(128, 16).unwrap();

    // All unique
    let buckets = [p1, p2, p3, p4];
    for i in 0..4 {
        for j in i + 1..4 {
            assert_ne!(buckets[i], buckets[j]);
        }
    }

    allocator.deallocate(p2, 32, 16);
    allocator.deallocate(p4, 128, 16);

    // Alloc 32 again -> reuse p2
    let p2_new = allocator.allocate(32, 16).unwrap();
    assert_eq!(p2, p2_new);

    // Alloc 128 again -> reuse p4
    let p4_new = allocator.allocate(128, 16).unwrap();
    assert_eq!(p4, p4_new);
}

#[test]
fn test_high_alignment_bypass() {
    let mut allocator = SegregatedBumpAllocator::new();
    // Size 16 fits the smallest class, but alignment 128 forces the bypass
    let ptr = allocator.allocate(16, 128);
    assert!(ptr.is_some());
    let ptr = ptr.unwrap();
    assert_eq!(ptr % 128, 0);

    allocator.deallocate(ptr, 16, 128);
    // Cannot be reused: it never went through a bin.
}

#[test]
fn test_realloc_bin_growth() {
    // Growing a binned block into a larger class moves it once the block no
    // longer sits at the top of the heap.
    let mut allocator = SegregatedBumpAllocator::new();
    // Alloc 16
    let ptr = allocator.allocate(16, 16).unwrap();
    allocator.write_byte(ptr, 0x11);
    // Another allocation takes the top of the heap.
    let _blocker = allocator.allocate(16, 16).unwrap();

    // Grow to 32
    let ptr_new = allocator.reallocate(ptr, 16, 16, 32).unwrap();
    assert_ne!(ptr, ptr_new); // Must move to a new bin/block
    assert_eq!(allocator.read_byte(ptr_new), 0x11);
}

#[test]
fn test_byte_pattern_round_trip_segregated() {
    let mut allocator = SegregatedBumpAllocator::new();
    let ptr = allocator.allocate(48, 16).unwrap();
    let mut i = 0;
    while i < 48 {
        allocator.write_byte(ptr + i, (i % 251) as u8);
        i += 1;
    }
    let mut j = 0;
    while j < 48 {
        assert_eq!(allocator.read_byte(ptr + j), (j % 251) as u8);
        j += 1;
    }
    allocator.deallocate(ptr, 48, 16);
}

#[test]
fn test_reset_repeats_first_address_segregated() {
    let mut allocator = SegregatedBumpAllocator::new();
    allocator.reset();
    let p1 = allocator.allocate(40, 8).unwrap();
    allocator.deallocate(p1, 40, 8);
    allocator.reset();
    let p2 = allocator.allocate(40, 8).unwrap();
    assert_eq!(p1, p2);
}

#[test]
fn test_growth_failure_returns_none_segregated() {
    // The linear memory caps at 128 MiB; a third 64 MiB block cannot fit.
    let mut allocator = SegregatedBumpAllocator::new();
    assert!(allocator.allocate(64 * 1024 * 1024, 16).is_some());
    assert!(allocator.allocate(64 * 1024 * 1024, 16).is_some());
    assert!(allocator.allocate(64 * 1024 * 1024, 16).is_none());
}

#[test]
fn test_zero_size_high_alignment() {
    // A zero-byte request with a high alignment is served at an aligned
    // address without claiming any space.
    let mut allocator = SegregatedBumpAllocator::new();
    let p = allocator.allocate(0, 128);
    assert!(p.is_some());
    assert_eq!(p.unwrap() % 128, 0);
}

#[test]
fn test_realloc_failure_leaves_block_untouched_segregated() {
    let mut allocator = SegregatedBumpAllocator::new();
    let ptr = allocator.allocate(200, 16).unwrap();
    fill(&mut allocator, ptr, 200, 0x7E);
    let r = allocator.reallocate(ptr, 200, 16, usize::MAX);
    assert!(r.is_none());
    assert_eq!(allocator.read_byte(ptr), 0x7E);
    assert_eq!(allocator.read_byte(ptr + 199), 0x7E);
}
