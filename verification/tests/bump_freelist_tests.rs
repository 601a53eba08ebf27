use lite_alloc::single_threaded::BumpFreeListAllocator;

fn fill(a: &mut BumpFreeListAllocator, ptr: usize, len: usize, val: u8) {
    let mut i = 0;
    while i < len {
        a.write_byte(ptr + i, val);
        i += 1;
    }
}

fn check(a: &BumpFreeListAllocator, ptr: usize, len: usize, val: u8) -> bool {
    let mut i = 0;
    while i < len {
        if a.read_byte(ptr + i) != val {
            return false;
        }
        i += 1;
    }
    true
}

#[test]
fn bump_freelist_test_basic_allocation() {
    let mut allocator = BumpFreeListAllocator::new();
    let ptr = allocator.allocate(8, 8);
    assert!(ptr.is_some());
    let ptr = ptr.unwrap();

    allocator.write_byte(ptr, 42);
    assert_eq!(allocator.read_byte(ptr), 42);

    allocator.deallocate(ptr, 8, 8);
}

#[test]
fn test_multiple_allocations() {
    let mut allocator = BumpFreeListAllocator::new();

    let ptr1 = allocator.allocate(4, 4);
    let ptr2 = allocator.allocate(4, 4);

    assert!(ptr1.is_some());
    assert!(ptr2.is_some());
    let (ptr1, ptr2) = (ptr1.unwrap(), ptr2.unwrap());
    assert_ne!(ptr1, ptr2);

    // Bump pointer should advance by at least size (aligned to 16)
    let diff = ptr2.wrapping_sub(ptr1);
    assert!(diff >= 16);
}

#[test]
fn test_memory_grow() {
    let mut allocator = BumpFreeListAllocator::new();
    // Page size is 65536. Allocate 40KB twice to trigger growth.
    let ptr1 = allocator.allocate(40 * 1024, 16);
    let ptr2 = allocator.allocate(40 * 1024, 16);

    assert!(ptr1.is_some());
    assert!(ptr2.is_some());
    assert_ne!(ptr1.unwrap(), ptr2.unwrap());

    fill(&mut allocator, ptr1.unwrap(), 40 * 1024, 1);
    fill(&mut allocator, ptr2.unwrap(), 40 * 1024, 2);
}

#[test]
fn test_freelist_reuse() {
    let mut allocator = BumpFreeListAllocator::new();

    let ptr1 = allocator.allocate(128, 16).unwrap();
    allocator.deallocate(ptr1, 128, 16);

    let ptr2 = allocator.allocate(128, 16).unwrap();
    // Should reuse the same memory block (LIFO freelist where ptr1 was just added)
    assert_eq!(ptr1, ptr2);
}

#[test]
fn test_realloc_in_place() {
    let mut allocator = BumpFreeListAllocator::new();
    let ptr = allocator.allocate(32, 16);
    assert!(ptr.is_some());
    let ptr = ptr.unwrap();

    fill(&mut allocator, ptr, 32, 0xAA);

    // Reallocate to a larger size, should be in-place if possible
    let realloc_ptr = allocator.reallocate(ptr, 32, 16, 64).unwrap();

    assert_eq!(ptr, realloc_ptr); // Should be in-place
    assert_eq!(allocator.read_byte(realloc_ptr), 0xAA); // Content should be preserved
    assert_eq!(allocator.read_byte(realloc_ptr + 31), 0xAA); // Original content preserved
    fill(&mut allocator, realloc_ptr + 32, 64 - 32, 0xBB); // Write to new part
    assert_eq!(allocator.read_byte(realloc_ptr + 32), 0xBB);

    allocator.deallocate(realloc_ptr, 64, 16);
}

#[test]
fn test_realloc_not_in_place() {
    let mut allocator = BumpFreeListAllocator::new();
    let ptr1 = allocator.allocate(32, 16); // This will be the heap top
    assert!(ptr1.is_some());
    let ptr1 = ptr1.unwrap();

    let ptr2 = allocator.allocate(32, 16); // This will prevent ptr1 from being the heap top
    assert!(ptr2.is_some());
    let ptr2 = ptr2.unwrap();
    assert_ne!(ptr1, ptr2);

    fill(&mut allocator, ptr1, 32, 0xAA);

    // Reallocate ptr1 to a larger size. It's not the heap top, so it should move.
    let realloc_ptr = allocator.reallocate(ptr1, 32, 16, 64);
    assert!(realloc_ptr.is_some());
    let realloc_ptr = realloc_ptr.unwrap();
    assert_ne!(ptr1, realloc_ptr); // Should not be in-place
    assert_eq!(allocator.read_byte(realloc_ptr), 0xAA); // Content should be preserved
    assert_eq!(allocator.read_byte(realloc_ptr + 31), 0xAA); // Original content preserved

    allocator.deallocate(realloc_ptr, 64, 16);
    allocator.deallocate(ptr2, 32, 16);
}

#[test]
fn bump_freelist_test_realloc_shrink() {
    let mut allocator = BumpFreeListAllocator::new();
    let ptr = allocator.allocate(64, 16);
    assert!(ptr.is_some());
    let ptr = ptr.unwrap();

    fill(&mut allocator, ptr, 64, 0xCC);

    // Reallocate to a smaller size
    let realloc_ptr = allocator.reallocate(ptr, 64, 16, 32).unwrap();

    assert_eq!(ptr, realloc_ptr); // Shrinking can often be in-place
    assert_eq!(allocator.read_byte(realloc_ptr), 0xCC); // Content should be preserved
    assert_eq!(allocator.read_byte(realloc_ptr + 31), 0xCC); // Original content preserved
    allocator.deallocate(realloc_ptr, 32, 16);
}

#[test]
fn test_basic() {
    let mut allocator = BumpFreeListAllocator::new();
    let ptr = allocator.allocate(32, 8);
    assert!(ptr.is_some());
    fill(&mut allocator, ptr.unwrap(), 32, 0xAA);
    allocator.deallocate(ptr.unwrap(), 32, 8);
}

#[test]
fn test_reuse_lifo() {
    let mut allocator = BumpFreeListAllocator::new();

    let ptr1 = allocator.allocate(32, 8).unwrap();
    allocator.deallocate(ptr1, 32, 8);

    // BumpFreeList is LIFO, simple stack.
    let ptr2 = allocator.allocate(32, 8).unwrap();

    assert_eq!(ptr1, ptr2);
}

#[test]
fn test_no_coalescing() {
    let mut allocator = BumpFreeListAllocator::new();

    let ptr1 = allocator.allocate(32, 8).unwrap(); // lower address
    let ptr2 = allocator.allocate(32, 8).unwrap(); // higher address

    allocator.deallocate(ptr1, 32, 8);
    allocator.deallocate(ptr2, 32, 8);

    // List: [ptr2, ptr1]

    // Allocate 64 bytes. Since nothing coalesces, ptr2 (32B) is too small,
    // ptr1 (32B) is too small. Must bump-allocate new space.
    let ptr3 = allocator.allocate(64, 8).unwrap();

    assert_ne!(ptr3, ptr1);
    assert_ne!(ptr3, ptr2);

    // However, allocating 32B reuses ptr2 (LIFO head)
    let ptr4 = allocator.allocate(32, 8).unwrap();
    assert_eq!(ptr4, ptr2);
}

#[test]
fn test_alignment_padding() {
    let mut allocator = BumpFreeListAllocator::new();
    // 1-byte alloc, 1-byte align
    let ptr1 = allocator.allocate(1, 1).unwrap();

    // Should be at least 16 aligned
    assert_eq!(ptr1 % 16, 0);

    // Next alloc should be at ptr1 + 16 (min size 16)
    let ptr2 = allocator.allocate(1, 1).unwrap();
    assert_eq!(ptr2 - ptr1, 16);
}

#[test]
fn test_grow_memory() {
    let mut allocator = BumpFreeListAllocator::new();
    let ptr = allocator.allocate(100 * 1024, 16);
    assert!(ptr.is_some());
    fill(&mut allocator, ptr.unwrap(), 100 * 1024, 1);
}

#[test]
fn test_realloc_extend() {
    let mut allocator = BumpFreeListAllocator::new();
    let ptr = allocator.allocate(32, 8).unwrap();

    // This is the top of heap. Extending should be easy.
    let new_ptr = allocator.reallocate(ptr, 32, 8, 64).unwrap();
    assert_eq!(ptr, new_ptr);
}

#[test]
fn test_lifo_reuse_smaller() {
    // Allocate A, free A, allocate B of smaller rounded size: B lands on A.
    let mut allocator = BumpFreeListAllocator::new();
    let a = allocator.allocate(64, 8).unwrap();
    allocator.deallocate(a, 64, 8);
    let b = allocator.allocate(32, 8).unwrap();
    assert_eq!(a, b);
}

#[test]
fn test_byte_pattern_round_trip_bump() {
    let mut allocator = BumpFreeListAllocator::new();
    let ptr = allocator.allocate(48, 16).unwrap();
    let mut i = 0;
    while i < 48 {
        allocator.write_byte(ptr + i, (i % 251) as u8);
        i += 1;
    }
    let mut j = 0;
    while j < 48 {
        assert_eq!(allocator.read_byte(ptr + j), (j % 251) as u8);
        j += 1;
    }
    allocator.deallocate(ptr, 48, 16);
}

#[test]
fn test_reset_repeats_first_address_bump() {
    let mut allocator = BumpFreeListAllocator::new();
    allocator.reset();
    let p1 = allocator.allocate(40, 8).unwrap();
    allocator.deallocate(p1, 40, 8);
    allocator.reset();
    let p2 = allocator.allocate(40, 8).unwrap();
    assert_eq!(p1, p2);
}

#[test]
fn test_growth_failure_returns_none_bump() {
    // The linear memory caps at 128 MiB; a third 64 MiB block cannot fit.
    let mut allocator = BumpFreeListAllocator::new();
    let p1 = allocator.allocate(64 * 1024 * 1024, 16);
    assert!(p1.is_some());
    let p2 = allocator.allocate(64 * 1024 * 1024, 16);
    assert!(p2.is_some());
    let p3 = allocator.allocate(64 * 1024 * 1024, 16);
    assert!(p3.is_none());
    // A huge request can never be served at all.
    assert!(allocator.allocate(usize::MAX, 1).is_none());
}

#[test]
fn test_realloc_failure_leaves_block_untouched_bump() {
    let mut allocator = BumpFreeListAllocator::new();
    let ptr = allocator.allocate(64, 16).unwrap();
    fill(&mut allocator, ptr, 64, 0x7E);
    let r = allocator.reallocate(ptr, 64, 16, usize::MAX);
    assert!(r.is_none());
    assert!(check(&allocator, ptr, 64, 0x7E));
}
