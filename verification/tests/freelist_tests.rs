use lite_alloc::single_threaded::FreeListAllocator;

fn fill(a: &mut FreeListAllocator, ptr: usize, len: usize, val: u8) {
    let mut i = 0;
    while i < len {
        a.write_byte(ptr + i, val);
        i += 1;
    }
}

#[test]
fn freelist_test_basic_allocation() {
    let mut allocator = FreeListAllocator::new();
    let ptr = allocator.allocate(8, 8);
    assert!(ptr.is_some());
    let ptr = ptr.unwrap();

    // Write the bytes of 0xDEADBEEF and read them back.
    allocator.write_byte(ptr, 0xEF);
    allocator.write_byte(ptr + 1, 0xBE);
    allocator.write_byte(ptr + 2, 0xAD);
    allocator.write_byte(ptr + 3, 0xDE);
    assert_eq!(allocator.read_byte(ptr), 0xEF);
    assert_eq!(allocator.read_byte(ptr + 1), 0xBE);
    assert_eq!(allocator.read_byte(ptr + 2), 0xAD);
    assert_eq!(allocator.read_byte(ptr + 3), 0xDE);

    allocator.deallocate(ptr, 8, 8);
}

#[test]
fn test_allocation_order_descending() {
    let mut allocator = FreeListAllocator::new();

    // The first allocation grows the memory by one page, chained whole; the
    // block is carved from its high-address end.
    let ptr1 = allocator.allocate(16, 16);

    // The second allocation carves from the end of the remaining low part,
    // so ptr2 sits just below ptr1.
    let ptr2 = allocator.allocate(16, 16);

    assert!(ptr1.is_some());
    assert!(ptr2.is_some());
    let (ptr1, ptr2) = (ptr1.unwrap(), ptr2.unwrap());

    // Addresses descend: ptr1 > ptr2, and they are adjacent.
    assert!(ptr1 > ptr2);
    assert_eq!(ptr1 - ptr2, 16);
}

#[test]
fn test_reuse() {
    let mut allocator = FreeListAllocator::new();

    let ptr1 = allocator.allocate(16, 16).unwrap();
    allocator.deallocate(ptr1, 16, 16);

    // After the release the block merges back with the page remainder; the
    // next carve of the same size lands on the same address.
    let ptr2 = allocator.allocate(16, 16).unwrap();
    assert_eq!(ptr1, ptr2);
}

#[test]
fn test_coalescing_merge() {
    let mut allocator = FreeListAllocator::new();

    // Three blocks, descending: ptr1 (high) > ptr2 > ptr3 (low).
    let ptr1 = allocator.allocate(128, 16).unwrap();
    let ptr2 = allocator.allocate(128, 16).unwrap();
    let ptr3 = allocator.allocate(128, 16).unwrap();

    assert_eq!(ptr1 - ptr2, 128);
    assert_eq!(ptr2 - ptr3, 128);

    // Release middle, then high (merging up), then low (merging the rest).
    allocator.deallocate(ptr2, 128, 16);
    allocator.deallocate(ptr1, 128, 16);
    allocator.deallocate(ptr3, 128, 16);

    // One 384-byte request fits the merged block exactly.
    let ptr_large = allocator.allocate(384, 16);
    assert!(ptr_large.is_some());
    assert_eq!(ptr_large.unwrap(), ptr3);
}

#[test]
fn test_memory_growth_multi_page() {
    let mut allocator = FreeListAllocator::new();
    // Allocate 40KB.
    let ptr1 = allocator.allocate(40 * 1024, 16);
    assert!(ptr1.is_some());

    // Another 40KB does not fit the 24KB page remainder: growth.
    let ptr2 = allocator.allocate(40 * 1024, 16);
    assert!(ptr2.is_some());
    let (ptr1, ptr2) = (ptr1.unwrap(), ptr2.unwrap());
    assert_ne!(ptr1, ptr2);

    // The two blocks are at least 40KB apart.
    let dist = if ptr1 > ptr2 { ptr1 - ptr2 } else { ptr2 - ptr1 };
    assert!(dist >= 40 * 1024);
}

#[test]
fn test_alignment_large() {
    let mut allocator = FreeListAllocator::new();
    // Only alignments up to 16 are supported; 32 fails at once.
    let ptr = allocator.allocate(32, 32);
    assert!(ptr.is_none());
}

#[test]
fn test_fragmentation_fill_hole() {
    let mut allocator = FreeListAllocator::new();

    // Addresses descend: p1 > p2 > p3.
    let _p1 = allocator.allocate(64, 16).unwrap();
    let p2 = allocator.allocate(64, 16).unwrap();
    let p3 = allocator.allocate(64, 16).unwrap();

    // Free p2, leaving a 64B hole at a higher address than the remainder.
    allocator.deallocate(p2, 64, 16);

    // The next 64B request fills the hole first.
    let p4 = allocator.allocate(64, 16).unwrap();
    assert_eq!(p4, p2);

    // The next one is carved from the low-address remainder, below p3.
    let p5 = allocator.allocate(64, 16).unwrap();
    assert!(p5 < p3);
}

#[test]
fn test_realloc_shrink_in_place() {
    let mut allocator = FreeListAllocator::new();
    let ptr = allocator.allocate(128, 16);
    assert!(ptr.is_some());
    let ptr = ptr.unwrap();

    fill(&mut allocator, ptr, 128, 0xAA);

    // Shrink to 64: in place.
    let realloc_ptr = allocator.reallocate(ptr, 128, 16, 64).unwrap();
    assert_eq!(ptr, realloc_ptr);
    assert_eq!(allocator.read_byte(realloc_ptr), 0xAA);

    allocator.deallocate(realloc_ptr, 64, 16);
}

#[test]
fn test_realloc_grow_in_place() {
    let mut allocator = FreeListAllocator::new();

    let ptr1 = allocator.allocate(64, 16).unwrap();
    let ptr2 = allocator.allocate(64, 16).unwrap();

    assert_eq!(ptr1 - ptr2, 64);

    // Release the block just above ptr2, then grow ptr2 into it in place.
    allocator.deallocate(ptr1, 64, 16);

    let ptr2_new = allocator.reallocate(ptr2, 64, 16, 128).unwrap();
    assert_eq!(ptr2, ptr2_new);

    allocator.deallocate(ptr2_new, 128, 16);
}

#[test]
fn test_small_allocations_min_size() {
    let mut allocator = FreeListAllocator::new();
    // Request minimal size (1 byte), align 1.
    let ptr = allocator.allocate(1, 1);

    assert!(ptr.is_some());
    let ptr = ptr.unwrap();
    // Should align to 16
    assert_eq!(ptr % 16, 0);

    // Write to it to ensure it's valid
    allocator.write_byte(ptr, 0xFF);

    allocator.deallocate(ptr, 1, 1);
}

#[test]
fn test_alignment_upgrade_force_16() {
    let mut allocator = FreeListAllocator::new();
    // Request 8 byte alignment
    let ptr = allocator.allocate(8, 8);

    assert!(ptr.is_some());
    let ptr = ptr.unwrap();
    assert_eq!(ptr % 16, 0); // Must be upgraded to 16

    allocator.deallocate(ptr, 8, 8);
}

#[test]
fn test_unsupported_alignment_large() {
    let mut allocator = FreeListAllocator::new();
    // Request 32 byte alignment (not supported)
    let ptr = allocator.allocate(32, 32);

    // Should fail
    assert!(ptr.is_none());
}

#[test]
fn test_split_block_behavior() {
    let mut allocator = FreeListAllocator::new();
    // Alloc 128 bytes
    let ptr1 = allocator.allocate(128, 16);
    assert!(ptr1.is_some());
    let ptr1 = ptr1.unwrap();

    // Free it to put it into the list
    allocator.deallocate(ptr1, 128, 16);

    // Alloc 112 bytes: the remaining 16 bytes stay chained as the low part,
    // and the high part comes back.
    let ptr2 = allocator.allocate(112, 16);
    assert!(ptr2.is_some());
    let ptr2 = ptr2.unwrap();

    assert_eq!(ptr2 - ptr1, 16);

    // Alloc the remaining 16: the low part comes back.
    let ptr3 = allocator.allocate(16, 16).unwrap();
    assert_eq!(ptr3, ptr1);
}

#[test]
fn test_coalescing_fragmentation_random_free() {
    let mut allocator = FreeListAllocator::new();
    let count = 10;
    let mut ptrs = vec![0usize; count];

    // Alloc contiguous blocks
    for i in 0..count {
        let p = allocator.allocate(64, 16);
        assert!(p.is_some());
        ptrs[i] = p.unwrap();
    }

    // Free in two passes: evens first (making holes), then odds (filling and
    // coalescing).
    for i in (0..count).step_by(2) {
        allocator.deallocate(ptrs[i], 64, 16);
    }
    for i in (1..count).step_by(2) {
        allocator.deallocate(ptrs[i], 64, 16);
    }

    // Everything merged back: the summed size fits in one block.
    let total_size = count * 64;
    let ptr_all = allocator.allocate(total_size, 16);
    assert!(ptr_all.is_some());

    allocator.deallocate(ptr_all.unwrap(), total_size, 16);
}

#[test]
fn test_alloc_large_grows_memory() {
    let mut allocator = FreeListAllocator::new();
    // 64KB page size. Alloc 100KB.
    let ptr = allocator.allocate(100 * 1024, 16);

    assert!(ptr.is_some());
    let ptr = ptr.unwrap();

    // Write at the end (bounds check)
    allocator.write_byte(ptr + 100 * 1024 - 1, 0xAA);

    allocator.deallocate(ptr, 100 * 1024, 16);
}

#[test]
fn test_double_free_corruption_check() {
    // Alloc -> Free -> Alloc -> check integrity.
    let mut allocator = FreeListAllocator::new();
    let ptr = allocator.allocate(64, 16).unwrap();
    fill(&mut allocator, ptr, 64, 0xCC);
    allocator.deallocate(ptr, 64, 16);

    let ptr2 = allocator.allocate(64, 16);
    assert!(ptr2.is_some());
    let ptr2 = ptr2.unwrap();
    fill(&mut allocator, ptr2, 64, 0xDD);
    allocator.deallocate(ptr2, 64, 16);
}

#[test]
fn test_byte_pattern_round_trip_freelist() {
    let mut allocator = FreeListAllocator::new();
    let ptr = allocator.allocate(48, 16).unwrap();
    let mut i = 0;
    while i < 48 {
        allocator.write_byte(ptr + i, (i % 251) as u8);
        i += 1;
    }
    let mut j = 0;
    while j < 48 {
        assert_eq!(allocator.read_byte(ptr + j), (j % 251) as u8);
        j += 1;
    }
    allocator.deallocate(ptr, 48, 16);
}

#[test]
fn test_reset_repeats_first_address_freelist() {
    let mut allocator = FreeListAllocator::new();
    allocator.reset();
    let p1 = allocator.allocate(40, 8).unwrap();
    allocator.deallocate(p1, 40, 8);
    allocator.reset();
    let p2 = allocator.allocate(40, 8).unwrap();
    assert_eq!(p1, p2);
}

#[test]
fn test_full_coalescing_any_order() {
    // Free four blocks in a scrambled order; one allocation of the summed
    // size then succeeds without any growth.
    let mut allocator = FreeListAllocator::new();
    let p1 = allocator.allocate(64, 16).unwrap();
    let p2 = allocator.allocate(64, 16).unwrap();
    let p3 = allocator.allocate(64, 16).unwrap();
    let p4 = allocator.allocate(64, 16).unwrap();
    allocator.deallocate(p3, 64, 16);
    allocator.deallocate(p1, 64, 16);
    allocator.deallocate(p4, 64, 16);
    allocator.deallocate(p2, 64, 16);
    let all = allocator.allocate(256, 16);
    assert!(all.is_some());
}

#[test]
fn test_growth_failure_returns_none_freelist() {
    // The linear memory caps at 128 MiB; a third 64 MiB block cannot fit.
    let mut allocator = FreeListAllocator::new();
    assert!(allocator.allocate(64 * 1024 * 1024, 16).is_some());
    assert!(allocator.allocate(64 * 1024 * 1024, 16).is_some());
    assert!(allocator.allocate(64 * 1024 * 1024, 16).is_none());
}

#[test]
fn test_realloc_grow_moves_when_blocked() {
    let mut allocator = FreeListAllocator::new();
    // ptr1 sits above ptr2 and stays allocated, so ptr2 cannot grow in place.
    let ptr1 = allocator.allocate(64, 16).unwrap();
    let ptr2 = allocator.allocate(64, 16).unwrap();
    assert_eq!(ptr1 - ptr2, 64);
    fill(&mut allocator, ptr2, 64, 0x5A);
    let moved = allocator.reallocate(ptr2, 64, 16, 128).unwrap();
    assert_ne!(moved, ptr2);
    assert_eq!(allocator.read_byte(moved), 0x5A);
    assert_eq!(allocator.read_byte(moved + 63), 0x5A);
}

#[test]
fn test_realloc_failure_leaves_block_untouched_freelist() {
    let mut allocator = FreeListAllocator::new();
    let ptr = allocator.allocate(64, 16).unwrap();
    fill(&mut allocator, ptr, 64, 0x7E);
    // Growing past the whole address space fails and changes nothing.
    let r = allocator.reallocate(ptr, 64, 16, usize::MAX);
    assert!(r.is_none());
    assert_eq!(allocator.read_byte(ptr), 0x7E);
    assert_eq!(allocator.read_byte(ptr + 63), 0x7E);
}
