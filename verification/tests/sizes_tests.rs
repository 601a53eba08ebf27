use lite_alloc::single_threaded::sizes::{full_size, get_index, multiple_below, round_up};
use lite_alloc::{PageCount, MAX_MEMORY_BYTES, MAX_PAGES, PAGE_SIZE};

#[test]
fn test_page_count_size_in_bytes() {
    assert_eq!(PageCount(0).size_in_bytes(), 0);
    assert_eq!(PageCount(1).size_in_bytes(), 65536);
    assert_eq!(PageCount(2).size_in_bytes(), 131072);
    assert_eq!(PageCount(MAX_PAGES).size_in_bytes(), MAX_MEMORY_BYTES);
}

#[test]
fn test_round_up_exact_values() {
    assert_eq!(round_up(0, 16), 0);
    assert_eq!(round_up(1, 16), 16);
    assert_eq!(round_up(16, 16), 16);
    assert_eq!(round_up(17, 16), 32);
    assert_eq!(round_up(5, 1), 5);
    assert_eq!(round_up(1, PAGE_SIZE), PAGE_SIZE);
    assert_eq!(round_up(PAGE_SIZE + 1, PAGE_SIZE), 2 * PAGE_SIZE);
}

#[test]
fn test_multiple_below_exact_values() {
    assert_eq!(multiple_below(0, 16), 0);
    assert_eq!(multiple_below(15, 16), 0);
    assert_eq!(multiple_below(16, 16), 16);
    assert_eq!(multiple_below(31, 16), 16);
    assert_eq!(multiple_below(100000, PAGE_SIZE), PAGE_SIZE);
}

#[test]
fn test_full_size_exact_values() {
    assert_eq!(full_size(0), 16);
    assert_eq!(full_size(1), 16);
    assert_eq!(full_size(16), 16);
    assert_eq!(full_size(17), 32);
    assert_eq!(full_size(100), 112);
    assert_eq!(full_size(128), 128);
}

#[test]
fn test_get_index_classes() {
    assert_eq!(get_index(10), Some(0));
    assert_eq!(get_index(16), Some(0));
    assert_eq!(get_index(17), Some(1));
    assert_eq!(get_index(32), Some(1));
    assert_eq!(get_index(33), Some(2));
    assert_eq!(get_index(64), Some(2));
    assert_eq!(get_index(65), Some(3));
    assert_eq!(get_index(128), Some(3));
    assert_eq!(get_index(129), None);
    assert_eq!(get_index(200), None);
}
