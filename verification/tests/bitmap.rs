use sarena::bitmap::{AllocationBitmap, allocate_bit, clear_bit, count_ones, get_bit, set_bit};

#[test]
fn allocate_marks_offset_used_and_decrements_free() {
    let mut m = AllocationBitmap::new(4);
    assert_eq!(m.free(), 4);
    assert!(m.allocate(1));
    assert_eq!(m.free(), 3);
    assert!(m.has(1));
}

#[test]
fn allocate_twice_fails_second_time() {
    let mut m = AllocationBitmap::new(4);
    assert!(m.allocate(0));
    assert!(!m.allocate(0));
}

#[test]
fn allocate_out_of_range_fails() {
    let mut m = AllocationBitmap::new(4);
    assert!(!m.allocate(4));
    assert!(!m.has(4));
}

#[test]
fn allocate_next_fills_then_reports_full() {
    let mut m = AllocationBitmap::new(2);
    let a = m.allocate_next().unwrap();
    let b = m.allocate_next().unwrap();
    assert_ne!(a, b);
    assert_eq!(m.free(), 0);
    assert_eq!(m.allocate_next(), None);
}

#[test]
fn release_frees_offset_for_reuse() {
    let mut m = AllocationBitmap::new(1);
    assert!(m.allocate(0));
    assert_eq!(m.allocate_next(), None);
    m.release(0);
    assert_eq!(m.free(), 1);
    assert_eq!(m.allocate_next(), Some(0));
}

#[test]
fn release_unallocated_is_a_noop() {
    let mut m = AllocationBitmap::new(4);
    m.release(2);
    assert_eq!(m.free(), 4);
}

#[test]
fn for_each_visits_only_allocated_offsets() {
    let mut m = AllocationBitmap::new(8);
    m.allocate(1);
    m.allocate(5);
    let seen = m.for_each();
    assert_eq!(seen, vec![1, 5]);
}

#[test]
fn spans_multiple_words() {
    let mut m = AllocationBitmap::new(70);
    assert!(m.allocate(63));
    assert!(m.allocate(64));
    assert!(m.allocate(69));
    assert!(m.has(63));
    assert!(m.has(64));
    assert!(m.has(69));
    assert!(!m.has(65));
}

#[test]
fn count_ones_matches_expected_bit_counts() {
    assert_eq!(count_ones(&vec![0]), 0);
    assert_eq!(count_ones(&vec![0xff_ffff_ffff]), 40);
    assert_eq!(count_ones(&vec![0, 0, 1]), 1);
}

#[test]
fn release_after_allocate_restores_the_bitmap() {
    let mut m = AllocationBitmap::new(10);
    assert!(m.allocate(3));
    assert!(m.allocate(7));
    m.release(7);
    assert_eq!(m.for_each(), vec![3]);
    assert_eq!(m.free(), 9);
}

#[test]
fn bit_helpers_address_word_and_bit() {
    let mut words = vec![0u64, 0];
    set_bit(&mut words, 65);
    assert_eq!(words, vec![0, 2]);
    assert!(get_bit(&words, 65));
    assert!(!get_bit(&words, 1));
    clear_bit(&mut words, 65);
    assert_eq!(words, vec![0, 0]);
}

#[test]
fn allocate_bit_walks_cyclically_from_the_start() {
    // offsets 0..5 with 1, 3 and 4 taken
    let words = vec![0b11010u64];
    assert_eq!(allocate_bit(&words, 5, 3, 3), Some(0));
    assert_eq!(allocate_bit(&words, 5, 3, 1), Some(2));
    let full = vec![0b11111u64];
    assert_eq!(allocate_bit(&full, 5, 5, 0), None);
}
