use lab_allocator::block::HEADER_SIZE;
use lab_allocator::byte_alloc::{AllocError, LabByteAllocator};

#[test]
fn new_owns_nothing() {
    let a = LabByteAllocator::new();
    assert_eq!(a.total_bytes(), 0);
    assert_eq!(a.used_bytes(), 0);
    assert_eq!(a.available_bytes(), 0);
    assert_eq!(a.largest_free_block(), 0);
}

#[test]
fn init_creates_one_free_block() {
    let mut a = LabByteAllocator::new();
    a.init(0x1000, 4096);
    assert_eq!(a.total_bytes(), 4096);
    assert_eq!(a.used_bytes(), 0);
    assert_eq!(a.available_bytes(), 4096);
    assert_eq!(a.largest_free_block(), 4096 - HEADER_SIZE);
}

#[test]
fn alignment_of_returned_addresses() {
    let mut a = LabByteAllocator::new();
    a.init(0x1000, 4096);
    let p = a.allocate(10, 64).unwrap();
    assert_eq!(p % 64, 0);
    let q = a.allocate(10, 256).unwrap();
    assert_eq!(q % 256, 0);
}

#[test]
fn alignment_floor_is_eight() {
    let mut a = LabByteAllocator::new();
    a.init(0x1000, 4096);
    let p = a.allocate(5, 1).unwrap();
    assert_eq!(p % 8, 0);
    let q = a.allocate(3, 2).unwrap();
    assert_eq!(q % 8, 0);
}

#[test]
fn best_fit_picks_smallest_sufficient_block() {
    let mut a = LabByteAllocator::new();
    // Free capacities 100, 50 and 30 in three far-apart spans.
    a.init(0x1000, 100 + HEADER_SIZE);
    a.add_memory(0x10000, 50 + HEADER_SIZE).unwrap();
    a.add_memory(0x20000, 30 + HEADER_SIZE).unwrap();
    assert_eq!(a.total_bytes(), 180 + 3 * HEADER_SIZE);
    // A request of 40 at align 8 wastes 10 in the 50-block and 60 in the
    // 100-block; the 30-block does not qualify.
    let p = a.allocate(40, 8).unwrap();
    assert_eq!(p, 0x10000 + HEADER_SIZE);
}

#[test]
fn find_free_block_reports_the_best_fit() {
    let mut a = LabByteAllocator::new();
    a.init(0x1000, 100 + HEADER_SIZE);
    a.add_memory(0x10000, 50 + HEADER_SIZE).unwrap();
    a.add_memory(0x20000, 30 + HEADER_SIZE).unwrap();
    // The 50-capacity block sits at directory position 1.
    assert_eq!(a.find_free_block(40, 8), Some(1));
    // Nothing qualifies for a request beyond the largest capacity.
    assert_eq!(a.find_free_block(101, 8), None);
}

#[test]
fn best_fit_tie_keeps_earliest() {
    let mut a = LabByteAllocator::new();
    a.init(0x1000, 50 + HEADER_SIZE);
    a.add_memory(0x10000, 50 + HEADER_SIZE).unwrap();
    let p = a.allocate(40, 8).unwrap();
    assert_eq!(p, 0x1000 + HEADER_SIZE);
}

#[test]
fn coalescing_free_a_then_b() {
    let mut a = LabByteAllocator::new();
    a.init(0x1000, 4096);
    let cap = 4096 - HEADER_SIZE;
    let pa = a.allocate(32, 8).unwrap();
    let pb = a.allocate(32, 8).unwrap();
    assert_eq!(a.used_bytes(), 64);
    a.dealloc(pa, 32, 8);
    a.dealloc(pb, 32, 8);
    assert_eq!(a.used_bytes(), 0);
    // A single free block spans the reunited range: its capacity together
    // with its one header accounts for the whole arena.
    assert_eq!(a.largest_free_block(), cap);
}

#[test]
fn coalescing_free_b_then_a() {
    let mut a = LabByteAllocator::new();
    a.init(0x1000, 4096);
    let cap = 4096 - HEADER_SIZE;
    let pa = a.allocate(32, 8).unwrap();
    let pb = a.allocate(32, 8).unwrap();
    a.dealloc(pb, 32, 8);
    a.dealloc(pa, 32, 8);
    assert_eq!(a.used_bytes(), 0);
    assert_eq!(a.largest_free_block(), cap);
}

#[test]
fn round_trip_without_split_restores_available() {
    let mut a = LabByteAllocator::new();
    // Capacity 72: a request of 40 leaves 32, not enough for a header plus
    // the alignment slack, so the block is consumed whole. Only the padded
    // request is charged; the block's slack stays out of the free pool but
    // is never billed as used.
    a.init(0x1000, 72 + HEADER_SIZE);
    let before = a.available_bytes();
    let p = a.allocate(40, 8).unwrap();
    assert_eq!(a.used_bytes(), 40);
    assert_eq!(a.largest_free_block(), 0);
    a.dealloc(p, 40, 8);
    assert_eq!(a.available_bytes(), before);
    assert_eq!(a.used_bytes(), 0);
    assert_eq!(a.largest_free_block(), 72);
}

#[test]
fn round_trip_with_split_restores_available() {
    let mut a = LabByteAllocator::new();
    a.init(0x1000, 4096);
    let before = a.available_bytes();
    let p = a.allocate(32, 8).unwrap();
    assert_eq!(a.used_bytes(), 32);
    a.dealloc(p, 32, 8);
    // The freed block coalesces with the split remainder, so the split's
    // header is reclaimed and the available bytes come back exactly.
    assert_eq!(a.available_bytes(), before);
    assert_eq!(a.largest_free_block(), 4096 - HEADER_SIZE);
}

#[test]
fn region_growth_contiguous_span_coalesces() {
    let mut a = LabByteAllocator::new();
    let base = 0x1000;
    a.init(base, 4096);
    let before = a.total_bytes();
    a.add_memory(base + 4096, 2048).unwrap();
    assert_eq!(a.total_bytes(), before + 2048);
    // The new span continues the free tail block, so the two merge into one
    // free block whose capacity includes the reclaimed second header.
    assert_eq!(a.largest_free_block(), 4096 + 2048 - HEADER_SIZE);
    // An allocation larger than the first span alone now succeeds.
    let p = a.allocate(5000, 8).unwrap();
    assert_eq!(p % 8, 0);
    assert_eq!(a.used_bytes(), 5000);
}

#[test]
fn region_growth_disjoint_span_stays_separate() {
    let mut a = LabByteAllocator::new();
    a.init(0x1000, 4096);
    a.add_memory(0x100000, 2048).unwrap();
    assert_eq!(a.total_bytes(), 4096 + 2048);
    assert_eq!(a.largest_free_block(), 4096 - HEADER_SIZE);
}

#[test]
fn exhaustion_is_reported_and_changes_nothing() {
    let mut a = LabByteAllocator::new();
    a.init(0x1000, 4096);
    let p = a.allocate(100, 8).unwrap();
    let used = a.used_bytes();
    let largest = a.largest_free_block();
    let r = a.allocate(5000, 8);
    assert!(matches!(r, Err(AllocError::NoMemory)));
    assert_eq!(a.used_bytes(), used);
    assert_eq!(a.total_bytes(), 4096);
    assert_eq!(a.largest_free_block(), largest);
    a.dealloc(p, 100, 8);
}

#[test]
fn exhaustion_counts_header_overhead() {
    let mut a = LabByteAllocator::new();
    a.init(0x1000, 4096);
    // More than the largest free capacity, though below the raw span size.
    let r = a.allocate(4096 - HEADER_SIZE + 1, 8);
    assert!(matches!(r, Err(AllocError::NoMemory)));
    assert_eq!(a.used_bytes(), 0);
}

#[test]
fn conservation_over_a_sequence_of_operations() {
    let mut a = LabByteAllocator::new();
    a.init(0x1000, 4096);
    assert_eq!(a.used_bytes() + a.available_bytes(), a.total_bytes());
    let p = a.allocate(100, 8).unwrap();
    assert_eq!(a.used_bytes() + a.available_bytes(), a.total_bytes());
    let q = a.allocate(200, 16).unwrap();
    assert_eq!(a.used_bytes() + a.available_bytes(), a.total_bytes());
    a.add_memory(0x100000, 1024).unwrap();
    assert_eq!(a.used_bytes() + a.available_bytes(), a.total_bytes());
    a.dealloc(p, 100, 8);
    assert_eq!(a.used_bytes() + a.available_bytes(), a.total_bytes());
    a.dealloc(q, 200, 16);
    assert_eq!(a.used_bytes() + a.available_bytes(), a.total_bytes());
    assert_eq!(a.used_bytes(), 0);
}

#[test]
fn live_allocations_do_not_overlap() {
    let mut a = LabByteAllocator::new();
    a.init(0x1000, 4096);
    let p = a.allocate(32, 8).unwrap();
    let q = a.allocate(48, 16).unwrap();
    let r = a.allocate(64, 32).unwrap();
    assert!(p + 32 <= q || q + 48 <= p);
    assert!(p + 32 <= r || r + 64 <= p);
    assert!(q + 48 <= r || r + 64 <= q);
}

#[test]
fn dealloc_of_unknown_address_is_ignored() {
    let mut a = LabByteAllocator::new();
    a.init(0x1000, 4096);
    let p = a.allocate(32, 8).unwrap();
    let used = a.used_bytes();
    assert!(a.dealloc_permitted(0x50));
    a.dealloc(0x50, 16, 8);
    assert_eq!(a.used_bytes(), used);
    a.dealloc(p, 32, 8);
    assert_eq!(a.used_bytes(), 0);
}

#[test]
fn dealloc_permitted_rejects_free_payloads() {
    let mut a = LabByteAllocator::new();
    a.init(0x1000, 4096);
    let p = a.allocate(32, 8).unwrap();
    assert!(a.dealloc_permitted(p));
    a.dealloc(p, 32, 8);
    // The address now lies inside a free block again: releasing it once
    // more would be a double free.
    assert!(!a.dealloc_permitted(p));
}

#[test]
fn init_resets_previous_state() {
    let mut a = LabByteAllocator::new();
    a.init(0x1000, 4096);
    let _ = a.allocate(64, 8).unwrap();
    a.init(0x8000, 2048);
    assert_eq!(a.total_bytes(), 2048);
    assert_eq!(a.used_bytes(), 0);
    assert_eq!(a.largest_free_block(), 2048 - HEADER_SIZE);
}

#[test]
fn alloc_before_any_span_fails() {
    let mut a = LabByteAllocator::new();
    let r = a.allocate(1, 8);
    assert!(matches!(r, Err(AllocError::NoMemory)));
}

#[test]
fn zero_size_request_charges_only_padding() {
    let mut a = LabByteAllocator::new();
    a.init(0x1000, 4096);
    let p = a.allocate(0, 8).unwrap();
    assert_eq!(p, 0x1000 + HEADER_SIZE);
    assert_eq!(a.used_bytes(), 0);
    assert_eq!(a.used_bytes() + a.available_bytes(), a.total_bytes());
}

#[test]
fn padding_is_charged_to_the_allocation() {
    let mut a = LabByteAllocator::new();
    a.init(0x1000, 4096);
    // Payload start is 0x1028; at align 64 the next boundary is 0x1040,
    // so 24 bytes of padding are charged along with the request.
    let p = a.allocate(10, 64).unwrap();
    assert_eq!(p, 0x1040);
    assert_eq!(a.used_bytes(), 10 + 24);
}
