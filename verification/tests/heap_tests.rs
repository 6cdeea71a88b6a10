use buddy_system_allocator::AllocErr;
use buddy_system_allocator::Heap;
use buddy_system_allocator::prev_power_of_two;

#[test]
fn fresh_heap_registers_one_maximal_block() {
    // A maximally aligned, power-of-two range becomes a single block.
    let mut heap = Heap::new();
    heap.add_to_heap(0, 1024);
    assert_eq!(heap.stats_total_bytes(), 1024);
    // The whole range is served as one block at its own start.
    assert_eq!(heap.allocate(1024, 8), Ok(0));
    assert_eq!(heap.stats_alloc_user(), 1024);
    assert_eq!(heap.stats_alloc_actual(), 1024);
}

#[test]
fn unaligned_start_tiles_ascending_powers() {
    // [8, 1024) is tiled greedily: 8, 16, 32, 64, 128, 256, 512.
    let mut heap = Heap::new();
    heap.add_to_heap(8, 1024);
    assert_eq!(heap.stats_total_bytes(), 1016);
    assert_eq!(heap.allocate(8, 8), Ok(8));
    assert_eq!(heap.allocate(16, 8), Ok(16));
    assert_eq!(heap.allocate(32, 8), Ok(32));
    assert_eq!(heap.allocate(64, 8), Ok(64));
    assert_eq!(heap.allocate(128, 8), Ok(128));
    assert_eq!(heap.allocate(256, 8), Ok(256));
    assert_eq!(heap.allocate(512, 8), Ok(512));
    // Everything is now handed out.
    assert_eq!(heap.allocate(8, 8), Err(AllocErr));
    assert_eq!(heap.stats_alloc_actual(), 1016);
}

#[test]
fn allocation_splits_down_to_the_requested_class() {
    // A 100-byte request rounds to 128 and splits the 1024 block through
    // classes 9, 8 and 7, returning the low half each time.
    let mut heap = Heap::new();
    heap.add_to_heap(0, 1024);
    assert_eq!(heap.allocate(100, 8), Ok(0));
    assert_eq!(heap.stats_alloc_user(), 100);
    assert_eq!(heap.stats_alloc_actual(), 128);
    // The split left one free block each in classes 7, 8 and 9.
    assert_eq!(heap.allocate(128, 8), Ok(128));
    assert_eq!(heap.allocate(256, 8), Ok(256));
    assert_eq!(heap.allocate(512, 8), Ok(512));
    assert_eq!(heap.allocate(8, 8), Err(AllocErr));
}

#[test]
fn splitting_a_larger_class_hands_out_the_lower_half() {
    let mut heap = Heap::new();
    heap.add_to_heap(0, 1024);
    assert_eq!(heap.allocate(100, 8), Ok(0));
    assert_eq!(heap.allocate(128, 8), Ok(128));
    // Class 7 is empty now; the 256 block splits and its lower half is next.
    assert_eq!(heap.allocate(128, 8), Ok(256));
    // Its upper half stays free and serves the next request.
    assert_eq!(heap.allocate(128, 8), Ok(384));
}

#[test]
fn freeing_both_halves_coalesces_them() {
    // Two 128-byte blocks from a 256-byte region merge back into one block.
    let mut heap = Heap::new();
    heap.add_to_heap(0, 256);
    assert_eq!(heap.allocate(128, 8), Ok(0));
    assert_eq!(heap.allocate(128, 8), Ok(128));
    heap.dealloc(0, 128, 8);
    heap.dealloc(128, 128, 8);
    assert_eq!(heap.stats_alloc_user(), 0);
    assert_eq!(heap.stats_alloc_actual(), 0);
    // Only a coalesced 256-byte block can serve this.
    assert_eq!(heap.allocate(256, 8), Ok(0));
}

#[test]
fn empty_heap_reports_out_of_memory_and_keeps_counters() {
    let mut heap = Heap::new();
    assert_eq!(heap.allocate(1, 1), Err(AllocErr));
    assert_eq!(heap.stats_alloc_user(), 0);
    assert_eq!(heap.stats_alloc_actual(), 0);
    assert_eq!(heap.stats_total_bytes(), 0);
}

#[test]
fn user_counter_tracks_requests_exactly() {
    let mut heap = Heap::new();
    heap.add_to_heap(0, 4096);
    assert_eq!(heap.allocate(100, 8), Ok(0));
    assert_eq!(heap.allocate(50, 8), Ok(128));
    assert_eq!(heap.stats_alloc_user(), 150);
    assert_eq!(heap.stats_alloc_actual(), 128 + 64);
    heap.dealloc(0, 100, 8);
    assert_eq!(heap.stats_alloc_user(), 50);
    assert_eq!(heap.stats_alloc_actual(), 64);
    heap.dealloc(128, 50, 8);
    assert_eq!(heap.stats_alloc_user(), 0);
    assert_eq!(heap.stats_alloc_actual(), 0);
    assert_eq!(heap.stats_total_bytes(), 4096);
}

#[test]
fn allocate_then_free_restores_the_heap() {
    // A free immediately after an allocation undoes every split.
    let mut heap = Heap::new();
    heap.add_to_heap(0, 1024);
    assert_eq!(heap.allocate(100, 8), Ok(0));
    heap.dealloc(0, 100, 8);
    // Only a fully re-coalesced heap can serve the whole range as one block.
    assert_eq!(heap.allocate(1024, 8), Ok(0));
}

#[test]
fn free_without_a_free_buddy_does_not_merge() {
    let mut heap = Heap::new();
    heap.add_to_heap(0, 1024);
    assert_eq!(heap.allocate(512, 8), Ok(0));
    assert_eq!(heap.allocate(512, 8), Ok(512));
    heap.dealloc(0, 512, 8);
    // The buddy at 512 is still allocated, so the block stays in class 9.
    assert_eq!(heap.allocate(512, 8), Ok(0));
}

#[test]
fn range_ends_are_rounded_to_machine_words() {
    // [1, 63) rounds to [8, 56): blocks 8, 16, 16, 8.
    let mut heap = Heap::new();
    heap.add_to_heap(1, 63);
    assert_eq!(heap.stats_total_bytes(), 48);
}

#[test]
fn alignment_requests_are_honoured() {
    // A one-byte request at alignment 256 is served 256-aligned.
    let mut heap = Heap::new();
    heap.add_to_heap(256, 512);
    let addr = heap.allocate(1, 256).unwrap();
    assert_eq!(addr % 256, 0);
    assert_eq!(addr, 256);
    assert_eq!(heap.stats_alloc_actual(), 256);
}

#[test]
fn requests_beyond_the_top_class_fail() {
    let mut heap = Heap::new();
    heap.add_to_heap(0, 1024);
    assert_eq!(heap.allocate(0x8000_0001, 8), Err(AllocErr));
    assert_eq!(heap.stats_alloc_user(), 0);
}

#[test]
fn init_is_range_registration_by_length() {
    let mut a = Heap::new();
    let mut b = Heap::new();
    a.init(64, 960);
    b.add_to_heap(64, 1024);
    assert_eq!(a.stats_total_bytes(), b.stats_total_bytes());
    assert_eq!(a.allocate(64, 8), b.allocate(64, 8));
}

#[test]
fn prev_power_of_two_rounds_down() {
    assert_eq!(prev_power_of_two(1), 1);
    assert_eq!(prev_power_of_two(2), 2);
    assert_eq!(prev_power_of_two(3), 2);
    assert_eq!(prev_power_of_two(1000), 512);
    assert_eq!(prev_power_of_two(1024), 1024);
}

#[test]
fn zero_sized_requests_take_one_word() {
    let mut heap = Heap::new();
    heap.add_to_heap(0, 64);
    assert_eq!(heap.allocate(0, 1), Ok(0));
    assert_eq!(heap.stats_alloc_user(), 0);
    assert_eq!(heap.stats_alloc_actual(), 8);
}

#[test]
fn coalescing_chains_through_every_class() {
    // The smallest request splits the 1024 block down through seven
    // classes; freeing it must merge all the way back up.
    let mut heap = Heap::new();
    heap.add_to_heap(0, 1024);
    assert_eq!(heap.allocate(8, 8), Ok(0));
    assert_eq!(heap.stats_alloc_actual(), 8);
    heap.dealloc(0, 8, 8);
    assert_eq!(heap.stats_alloc_actual(), 0);
    assert_eq!(heap.allocate(1024, 8), Ok(0));
}
