use buddy_system_allocator::AllocErr;
use buddy_system_allocator::Heap;
use buddy_system_allocator::LockedHeap;
use buddy_system_allocator::LockedHeapWithRescue;
use buddy_system_allocator::Rescue;

#[test]
fn locked_heap_serves_through_the_lock() {
    let heap = LockedHeap::new();
    heap.init(0, 1024);
    assert_eq!(heap.allocate(100, 8), Ok(0));
    heap.dealloc(0, 100, 8);
    assert_eq!(heap.allocate(1024, 8), Ok(0));
}

#[test]
fn locked_heap_empty_starts_without_capacity() {
    let heap = LockedHeap::empty();
    assert_eq!(heap.allocate(8, 8), Err(AllocErr));
}

struct AddFallbackRegion;

impl Rescue for AddFallbackRegion {
    fn rescue(&self, heap: &mut Heap) {
        heap.add_to_heap(4096, 8192);
    }
}

#[test]
fn rescue_runs_once_on_failure_and_the_retry_succeeds() {
    let heap = LockedHeapWithRescue::new(AddFallbackRegion);
    // The heap starts empty: the first attempt fails, the hook registers a
    // region, and the one retry serves from it.
    assert_eq!(heap.allocate(100, 8), Ok(4096));
}

struct NoHelp;

impl Rescue for NoHelp {
    fn rescue(&self, _heap: &mut Heap) {}
}

#[test]
fn failure_survives_an_unhelpful_rescue() {
    let heap = LockedHeapWithRescue::new(NoHelp);
    assert_eq!(heap.allocate(100, 8), Err(AllocErr));
}

#[test]
fn rescue_is_not_consulted_while_capacity_remains() {
    let heap = LockedHeapWithRescue::new(AddFallbackRegion);
    heap.init(0, 1024);
    assert_eq!(heap.allocate(100, 8), Ok(0));
}
