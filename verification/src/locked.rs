//! Lock-protected wrappers around the heap, shaped for use as a
//! process-wide allocator: a spinlock serializes all calls, and a rescue
//! variant gives the caller one chance to feed the heap more memory before
//! an allocation failure is reported.
//!
//! The heap behind the lock is hidden state, so nothing can be promised
//! here about how one call relates to the next; the per-call guarantees
//! live on `Heap` itself, whose methods these wrappers forward to under the
//! lock, and on `alloc_with_rescue`, the verified try-rescue-retry step.

use vstd::prelude::*;

verus! {

use crate::heap::AllocErr;
use crate::heap::Heap;
use crate::heap::align_word_down;
use crate::heap::align_word_up;
use crate::heap::spec_alloc_post;
use crate::heap::spec_alloc_success;
use crate::heap::spec_norm_size;
use crate::arith::is_power_of_two;
use crate::arith::MAX_BLOCK_SIZE;
use crate::arith::WORD_SIZE;

#[verifier::external_type_specification]
#[verifier::external_body]
#[verifier::reject_recursive_types(T)]
pub struct ExSpinMutex<T: ?Sized>(spin::Mutex<T>);

pub assume_specification<T>[ spin::Mutex::<T>::new ](t: T) -> spin::Mutex<T>;

/// A `Heap` behind a spinlock: the process-wide allocator shape.  Every
/// call locks, forwards to the heap, and unlocks on return.  One obligation
/// cannot be written down here because it concerns the hidden heap behind
/// the lock: across all calls, the registered bytes and the requested bytes
/// must stay within the address space, as with the plain `Heap`.
pub struct LockedHeap(spin::Mutex<Heap>);

impl LockedHeap {
    /// Create a wrapper around an empty heap.
    pub fn new() -> LockedHeap {
        LockedHeap(spin::Mutex::new(Heap::new()))
    }

    /// Create a wrapper around an empty heap.
    pub fn empty() -> LockedHeap {
        LockedHeap(spin::Mutex::new(Heap::new()))
    }

    /// Relies on `spin::Mutex::lock` for exclusive access while the inner
    /// heap registers `[start, start + size)`; the preconditions are those
    /// of `Heap::init` that its arguments alone decide.
    #[verifier::external_body]
    pub fn init(&self, start: usize, size: usize)
        requires
            start + size <= usize::MAX,
            start + WORD_SIZE - 1 <= usize::MAX,
            align_word_up(start as int) <= align_word_down(start + size),
    {
        self.0.lock().init(start, size);
    }

    /// Relies on `spin::Mutex::lock` for exclusive access while the inner
    /// heap registers `[start, end)`; the preconditions are those of
    /// `Heap::add_to_heap` that its arguments alone decide.
    #[verifier::external_body]
    pub fn add_to_heap(&self, start: usize, end: usize)
        requires
            start + WORD_SIZE - 1 <= usize::MAX,
            align_word_up(start as int) <= align_word_down(end as int),
    {
        self.0.lock().add_to_heap(start, end);
    }

    /// Relies on `spin::Mutex::lock` for exclusive access while the inner
    /// heap serves the request; the heap state is hidden behind the lock,
    /// so no more than the result's shape can be stated here.
    #[verifier::external_body]
    pub fn allocate(&self, size: usize, align: usize) -> (r: Result<usize, AllocErr>)
        requires
            is_power_of_two(align as int),
    {
        self.0.lock().allocate(size, align)
    }

    /// Relies on `spin::Mutex::lock` for exclusive access while the inner
    /// heap takes the block back; the caller passes the size and alignment
    /// of the original request, as with `Heap::dealloc`.
    #[verifier::external_body]
    pub fn dealloc(&self, addr: usize, size: usize, align: usize)
        requires
            is_power_of_two(align as int),
            size <= MAX_BLOCK_SIZE,
            align <= MAX_BLOCK_SIZE,
            (addr as int) % spec_norm_size(size as int, align as int) == 0,
            addr + spec_norm_size(size as int, align as int) <= usize::MAX,
    {
        self.0.lock().dealloc(addr, size, align);
    }
}

/// A caller-supplied recovery hook, run once on allocation failure with
/// exclusive access to the heap (to register a fallback region, say).  The
/// one obligation on an implementation is to leave the heap well-formed,
/// which every public mutator of `Heap` guarantees on its own; beyond that,
/// what the hook does is the caller's business.
pub trait Rescue {
    /// Give the failing heap more room, or do nothing.
    fn rescue(&self, heap: &mut Heap)
        requires
            old(heap).wf(),
        ensures
            final(heap).wf(),
    ;
}

/// Serve a request from the heap, consulting the rescue hook once: when the
/// first attempt fails, the hook runs with exclusive access to the heap and
/// the allocation is retried exactly once.  The outcome is that of one
/// ordinary allocation — from the given heap when the first attempt serves
/// the request, and otherwise from the well-formed heap the hook left.
pub fn alloc_with_rescue<R: Rescue>(
    heap: &mut Heap,
    rescue: &R,
    size: usize,
    align: usize,
) -> (r: Result<usize, AllocErr>)
    requires
        old(heap).wf(),
        is_power_of_two(align as int),
    ensures
        final(heap).wf(),
        spec_alloc_success(*old(heap), size, align)
            ==> spec_alloc_post(*old(heap), *final(heap), size, align, r),
        !spec_alloc_success(*old(heap), size, align)
            ==> exists|mid: Heap|
                #[trigger] mid.wf() && spec_alloc_post(mid, *final(heap), size, align, r),
{
    let first = heap.allocate(size, align);
    match first {
        Ok(addr) => Ok(addr),
        Err(_) => {
            rescue.rescue(heap);
            let ghost mid = *heap;
            let r2 = heap.allocate(size, align);
            proof {
                assert(mid.wf() && spec_alloc_post(mid, *heap, size, align, r2));
            }
            r2
        },
    }
}

/// A `Heap` behind a spinlock with a rescue hook: when an allocation fails,
/// the hook is called once, still under the lock, with exclusive access to
/// the heap, and the allocation is retried exactly once.
pub struct LockedHeapWithRescue<R: Rescue> {
    inner: spin::Mutex<Heap>,
    rescue: R,
}

impl<R: Rescue> LockedHeapWithRescue<R> {
    /// The rescue hook the wrapper owns.
    pub closed spec fn spec_rescue(&self) -> R {
        self.rescue
    }

    /// Create a wrapper around an empty heap with the given rescue hook.
    pub fn new(rescue: R) -> (r: LockedHeapWithRescue<R>)
        ensures
            r.spec_rescue() == rescue,
    {
        LockedHeapWithRescue { inner: spin::Mutex::new(Heap::new()), rescue }
    }

    /// Relies on `spin::Mutex::lock` for exclusive access while the inner
    /// heap registers `[start, start + size)`; the preconditions are those
    /// of `Heap::init` that its arguments alone decide.
    #[verifier::external_body]
    pub fn init(&self, start: usize, size: usize)
        requires
            start + size <= usize::MAX,
            start + WORD_SIZE - 1 <= usize::MAX,
            align_word_up(start as int) <= align_word_down(start + size),
    {
        self.inner.lock().init(start, size);
    }

    /// Relies on `spin::Mutex::lock` for exclusive access across the first
    /// try, the rescue hook, and the single retry, all of which happen in
    /// the verified `alloc_with_rescue`; the heap state is hidden behind
    /// the lock, so no more than the result's shape can be stated here.
    #[verifier::external_body]
    pub fn allocate(&self, size: usize, align: usize) -> (r: Result<usize, AllocErr>)
        requires
            is_power_of_two(align as int),
    {
        let mut inner = self.inner.lock();
        alloc_with_rescue(&mut *inner, &self.rescue, size, align)
    }

    /// Relies on `spin::Mutex::lock` for exclusive access while the inner
    /// heap takes the block back.
    #[verifier::external_body]
    pub fn dealloc(&self, addr: usize, size: usize, align: usize)
        requires
            is_power_of_two(align as int),
            size <= MAX_BLOCK_SIZE,
            align <= MAX_BLOCK_SIZE,
            (addr as int) % spec_norm_size(size as int, align as int) == 0,
            addr + spec_norm_size(size as int, align as int) <= usize::MAX,
    {
        self.inner.lock().dealloc(addr, size, align);
    }
}

} // verus!
