//! Monotonic-pointer allocation with bulk reclamation.
use vstd::prelude::*;

use crate::allocator::{align_up, align_up_spec, is_power_of_two};

verus! {

/// The abstract state of a bump allocator.
pub struct BumpState {
    pub heap_start: nat,
    pub heap_end: nat,
    pub next: nat,
    pub allocations: nat,
}

/// Where the next allocation of `size` bytes aligned to `align` would start,
/// and whether it fits below the heap end and the counter can grow.
pub open spec fn bump_fits(s: BumpState, size: nat, align: nat) -> bool {
    &&& s.next + align - 1 <= usize::MAX
    &&& align_up_spec(s.next as int, align as int) + size <= s.heap_end
    &&& s.allocations < usize::MAX
}

/// The state after an allocation that fits.
pub open spec fn bump_after_alloc(s: BumpState, size: nat, align: nat) -> BumpState {
    BumpState {
        next: (align_up_spec(s.next as int, align as int) + size) as nat,
        allocations: s.allocations + 1,
        ..s
    }
}

/// The state after one deallocation: the counter drops, and at zero the
/// frontier returns to the heap start.
pub open spec fn bump_after_dealloc(s: BumpState) -> BumpState {
    if s.allocations <= 1 {
        BumpState { next: s.heap_start, allocations: 0, ..s }
    } else {
        BumpState { allocations: (s.allocations - 1) as nat, ..s }
    }
}

/// The state after `j` deallocations.
pub open spec fn bump_after_deallocs(s: BumpState, j: nat) -> BumpState
    decreases j,
{
    if j == 0 {
        s
    } else {
        bump_after_dealloc(bump_after_deallocs(s, (j - 1) as nat))
    }
}

/// A bump allocator: each allocation advances a frontier; memory comes back
/// only once every allocation has been freed.
pub struct BumpAllocator {
    heap_start: usize,
    heap_end: usize,
    next: usize,
    allocations: usize,
}

impl View for BumpAllocator {
    type V = BumpState;

    closed spec fn view(&self) -> BumpState {
        BumpState {
            heap_start: self.heap_start as nat,
            heap_end: self.heap_end as nat,
            next: self.next as nat,
            allocations: self.allocations as nat,
        }
    }
}

impl BumpAllocator {
    pub open spec fn wf(&self) -> bool {
        &&& self@.heap_start <= self@.next <= self@.heap_end <= usize::MAX
        &&& self@.allocations <= usize::MAX
    }

    /// An allocator over an empty heap.
    pub fn new() -> (r: Self)
        ensures
            r.wf(),
            r@ == (BumpState { heap_start: 0, heap_end: 0, next: 0, allocations: 0 }),
    {
        BumpAllocator { heap_start: 0, heap_end: 0, next: 0, allocations: 0 }
    }

    /// Hands the heap `[heap_start, heap_start + heap_size)` to a fresh
    /// allocator; it is given a heap once.
    pub fn init(&mut self, heap_start: usize, heap_size: usize)
        requires
            old(self)@ == (BumpState { heap_start: 0, heap_end: 0, next: 0, allocations: 0 }),
            heap_start + heap_size <= usize::MAX,
        ensures
            final(self).wf(),
            final(self)@ == (BumpState {
                heap_start: heap_start as nat,
                heap_end: (heap_start + heap_size) as nat,
                next: heap_start as nat,
                allocations: old(self)@.allocations,
            }),
    {
        self.heap_start = heap_start;
        self.heap_end = heap_start + heap_size;
        self.next = heap_start;
    }

    /// The current allocation frontier.
    pub fn frontier(&self) -> (r: usize)
        ensures
            r == self@.next,
    {
        self.next
    }

    /// The number of live allocations.
    pub fn allocation_count(&self) -> (r: usize)
        ensures
            r == self@.allocations,
    {
        self.allocations
    }

    /// Hands out `size` bytes aligned to `align` at the frontier; `None` when
    /// they do not fit below the heap end.
    pub fn allocate(&mut self, size: usize, align: usize) -> (r: Option<usize>)
        requires
            old(self).wf(),
            is_power_of_two(align),
        ensures
            final(self).wf(),
            r.is_some() <==> bump_fits(old(self)@, size as nat, align as nat),
            r.is_none() ==> final(self)@ == old(self)@,
            r matches Some(a) ==> {
                &&& a == align_up_spec(old(self)@.next as int, align as int)
                &&& final(self)@ == bump_after_alloc(old(self)@, size as nat, align as nat)
            },
    {
        if self.next > usize::MAX - (align - 1) {
            return None;
        }
        let alloc_start = align_up(self.next, align);
        if size > usize::MAX - alloc_start {
            return None;
        }
        let alloc_end = alloc_start + size;
        if alloc_end > self.heap_end || self.allocations == usize::MAX {
            None
        } else {
            self.next = alloc_end;
            self.allocations = self.allocations + 1;
            Some(alloc_start)
        }
    }

    /// Frees one allocation; the address does not matter, only the count.
    pub fn deallocate(&mut self, addr: usize, size: usize, align: usize)
        requires
            old(self).wf(),
            old(self)@.allocations > 0,
        ensures
            final(self).wf(),
            final(self)@ == bump_after_dealloc(old(self)@),
    {
        self.allocations = self.allocations - 1;
        if self.allocations == 0 {
            self.next = self.heap_start;
        }
    }
}

/// With `k` live allocations, freeing all `k` puts the frontier back at the
/// heap start, and freeing `k - 1` of them leaves it where it was.
pub proof fn lemma_bump_reclaims_only_when_all_freed(s: BumpState, k: nat)
    requires
        s.allocations == k,
        k > 0,
    ensures
        bump_after_deallocs(s, k).next == s.heap_start,
        bump_after_deallocs(s, k).allocations == 0,
        bump_after_deallocs(s, (k - 1) as nat).next == s.next,
        bump_after_deallocs(s, (k - 1) as nat).allocations == 1,
{
    lemma_partial_deallocs(s, (k - 1) as nat);
}

proof fn lemma_partial_deallocs(s: BumpState, j: nat)
    requires
        j < s.allocations,
    ensures
        bump_after_deallocs(s, j) == (BumpState { allocations: (s.allocations - j) as nat, ..s }),
    decreases j,
{
    if j > 0 {
        lemma_partial_deallocs(s, (j - 1) as nat);
    }
}

} // verus!
