//! First-fit allocation over an explicit list of free regions.
use vstd::prelude::*;

use crate::allocator::{align_up, align_up_spec, is_power_of_two};

verus! {

/// Smallest region the list can track: room for a size and a link.
pub const MIN_BLOCK_SIZE: usize = 16;

/// Alignment of every region the list tracks.
pub const NODE_ALIGN: usize = 8;

/// A free region of the heap, `size` bytes from `start`.
#[derive(Clone, Copy, Debug, PartialEq, Eq, Structural)]
pub struct FreeRegion {
    pub start: usize,
    pub size: usize,
}

impl FreeRegion {
    pub open spec fn end(self) -> int {
        self.start + self.size
    }

    /// Address one past the region.
    pub fn end_addr(&self) -> (r: usize)
        requires
            self.end() <= usize::MAX,
        ensures
            r == self.end(),
    {
        self.start + self.size
    }
}

/// A region the list can hold: large enough for a node and aligned for one.
pub open spec fn region_wf(r: FreeRegion) -> bool {
    &&& r.size >= MIN_BLOCK_SIZE
    &&& (r.start as int) % (NODE_ALIGN as int) == 0
    &&& r.end() <= usize::MAX
}

/// `a` and `b` share no byte.
pub open spec fn disjoint(a: FreeRegion, b: FreeRegion) -> bool {
    a.end() <= b.start || b.end() <= a.start
}

/// `r` shares no byte with any region of `rs`.
pub open spec fn disjoint_from_all(r: FreeRegion, rs: Seq<FreeRegion>) -> bool {
    forall|i: int| 0 <= i < rs.len() ==> disjoint(r, #[trigger] rs[i])
}

/// The size and alignment actually reserved for a request: the alignment is
/// raised to that of a node, the size padded to it and raised to a node.
pub open spec fn adjusted_align(align: int) -> int {
    if align < NODE_ALIGN { NODE_ALIGN as int } else { align }
}

pub open spec fn adjusted_size(size: int, align: int) -> int {
    let padded = align_up_spec(size, adjusted_align(align));
    if padded < MIN_BLOCK_SIZE { MIN_BLOCK_SIZE as int } else { padded }
}

/// Where an allocation of `size` bytes aligned to `align` would start in `r`.
pub open spec fn placement(r: FreeRegion, align: int) -> int {
    align_up_spec(r.start as int, align)
}

/// Bytes of `r` left after the allocation.
pub open spec fn excess(r: FreeRegion, size: int, align: int) -> int {
    r.end() - (placement(r, align) + size)
}

/// `r` can hold the request at an aligned start.
pub open spec fn fits(r: FreeRegion, size: int, align: int) -> bool {
    &&& r.start + align - 1 <= usize::MAX
    &&& placement(r, align) + size <= r.end()
}

/// `i` is the first region of `rs` that can hold the request.
pub open spec fn is_first_fit(rs: Seq<FreeRegion>, size: int, align: int, i: int) -> bool {
    &&& 0 <= i < rs.len()
    &&& fits(rs[i], size, align)
    &&& forall|j: int| 0 <= j < i ==> !fits(#[trigger] rs[j], size, align)
}

/// The free list after the request was served from region `i`: the region is
/// unlinked, and a remainder large enough for a node goes to the head of the
/// list; a smaller one is handed out with the block.
pub open spec fn after_alloc(rs: Seq<FreeRegion>, size: int, align: int, i: int) -> Seq<FreeRegion> {
    let r = rs[i];
    let rest = rs.remove(i);
    if excess(r, size, align) >= MIN_BLOCK_SIZE {
        seq![FreeRegion { start: (placement(r, align) + size) as usize, size: excess(r, size, align) as usize }] + rest
    } else {
        rest
    }
}

/// What an allocation of `size` bytes aligned to `align` does to the free
/// list `rs`, giving `r` and leaving `rs2`: it fails, leaving the list as it
/// was, exactly when no region fits; otherwise it is served at the first
/// region that fits.
pub open spec fn allocate_post(
    rs: Seq<FreeRegion>,
    size: int,
    align: int,
    r: Option<usize>,
    rs2: Seq<FreeRegion>,
) -> bool {
    let sz = adjusted_size(size, align);
    let al = adjusted_align(align);
    &&& r.is_none() <==> forall|i: int| 0 <= i < rs.len() ==> !fits(#[trigger] rs[i], sz, al)
    &&& r.is_none() ==> rs2 == rs
    &&& r matches Some(a) ==> exists|i: int| {
        &&& is_first_fit(rs, sz, al, i)
        &&& a == placement(rs[i], al)
        &&& rs2 == after_alloc(rs, sz, al, i)
    }
}

/// A free-list allocator: regions are handed out first-fit and returned to
/// the head of the list, never merged.
pub struct LinkedListAllocator {
    regions: Vec<FreeRegion>,
}

impl View for LinkedListAllocator {
    type V = Seq<FreeRegion>;

    closed spec fn view(&self) -> Seq<FreeRegion> {
        self.regions@
    }
}

proof fn lemma_pow2_multiple_of_node_align(a: usize)
    requires
        is_power_of_two(a),
        a >= NODE_ALIGN,
    ensures
        a % 8 == 0,
{
    assert(a > 0 && (a & ((a - 1) as usize)) == 0 && a >= 8 ==> (a & 7usize) == 0) by (bit_vector);
    assert((a & 7usize) == 0 ==> a % 8 == 0) by (bit_vector);
}

proof fn lemma_multiple_transitive(x: int, a: int)
    requires
        x >= 0,
        a > 0,
        x % a == 0,
        a % 8 == 0,
    ensures
        x % 8 == 0,
{
    vstd::arithmetic::div_mod::lemma_fundamental_div_mod(x, a);
    vstd::arithmetic::div_mod::lemma_fundamental_div_mod(a, 8);
    let k = x / a;
    let m = a / 8;
    assert(x == 8 * (m * k)) by (nonlinear_arith)
        requires x == a * k, a == 8 * m;
    vstd::arithmetic::div_mod::lemma_mod_multiples_basic(m * k, 8);
    assert((m * k) * 8 == 8 * (m * k)) by (nonlinear_arith);
}

/// The size and alignment reserved for a request of `size` bytes aligned to
/// `align`.
pub fn size_align(size: usize, align: usize) -> (r: (usize, usize))
    requires
        is_power_of_two(align),
        size + align <= isize::MAX,
    ensures
        r.0 == adjusted_size(size as int, align as int),
        r.1 == adjusted_align(align as int),
        is_power_of_two(r.1),
        r.0 >= MIN_BLOCK_SIZE,
        r.0 >= size,
        r.0 % NODE_ALIGN == 0,
        r.1 >= NODE_ALIGN,
        r.0 < size + r.1 + MIN_BLOCK_SIZE,
{
    let a: usize = if align < NODE_ALIGN {
        assert(8usize & 7usize == 0) by (bit_vector);
        NODE_ALIGN
    } else {
        align
    };
    let padded = align_up(size, a);
    proof {
        lemma_pow2_multiple_of_node_align(a);
        lemma_multiple_transitive(padded as int, a as int);
    }
    if padded < MIN_BLOCK_SIZE {
        (MIN_BLOCK_SIZE, a)
    } else {
        (padded, a)
    }
}

impl LinkedListAllocator {
    /// Every region can be tracked, and no two regions overlap.
    pub open spec fn wf(&self) -> bool {
        &&& forall|i: int| 0 <= i < self@.len() ==> region_wf(#[trigger] self@[i])
        &&& forall|i: int, j: int| 0 <= i < j < self@.len() ==> disjoint(#[trigger] self@[i], #[trigger] self@[j])
    }

    /// An allocator with no free memory.
    pub fn new() -> (r: Self)
        ensures
            r@ == Seq::<FreeRegion>::empty(),
            r.wf(),
    {
        LinkedListAllocator { regions: Vec::new() }
    }

    /// The free regions, head first.
    pub fn free_regions(&self) -> (r: &Vec<FreeRegion>)
        ensures
            r@ == self@,
    {
        &self.regions
    }

    /// Hands the heap `[heap_start, heap_start + heap_size)` to a fresh
    /// allocator; it is given a heap once.
    pub fn init(&mut self, heap_start: usize, heap_size: usize)
        requires
            old(self)@ == Seq::<FreeRegion>::empty(),
            region_wf(FreeRegion { start: heap_start, size: heap_size }),
        ensures
            final(self).wf(),
            final(self)@ == seq![FreeRegion { start: heap_start, size: heap_size }],
    {
        self.add_free_region(heap_start, heap_size);
    }

    /// Puts a region at the head of the list.
    fn add_free_region(&mut self, addr: usize, size: usize)
        requires
            old(self).wf(),
            region_wf(FreeRegion { start: addr, size }),
            disjoint_from_all(FreeRegion { start: addr, size }, old(self)@),
        ensures
            final(self).wf(),
            final(self)@ == seq![FreeRegion { start: addr, size }] + old(self)@,
    {
        self.regions.insert(0, FreeRegion { start: addr, size });
        assert(self@ =~= seq![FreeRegion { start: addr, size }] + old(self)@);
        assert forall|i: int, j: int| 0 <= i < j < self@.len() implies disjoint(#[trigger] self@[i], #[trigger] self@[j]) by {
            assert(self@[j] == old(self)@[j - 1]);
            if i > 0 {
                assert(self@[i] == old(self)@[i - 1]);
            }
        }
    }
}

/// Tries to place an allocation in `region`; fails where it does not fit.
pub fn alloc_from_region(region: &FreeRegion, size: usize, align: usize) -> (r: Result<usize, ()>)
    requires
        region_wf(*region),
        is_power_of_two(align),
    ensures
        r.is_ok() <==> fits(*region, size as int, align as int),
        r matches Ok(a) ==> a == placement(*region, align as int),
{
    if region.start > usize::MAX - (align - 1) {
        return Err(());
    }
    let alloc_start = align_up(region.start, align);
    if size > usize::MAX - alloc_start {
        return Err(());
    }
    let alloc_end = alloc_start + size;
    let region_end = region.end_addr();
    if alloc_end > region_end {
        return Err(());
    }
    Ok(alloc_start)
}

impl LinkedListAllocator {
    /// Unlinks and returns the first region that can hold the request, with
    /// the address the allocation starts at.
    fn find_region(&mut self, size: usize, align: usize) -> (r: Option<(FreeRegion, usize)>)
        requires
            old(self).wf(),
            is_power_of_two(align),
        ensures
            final(self).wf(),
            r.is_none() <==> forall|i: int| 0 <= i < old(self)@.len() ==> !fits(#[trigger] old(self)@[i], size as int, align as int),
            r.is_none() ==> final(self)@ == old(self)@,
            r matches Some((region, start)) ==> exists|i: int| {
                &&& is_first_fit(old(self)@, size as int, align as int, i)
                &&& region == old(self)@[i]
                &&& start == placement(region, align as int)
                &&& final(self)@ == old(self)@.remove(i)
            },
    {
        let mut i: usize = 0;
        while i < self.regions.len()
            invariant
                self.wf(),
                self@ == old(self)@,
                is_power_of_two(align),
                i <= self@.len(),
                forall|j: int| 0 <= j < i ==> !fits(#[trigger] self@[j], size as int, align as int),
            decreases self@.len() - i,
        {
            let region = self.regions[i];
            match alloc_from_region(&region, size, align) {
                Ok(start) => {
                    let removed = self.regions.remove(i);
                    assert(is_first_fit(old(self)@, size as int, align as int, i as int));
                    assert forall|k: int| 0 <= k < self@.len() implies region_wf(#[trigger] self@[k]) by {
                        if k < i {
                            assert(self@[k] == old(self)@[k]);
                        } else {
                            assert(self@[k] == old(self)@[k + 1]);
                        }
                    }
                    assert forall|a: int, b: int| 0 <= a < b < self@.len() implies disjoint(#[trigger] self@[a], #[trigger] self@[b]) by {
                        let a0 = if a < i { a } else { a + 1 };
                        let b0 = if b < i { b } else { b + 1 };
                        assert(self@[a] == old(self)@[a0]);
                        assert(self@[b] == old(self)@[b0]);
                    }
                    return Some((removed, start));
                },
                Err(()) => {},
            }
            i = i + 1;
        }
        None
    }

    /// Serves `size` bytes aligned to `align` from the first region that
    /// fits; `None` when no region does.
    pub fn allocate(&mut self, size: usize, align: usize) -> (r: Option<usize>)
        requires
            old(self).wf(),
            is_power_of_two(align),
            size + align <= isize::MAX,
        ensures
            final(self).wf(),
            allocate_post(old(self)@, size as int, align as int, r, final(self)@),
    {
        let (size, align) = size_align(size, align);
        match self.find_region(size, align) {
            Some((region, alloc_start)) => {
                let ghost i = choose|i: int| {
                    &&& is_first_fit(old(self)@, size as int, align as int, i)
                    &&& region == old(self)@[i]
                    &&& alloc_start == placement(region, align as int)
                    &&& self@ == old(self)@.remove(i)
                };
                let alloc_end = alloc_start + size;
                let excess_size = region.end_addr() - alloc_end;
                if excess_size >= MIN_BLOCK_SIZE {
                    proof {
                        crate::allocator::lemma_align_up_props(region.start as int, align as int);
                        lemma_pow2_multiple_of_node_align(align);
                        lemma_multiple_transitive(alloc_start as int, align as int);
                        vstd::arithmetic::div_mod::lemma_mod_adds(alloc_start as int, size as int, 8);
                        let rem = FreeRegion { start: alloc_end, size: excess_size };
                        assert forall|k: int| 0 <= k < self@.len() implies disjoint(rem, #[trigger] self@[k]) by {
                            let k0 = if k < i { k } else { k + 1 };
                            assert(self@[k] == old(self)@[k0]);
                            if k0 < i {
                                assert(disjoint(old(self)@[k0], old(self)@[i]));
                            } else {
                                assert(disjoint(old(self)@[i], old(self)@[k0]));
                            }
                        }
                    }
                    self.add_free_region(alloc_end, excess_size);
                }
                Some(alloc_start)
            },
            None => None,
        }
    }

    /// Returns a block to the head of the list, with the size and alignment
    /// it was requested with; a block that was handed out overlaps no free
    /// region.
    pub fn deallocate(&mut self, addr: usize, size: usize, align: usize)
        requires
            old(self).wf(),
            is_power_of_two(align),
            size + align <= isize::MAX,
            addr % NODE_ALIGN == 0,
            addr + adjusted_size(size as int, align as int) <= usize::MAX,
            disjoint_from_all(FreeRegion { start: addr, size: adjusted_size(size as int, align as int) as usize }, old(self)@),
        ensures
            final(self).wf(),
            final(self)@ == seq![FreeRegion { start: addr, size: adjusted_size(size as int, align as int) as usize }] + old(self)@,
    {
        let (size, _) = size_align(size, align);
        self.add_free_region(addr, size);
    }
}

} // verus!
