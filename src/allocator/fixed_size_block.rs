//! Segregated free lists of power-of-two blocks over a free-list fallback.
use vstd::prelude::*;

use crate::allocator::{is_power_of_two, lemma_align_up_props};
use crate::allocator::linked_list::{
    adjusted_align, adjusted_size, allocate_post, disjoint_from_all, placement, region_wf, FreeRegion, LinkedListAllocator,
    NODE_ALIGN,
};

verus! {

/// Number of size classes: blocks of 8, 16, ..., 2048 bytes.
pub const NUM_CLASSES: usize = 9;

/// The smallest block size.
pub const MIN_CLASS_SIZE: usize = 8;

/// The block size of class `i`.
pub open spec fn block_size(i: nat) -> nat
    decreases i,
{
    if i == 0 {
        MIN_CLASS_SIZE as nat
    } else {
        2 * block_size((i - 1) as nat)
    }
}

/// The first class from `i` on whose blocks hold `required` bytes.
pub open spec fn class_from(required: int, i: nat) -> Option<nat>
    decreases NUM_CLASSES - i,
{
    if i >= NUM_CLASSES {
        None
    } else if block_size(i) >= required {
        Some(i)
    } else {
        class_from(required, i + 1)
    }
}

/// The class that serves `size` bytes aligned to `align`: the smallest block
/// that holds both; `None` above the largest block.
pub open spec fn size_class(size: int, align: int) -> Option<nat> {
    class_from(if size >= align { size } else { align }, 0)
}

/// The abstract state: one stack of free block addresses per class (its
/// head last), and the fallback's free list.
pub struct FixedState {
    pub lists: Seq<Seq<usize>>,
    pub fallback: Seq<FreeRegion>,
}

/// The class lists after a block of `size` bytes aligned to `align` at
/// `addr` was freed into its class.
pub open spec fn lists_after_dealloc(lists: Seq<Seq<usize>>, size: int, align: int, addr: usize) -> Seq<Seq<usize>> {
    match size_class(size, align) {
        Some(i) => lists.update(i as int, lists[i as int].push(addr)),
        None => lists,
    }
}

/// An allocator with one free list per power-of-two block size; requests
/// above the largest block, and blocks not yet carved, come from a free-list
/// fallback.
pub struct FixedSizeBlockAllocator {
    list_heads: Vec<Vec<usize>>,
    fallback_allocator: LinkedListAllocator,
}

impl View for FixedSizeBlockAllocator {
    type V = FixedState;

    closed spec fn view(&self) -> FixedState {
        FixedState {
            lists: self.list_heads@.map_values(|l: Vec<usize>| l@),
            fallback: self.fallback_allocator@,
        }
    }
}

/// The block size of class `i`.
pub fn class_block_size(i: usize) -> (r: usize)
    requires
        i < NUM_CLASSES,
    ensures
        r == block_size(i as nat),
{
    let mut size: usize = MIN_CLASS_SIZE;
    let mut k: usize = 0;
    while k < i
        invariant
            k <= i < NUM_CLASSES,
            size == block_size(k as nat),
        decreases i - k,
    {
        proof {
            lemma_block_size_bounds(k as nat);
        }
        size = size * 2;
        k = k + 1;
    }
    size
}

proof fn lemma_block_size_bounds(i: nat)
    requires
        i < NUM_CLASSES,
    ensures
        MIN_CLASS_SIZE <= block_size(i) <= 2048,
        is_power_of_two(block_size(i) as usize),
    decreases i,
{
    reveal_with_fuel(block_size, 10);
    assert(8usize & 7usize == 0 && 16usize & 15usize == 0 && 32usize & 31usize == 0 && 64usize & 63usize == 0
        && 128usize & 127usize == 0 && 256usize & 255usize == 0 && 512usize & 511usize == 0
        && 1024usize & 1023usize == 0 && 2048usize & 2047usize == 0) by (bit_vector);
}

/// The class that serves `size` bytes aligned to `align`, if any.
pub fn list_index(size: usize, align: usize) -> (r: Option<usize>)
    ensures
        r.is_none() <==> size_class(size as int, align as int).is_none(),
        r matches Some(i) ==> i < NUM_CLASSES && size_class(size as int, align as int) == Some(i as nat),
{
    let required = if size >= align { size } else { align };
    assert(size_class(size as int, align as int) == class_from(required as int, 0));
    let mut i: usize = 0;
    let mut bs: usize = MIN_CLASS_SIZE;
    while i < NUM_CLASSES
        invariant
            i <= NUM_CLASSES,
            i < NUM_CLASSES ==> bs == block_size(i as nat),
            class_from(required as int, 0) == class_from(required as int, i as nat),
            size_class(size as int, align as int) == class_from(required as int, 0),
        decreases NUM_CLASSES - i,
    {
        proof {
            lemma_block_size_bounds(i as nat);
        }
        if bs >= required {
            assert(class_from(required as int, i as nat) == Some(i as nat));
            return Some(i);
        }
        i = i + 1;
        bs = bs * 2;
    }
    assert(class_from(required as int, i as nat) == None::<nat>);
    None
}

impl FixedSizeBlockAllocator {
    pub open spec fn wf(&self) -> bool {
        &&& self@.lists.len() == NUM_CLASSES
        &&& self.fallback_wf()
        &&& forall|k: int, j: int|
            0 <= k < NUM_CLASSES && 0 <= j < self@.lists[k].len() ==> (#[trigger] self@.lists[k][j] as int) % (block_size(k as nat) as int) == 0
    }

    pub closed spec fn fallback_wf(&self) -> bool {
        self.fallback_allocator.wf()
    }

    /// An allocator with empty class lists and an empty fallback.
    pub fn new() -> (r: Self)
        ensures
            r.wf(),
            r@.lists == Seq::new(NUM_CLASSES as nat, |i: int| Seq::<usize>::empty()),
            r@.fallback == Seq::<FreeRegion>::empty(),
    {
        let mut list_heads: Vec<Vec<usize>> = Vec::new();
        let mut i: usize = 0;
        while i < NUM_CLASSES
            invariant
                i <= NUM_CLASSES,
                list_heads@.len() == i,
                forall|j: int| 0 <= j < i ==> (#[trigger] list_heads@[j])@ == Seq::<usize>::empty(),
            decreases NUM_CLASSES - i,
        {
            list_heads.push(Vec::new());
            i = i + 1;
        }
        let r = FixedSizeBlockAllocator { list_heads, fallback_allocator: LinkedListAllocator::new() };
        assert(r@.lists =~= Seq::new(NUM_CLASSES as nat, |i: int| Seq::<usize>::empty()));
        r
    }

    /// Hands the heap `[heap_start, heap_start + heap_size)` to the fallback of
    /// a fresh allocator; it is given a heap once.
    pub fn init(&mut self, heap_start: usize, heap_size: usize)
        requires
            old(self).wf(),
            old(self)@.fallback == Seq::<FreeRegion>::empty(),
            region_wf(FreeRegion { start: heap_start, size: heap_size }),
        ensures
            final(self).wf(),
            final(self)@.lists == old(self)@.lists,
            final(self)@.fallback == seq![FreeRegion { start: heap_start, size: heap_size }],
    {
        self.fallback_allocator.init(heap_start, heap_size);
    }

    /// Takes the head block of class `i`, if any.
    fn pop_block(&mut self, i: usize) -> (r: Option<usize>)
        requires
            old(self).wf(),
            i < NUM_CLASSES,
        ensures
            final(self).wf(),
            final(self)@.fallback == old(self)@.fallback,
            old(self)@.lists[i as int].len() == 0 ==> r.is_none() && final(self)@.lists == old(self)@.lists,
            old(self)@.lists[i as int].len() > 0 ==> {
                &&& r == Some(old(self)@.lists[i as int].last())
                &&& final(self)@.lists == old(self)@.lists.update(i as int, old(self)@.lists[i as int].drop_last())
            },
    {
        let mut list = self.list_heads.remove(i);
        let r = list.pop();
        self.list_heads.insert(i, list);
        assert(self.list_heads@ =~= old(self).list_heads@.update(i as int, list));
        assert(self@.lists =~= old(self)@.lists.update(i as int, list@));
        assert forall|k: int, j: int| 0 <= k < NUM_CLASSES && 0 <= j < self@.lists[k].len() implies (#[trigger] self@.lists[k][j] as int) % (block_size(k as nat) as int) == 0 by {
            if k == i {
                assert(self@.lists[k][j] == old(self)@.lists[k][j]);
            }
        }
        proof {
            if old(self)@.lists[i as int].len() == 0 {
                assert(self@.lists =~= old(self)@.lists);
            } else {
                assert(list@ =~= old(self)@.lists[i as int].drop_last());
            }
        }
        r
    }

    /// Pushes a freed block onto class `i`.
    fn push_block(&mut self, i: usize, addr: usize)
        requires
            old(self).wf(),
            i < NUM_CLASSES,
            (addr as int) % (block_size(i as nat) as int) == 0,
        ensures
            final(self).wf(),
            final(self)@.fallback == old(self)@.fallback,
            final(self)@.lists == old(self)@.lists.update(i as int, old(self)@.lists[i as int].push(addr)),
    {
        let mut list = self.list_heads.remove(i);
        list.push(addr);
        self.list_heads.insert(i, list);
        assert(self.list_heads@ =~= old(self).list_heads@.update(i as int, list));
        assert(self@.lists =~= old(self)@.lists.update(i as int, list@));
        assert forall|k: int, j: int| 0 <= k < NUM_CLASSES && 0 <= j < self@.lists[k].len() implies (#[trigger] self@.lists[k][j] as int) % (block_size(k as nat) as int) == 0 by {
            if k == i && j < old(self)@.lists[k].len() {
                assert(self@.lists[k][j] == old(self)@.lists[k][j]);
            }
        }
    }

    /// Serves a request from its class list, carving a fresh block from the
    /// fallback when the list is empty; requests above the largest class go
    /// to the fallback whole.
    pub fn allocate(&mut self, size: usize, align: usize) -> (r: Option<usize>)
        requires
            old(self).wf(),
            is_power_of_two(align),
            size + align <= isize::MAX,
        ensures
            final(self).wf(),
            r matches Some(a) ==> a % align == 0,
            match size_class(size as int, align as int) {
                Some(i) => if old(self)@.lists[i as int].len() > 0 {
                    &&& r == Some(old(self)@.lists[i as int].last())
                    &&& final(self)@.lists == old(self)@.lists.update(i as int, old(self)@.lists[i as int].drop_last())
                    &&& final(self)@.fallback == old(self)@.fallback
                } else {
                    &&& final(self)@.lists == old(self)@.lists
                    &&& allocate_post(old(self)@.fallback, block_size(i) as int, block_size(i) as int, r, final(self)@.fallback)
                },
                None => {
                    &&& final(self)@.lists == old(self)@.lists
                    &&& allocate_post(old(self)@.fallback, size as int, align as int, r, final(self)@.fallback)
                },
            },
    {
        match list_index(size, align) {
            Some(index) => {
                proof {
                    lemma_class_holds(size as int, align as int, 0);
                    lemma_block_size_bounds(index as nat);
                    lemma_block_multiple_of_align(index as nat, align);
                }
                match self.pop_block(index) {
                    Some(addr) => {
                        proof {
                            let l = old(self)@.lists[index as int];
                            assert((l[l.len() - 1] as int) % (block_size(index as nat) as int) == 0);
                            lemma_multiple_of_divisor(addr as int, block_size(index as nat) as int, align as int);
                        }
                        Some(addr)
                    },
                    None => {
                        let block_size = class_block_size(index);
                        let r = self.fallback_allocator.allocate(block_size, block_size);
                        proof {
                            lemma_fallback_aligned(old(self)@.fallback, block_size as int, block_size as int, r, self@.fallback);
                            if r is Some {
                                lemma_multiple_of_divisor(r.unwrap() as int, block_size as int, align as int);
                            }
                        }
                        r
                    },
                }
            },
            None => {
                let r = self.fallback_allocator.allocate(size, align);
                proof {
                    lemma_fallback_aligned(old(self)@.fallback, size as int, align as int, r, self@.fallback);
                    if r is Some {
                        lemma_small_align_divides(align);
                        lemma_multiple_of_divisor(r.unwrap() as int, adjusted_align(align as int), align as int);
                    }
                }
                r
            },
        }
    }

    /// Returns a block: onto its class list, or to the fallback when the
    /// request was above the largest class.
    pub fn deallocate(&mut self, addr: usize, size: usize, align: usize)
        requires
            old(self).wf(),
            is_power_of_two(align),
            size + align <= isize::MAX,
            size_class(size as int, align as int) matches Some(i) ==> (addr as int) % (block_size(i) as int) == 0,
            size_class(size as int, align as int).is_none() ==> {
                &&& addr % NODE_ALIGN == 0
                &&& addr + adjusted_size(size as int, align as int) <= usize::MAX
                &&& disjoint_from_all(
                    FreeRegion { start: addr, size: adjusted_size(size as int, align as int) as usize },
                    old(self)@.fallback,
                )
            },
        ensures
            final(self).wf(),
            final(self)@.lists == lists_after_dealloc(old(self)@.lists, size as int, align as int, addr),
            size_class(size as int, align as int).is_some() ==> final(self)@.fallback == old(self)@.fallback,
            size_class(size as int, align as int).is_none() ==> final(self)@.fallback
                == seq![FreeRegion { start: addr, size: adjusted_size(size as int, align as int) as usize }] + old(self)@.fallback,
    {
        match list_index(size, align) {
            Some(index) => {
                assert(size_class(size as int, align as int) == Some(index as nat));
                self.push_block(index, addr)
            },
            None => self.fallback_allocator.deallocate(addr, size, align),
        }
    }
}

/// Freeing a block of a supported class and then asking for the same size
/// and alignment hands back that very block, taken from the class list, and
/// leaves the class lists as they were before the two calls.
pub proof fn lemma_fixed_block_round_trip(lists: Seq<Seq<usize>>, size: int, align: int, addr: usize)
    requires
        lists.len() == NUM_CLASSES,
        size_class(size, align).is_some(),
    ensures
        ({
            let i = size_class(size, align).unwrap() as int;
            let freed = lists_after_dealloc(lists, size, align, addr);
            &&& freed[i].len() > 0
            &&& freed[i].last() == addr
            &&& freed.update(i, freed[i].drop_last()) == lists
        }),
{
    let i = size_class(size, align).unwrap() as int;
    assert(0 <= i < NUM_CLASSES) by {
        lemma_class_in_range(if size >= align { size } else { align }, 0);
    }
    let freed = lists_after_dealloc(lists, size, align, addr);
    assert(freed[i].drop_last() =~= lists[i]);
    assert(freed.update(i, freed[i].drop_last()) =~= lists);
}

proof fn lemma_class_holds(size: int, align: int, k: nat)
    ensures
        class_from(if size >= align { size } else { align }, k) matches Some(i) ==> block_size(i) >= size
            && block_size(i) >= align,
    decreases NUM_CLASSES - k,
{
    if k < NUM_CLASSES {
        lemma_class_holds(size, align, k + 1);
    }
}

proof fn lemma_pow2_upto_2048(a: usize)
    requires
        is_power_of_two(a),
        a <= 2048,
    ensures
        a == 1 || a == 2 || a == 4 || a == 8 || a == 16 || a == 32 || a == 64 || a == 128 || a == 256
            || a == 512 || a == 1024 || a == 2048,
{
    assert(a > 0 && (a & ((a - 1) as usize)) == 0 && a <= 2048 ==> a == 1 || a == 2 || a == 4 || a == 8 || a == 16
        || a == 32 || a == 64 || a == 128 || a == 256 || a == 512 || a == 1024 || a == 2048) by (bit_vector);
}

proof fn lemma_block_multiple_of_align(i: nat, align: usize)
    requires
        i < NUM_CLASSES,
        is_power_of_two(align),
        align <= block_size(i),
    ensures
        (block_size(i) as int) % (align as int) == 0,
{
    reveal_with_fuel(block_size, 10);
    lemma_block_size_bounds(i);
    lemma_pow2_upto_2048(align);
}

proof fn lemma_small_align_divides(align: usize)
    requires
        is_power_of_two(align),
    ensures
        adjusted_align(align as int) % (align as int) == 0,
{
    if align < NODE_ALIGN {
        lemma_pow2_upto_2048(align);
    } else {
        vstd::arithmetic::div_mod::lemma_mod_self_0(align as int);
    }
}

proof fn lemma_multiple_of_divisor(x: int, m: int, d: int)
    requires
        x >= 0,
        m > 0,
        d > 0,
        x % m == 0,
        m % d == 0,
    ensures
        x % d == 0,
{
    vstd::arithmetic::div_mod::lemma_fundamental_div_mod(x, m);
    vstd::arithmetic::div_mod::lemma_fundamental_div_mod(m, d);
    let p = x / m;
    let q = m / d;
    assert(x == (p * q) * d) by (nonlinear_arith)
        requires x == m * p, m == d * q;
    vstd::arithmetic::div_mod::lemma_mod_multiples_basic(p * q, d);
}

proof fn lemma_fallback_aligned(rs: Seq<FreeRegion>, size: int, align: int, r: Option<usize>, rs2: Seq<FreeRegion>)
    requires
        allocate_post(rs, size, align, r, rs2),
        align > 0,
    ensures
        r matches Some(a) ==> (a as int) % adjusted_align(align) == 0,
{
    if r is Some {
        let i = choose|i: int| {
            &&& crate::allocator::linked_list::is_first_fit(rs, adjusted_size(size, align), adjusted_align(align), i)
            &&& r.unwrap() == placement(rs[i], adjusted_align(align))
            &&& rs2 == crate::allocator::linked_list::after_alloc(rs, adjusted_size(size, align), adjusted_align(align), i)
        };
        lemma_align_up_props(rs[i].start as int, adjusted_align(align));
    }
}

proof fn lemma_class_in_range(required: int, k: nat)
    ensures
        class_from(required, k) matches Some(i) ==> k <= i < NUM_CLASSES,
    decreases NUM_CLASSES - k,
{
    if k < NUM_CLASSES {
        lemma_class_in_range(required, k + 1);
    }
}

} // verus!
