use vstd::prelude::*;

use crate::arena::Arena;
use crate::block::{Block, BlockPtr, BLOCK_MAGIC_FREE, BLOCK_META_SIZE, BLOCK_MIN_REGION_SIZE, BLOCK_SPLIT_MIN_SIZE};
use crate::list::fits;
use crate::util::{is_pow2, is_round_up, lemma_round_up_unique, pad_min_align};

verus! {

/// What `free` made of a pointer.
#[derive(Clone, Copy, Debug, PartialEq, Eq, Structural)]
pub enum FreeStatus {
    /// The pointer was null: nothing to do.
    Null,
    /// The block went back to the free list, or to the system.
    Freed,
    /// No intact header precedes the pointer: it is not ours, or it was
    /// overwritten. Nothing changed.
    Invalid,
    /// The block is free already. Nothing changed.
    DoubleFree,
}

/// `size` rounded up to a multiple of 16.
pub open spec fn pad16(size: int) -> int {
    ((size + 15) / 16) * 16
}

/// The header address that belongs to the user pointer `ptr`.
pub open spec fn hdr(ptr: usize) -> usize {
    (ptr - BLOCK_META_SIZE) as usize
}

/// The allocator: one heap behind the `malloc` family of calls.
pub struct Collam {
    arena: Arena,
}

impl Collam {
    /// The heap invariant: the free list is address-ordered with no two
    /// adjacent blocks, every block is aligned and lies in the segment, no two
    /// blocks overlap, and every byte of the segment belongs to exactly one
    /// free or handed-out block (or to one whose header the caller destroyed).
    pub closed spec fn wf(&self) -> bool {
        self.arena.wf()
    }

    /// The header at address `a`.
    pub closed spec fn header(&self, a: usize) -> Block {
        self.arena.header(a)
    }

    /// The first address past the block whose header is at `a`.
    pub closed spec fn end(&self, a: usize) -> int {
        self.arena.end(a)
    }

    /// The block whose header is at `a` is handed out.
    pub closed spec fn handed_out(&self, a: usize) -> bool {
        self.arena.handed_out(a)
    }

    /// The block whose header is at `a` is in the free list.
    pub closed spec fn is_free_block(&self, a: usize) -> bool {
        self.arena.is_free_block(a)
    }

    /// Byte `x` lies in a free block.
    pub closed spec fn is_free(&self, x: int) -> bool {
        self.arena.is_free(x)
    }

    /// The program break.
    pub closed spec fn spec_brk(&self) -> int {
        self.arena.spec_brk()
    }

    /// Where the data segment starts.
    pub closed spec fn spec_base(&self) -> int {
        self.arena.spec_base()
    }

    /// The highest break the system grants.
    pub closed spec fn spec_limit(&self) -> int {
        self.arena.spec_limit()
    }

    /// The unit in which the segment grows.
    pub closed spec fn spec_page_size(&self) -> int {
        self.arena.spec_page_size()
    }

    /// Some free block serves a request for `size` bytes: exactly, or with
    /// room for a viable free tail.
    pub closed spec fn has_fit(&self, size: int) -> bool {
        self.arena.has_fit(size)
    }

    /// The segment can grow by a block with a payload of `size` bytes.
    pub closed spec fn can_grow(&self, size: int) -> bool {
        self.arena.can_grow(size)
    }

    /// The payload size behind the user pointer `ptr`, or 0 where no intact
    /// header precedes it.
    pub open spec fn usable(&self, ptr: usize) -> int {
        if ptr > BLOCK_META_SIZE && self.header(hdr(ptr)).magic == BLOCK_MAGIC_FREE {
            self.header(hdr(ptr)).size as int
        } else {
            0
        }
    }

    /// `ptr` is the user pointer of a handed-out block.
    pub open spec fn owns(&self, ptr: usize) -> bool {
        ptr > BLOCK_META_SIZE && self.handed_out(hdr(ptr))
    }

    /// Other blocks keep their state and their headers.
    pub open spec fn others_kept(&self, new: &Collam, ptr: usize) -> bool {
        &&& forall|a: usize| a != hdr(ptr) ==> #[trigger] new.handed_out(a) == self.handed_out(a)
        &&& forall|a: usize| a != hdr(ptr) && self.handed_out(a) ==> #[trigger] new.header(a) == self.header(a)
    }

    /// The segment's base, limit and page size stay.
    pub open spec fn same_segment(&self, new: &Collam) -> bool {
        &&& new.spec_base() == self.spec_base()
        &&& new.spec_limit() == self.spec_limit()
        &&& new.spec_page_size() == self.spec_page_size()
    }

    /// What `malloc(size)` returning `r` does to the allocator `self`, giving `new`.
    pub open spec fn malloc_post(&self, size: usize, new: &Collam, r: usize) -> bool {
        &&& new.wf()
        &&& self.same_segment(new)
        &&& (size == 0 || size + 15 > isize::MAX) ==> r == 0
        &&& (0 < size && size + 15 <= isize::MAX) ==> (r == 0 <==> (!self.has_fit(pad16(size as int))
            && !self.can_grow(pad16(size as int))))
        &&& r == 0 ==> *new == *self
        &&& r != 0 ==> r % 16 == 0 && new.owns(r) && !self.handed_out(hdr(r)) && new.usable(r) >= size
        &&& r != 0 ==> self.others_kept(new, r)
        &&& r != 0 ==> (forall|x: int| #[trigger] new.is_free(x) <==> ((self.is_free(x) || (self.spec_brk() <= x
            && x < new.spec_brk())) && !(hdr(r) <= x && x < new.end(hdr(r)))))
        &&& r != 0 && self.has_fit(pad16(size as int)) ==> new.spec_brk() == self.spec_brk()
            && (forall|x: int| hdr(r) <= x < new.end(hdr(r)) ==> #[trigger] self.is_free(x))
        &&& r != 0 && !self.has_fit(pad16(size as int)) ==> hdr(r) == self.spec_brk()
        &&& r != 0 ==> self.malloc_block(size, new, r)
    }

    /// The block that `malloc(size)` hands out at `r`: the first fit of the
    /// free list, or else fresh pages at the old break; its payload is
    /// exactly the padded size where the rest forms a viable free block,
    /// and the whole block otherwise.
    pub open spec fn malloc_block(&self, size: usize, new: &Collam, r: usize) -> bool {
        let n = pad16(size as int);
        let whole = if self.has_fit(n) {
            self.header(hdr(r)).size as int
        } else {
            new.spec_brk() - self.spec_brk() - BLOCK_META_SIZE
        };
        &&& n + BLOCK_META_SIZE + BLOCK_SPLIT_MIN_SIZE <= whole ==> new.usable(r) == n
        &&& n + BLOCK_META_SIZE + BLOCK_SPLIT_MIN_SIZE > whole ==> new.usable(r) == whole
        &&& self.has_fit(n) ==> (exists|i: int| 0 <= i < self.free_blocks().len() && #[trigger] self.free_blocks()[i].addr
            == hdr(r) && (forall|j: int| 0 <= j < i ==> !fits(self.header(#[trigger] self.free_blocks()[j].addr).size as int, n)))
        &&& !self.has_fit(n) ==> is_round_up(new.spec_brk() - self.spec_brk(), BLOCK_META_SIZE + n, self.spec_page_size())
    }

    /// The status `free(ptr)` reports.
    pub open spec fn free_status(&self, ptr: usize) -> FreeStatus {
        if ptr == 0 {
            FreeStatus::Null
        } else if ptr <= BLOCK_META_SIZE || self.header(hdr(ptr)).magic != BLOCK_MAGIC_FREE {
            FreeStatus::Invalid
        } else if self.is_free_block(hdr(ptr)) {
            FreeStatus::DoubleFree
        } else {
            FreeStatus::Freed
        }
    }

    /// What `free(ptr)` does to `self`, giving `new`.
    pub open spec fn free_post(&self, ptr: usize, new: &Collam) -> bool {
        &&& new.wf()
        &&& self.same_segment(new)
        &&& self.free_status(ptr) != FreeStatus::Freed ==> *new == *self
        &&& self.free_status(ptr) == FreeStatus::Freed ==> {
            let b = hdr(ptr);
            &&& new.spec_brk() <= self.spec_brk()
            &&& !new.handed_out(b)
            &&& self.others_kept(new, ptr)
            &&& forall|x: int| #[trigger] new.is_free(x) <==> ((self.is_free(x) || (b <= x && x < self.end(b)))
                && x < new.spec_brk())
            &&& self.reaches_top(b) ==> new.spec_brk() <= b && !self.is_free(new.spec_brk() - 1)
                && (forall|x: int| new.spec_brk() <= x < self.spec_brk() ==> #[trigger] self.is_free(x) || (b <= x
                && x < self.end(b)))
            &&& !self.reaches_top(b) ==> new.spec_brk() == self.spec_brk()
        }
    }

    /// From the block at `b` up to the break every byte is free or in that
    /// block: freeing it returns the merged run to the system.
    pub open spec fn reaches_top(&self, b: usize) -> bool {
        forall|x: int| b <= x < self.spec_brk() ==> #[trigger] self.is_free(x) || (b <= x && x < self.end(b))
    }

    /// An allocator over an empty segment that starts at `base` and may grow
    /// up to `limit`, a page of `page_size` bytes at a time.
    pub fn new(base: usize, limit: usize, page_size: usize) -> (r: Collam)
        requires
            0 < base <= limit,
            base % 16 == 0,
            is_pow2(page_size as nat),
            page_size >= 16,
        ensures
            r.wf(),
            r.spec_base() == base,
            r.spec_brk() == base,
            r.spec_limit() == limit,
            r.spec_page_size() == page_size,
            forall|x: int| !#[trigger] r.is_free(x),
            forall|a: usize| !#[trigger] r.handed_out(a),
            r.free_blocks() == Seq::<BlockPtr>::empty(),
    {
        let arena = Arena::new(base, limit, page_size);
        proof {
            arena.lemma_wf_facts();
        }
        Collam { arena }
    }

    /// The current program break.
    pub fn brk(&self) -> (r: usize)
        ensures
            r == self.spec_brk(),
    {
        self.arena.brk()
    }

    /// The free blocks as (header address, payload size) pairs, lowest first.
    pub fn free_list(&self) -> (r: Vec<(usize, usize)>)
        requires
            self.wf(),
        ensures
            r@.len() == self.free_blocks().len(),
            forall|i: int| 0 <= i < r@.len() ==> (#[trigger] r@[i]).0 == self.free_blocks()[i].addr
                && r@[i].1 == self.header(self.free_blocks()[i].addr).size,
    {
        self.arena.free_list()
    }
}

proof fn lemma_pad16(size: int, padded: int)
    requires
        size >= 0,
        is_round_up(padded, size, 16),
    ensures
        padded == pad16(size),
        is_round_up(pad16(size), size, 16),
{
    vstd::arithmetic::div_mod::lemma_fundamental_div_mod(size + 15, 16);
    vstd::arithmetic::div_mod::lemma_mod_multiples_basic((size + 15) / 16, 16);
    assert(is_round_up(pad16(size), size, 16));
    lemma_round_up_unique(padded, pad16(size), size, 16);
}

} // verus!

verus! {

impl Collam {
    /// Hands out a block with room for `size` bytes and returns the address
    /// of its payload, or 0 (null) for a zero size, a size that cannot be
    /// padded, or when neither the free list nor the segment can serve it.
    pub fn malloc(&mut self, size: usize) -> (r: usize)
        requires
            old(self).wf(),
        ensures
            old(self).malloc_post(size, final(self), r),
    {
        proof {
            self.arena.lemma_wf_facts();
        }
        if size == 0 {
            return 0;
        }
        let layout = match pad_min_align(size) {
            Ok(l) => l,
            Err(_) => {
                return 0;
            },
        };
        let n: usize = if layout.size() < BLOCK_MIN_REGION_SIZE {
            BLOCK_MIN_REGION_SIZE
        } else {
            layout.size()
        };
        proof {
            lemma_pad16(size as int, layout.size as int);
        }
        let b = match self.arena.request(n) {
            Some(b) => b,
            None => {
                return 0;
            },
        };
        let ghost a1 = self.arena;
        self.arena.split_insert(b, n);
        proof {
            self.arena.lemma_wf_facts();
            a1.lemma_wf_facts();
            let r = (b.addr + BLOCK_META_SIZE) as usize;
            assert(hdr(r) == b.addr);
            assert(self.handed_out(b.addr));
            assert(self.header(b.addr).size >= n) by {
                if n + BLOCK_META_SIZE + BLOCK_SPLIT_MIN_SIZE > a1.header(b.addr).size {
                    assert(self.header(b.addr) == a1.header(b.addr));
                }
            }
            assert forall|x: int| #[trigger] self.is_free(x) <==> ((old(self).is_free(x) || (old(self).spec_brk() <= x
                && x < self.spec_brk())) && !(hdr(r) <= x && x < self.end(hdr(r)))) by {
                if a1.is_free(x) {
                    assert(old(self).is_free(x));
                }
                if old(self).has_fit(n as int) {
                    if self.end(b.addr) <= x && x < a1.end(b.addr) {
                        assert(old(self).is_free(x));
                    }
                } else {
                    if old(self).is_free(x) {
                        assert(x < old(self).spec_brk());
                    }
                }
            }
            assert forall|a: usize| a != hdr(r) && old(self).handed_out(a) implies #[trigger] self.header(a)
                == old(self).header(a) by {
                assert(a1.handed_out(a));
            }
            if old(self).has_fit(n as int) {
                assert forall|x: int| hdr(r) <= x < self.end(hdr(r)) implies #[trigger] old(self).is_free(x) by {
                    assert(self.end(b.addr) <= a1.end(b.addr));
                }
                let i = choose|i: int| 0 <= i < old(self).arena.free_blocks().len() && #[trigger] old(self).arena.free_blocks()[i] == b
                    && a1.free_blocks() == old(self).arena.free_blocks().remove(i)
                    && (forall|j: int| 0 <= j < i ==> !fits(old(self).arena.header(#[trigger] old(self).arena.free_blocks()[j].addr).size as int, n as int));
                assert(old(self).free_blocks()[i].addr == hdr(r));
                assert(a1.header(b.addr) == old(self).header(b.addr));
            } else {
                assert(a1.header(b.addr).size == self.spec_brk() - old(self).spec_brk() - BLOCK_META_SIZE);
            }
            assert(self.header(b.addr).magic == BLOCK_MAGIC_FREE);
            assert(old(self).malloc_block(size, self, r));
        }
        b.mem_region()
    }

    /// Takes the block of `ptr` back: null is ignored, a pointer without an
    /// intact header is refused, a free block is reported as a double free;
    /// otherwise the block joins the free list, merged with free neighbours,
    /// and a merged block at the top goes back to the system.
    pub fn free(&mut self, ptr: usize) -> (r: FreeStatus)
        requires
            old(self).wf(),
        ensures
            r == old(self).free_status(ptr),
            old(self).free_post(ptr, final(self)),
    {
        proof {
            self.arena.lemma_wf_facts();
        }
        if ptr == 0 {
            return FreeStatus::Null;
        }
        let b = match BlockPtr::from_mem_region(ptr) {
            Some(b) => b,
            None => {
                return FreeStatus::Invalid;
            },
        };
        if !self.arena.read(b.addr).verify() {
            return FreeStatus::Invalid;
        }
        proof {
            let c0 = *old(self);
            assert(c0.reaches_top(b.addr) == c0.arena.reaches_top(b.addr)) by {
                if c0.reaches_top(b.addr) {
                    assert forall|x: int| b.addr <= x < c0.arena.spec_brk() implies #[trigger] c0.arena.is_free(x)
                        || (b.addr <= x && x < c0.arena.end(b.addr)) by {
                        assert(c0.is_free(x) || (b.addr <= x && x < c0.end(b.addr)));
                    }
                }
                if c0.arena.reaches_top(b.addr) {
                    assert forall|x: int| b.addr <= x < c0.spec_brk() implies #[trigger] c0.is_free(x)
                        || (b.addr <= x && x < c0.end(b.addr)) by {
                        assert(c0.arena.is_free(x) || (b.addr <= x && x < c0.arena.end(b.addr)));
                    }
                }
            }
        }
        match self.arena.release(b) {
            Ok(()) => FreeStatus::Freed,
            Err(()) => FreeStatus::DoubleFree,
        }
    }

    /// The payload size of the block behind `ptr`; 0 for null or where no
    /// intact header precedes `ptr`.
    pub fn usable_size(&self, ptr: usize) -> (r: usize)
        ensures
            r == self.usable(ptr),
    {
        if ptr == 0 {
            return 0;
        }
        let b = match BlockPtr::from_mem_region(ptr) {
            Some(b) => b,
            None => {
                return 0;
            },
        };
        let h = self.arena.read(b.addr);
        if !h.verify() {
            return 0;
        }
        h.size
    }

    /// `count * size` zero-filled bytes: null where the product overflows,
    /// otherwise as `malloc` of the product. The embedding writes the zeros.
    pub fn calloc(&mut self, count: usize, size: usize) -> (r: usize)
        requires
            old(self).wf(),
        ensures
            count * size > usize::MAX ==> r == 0 && *final(self) == *old(self),
            count * size <= usize::MAX ==> old(self).malloc_post((count * size) as usize, final(self), r),
    {
        if size != 0 && count > usize::MAX / size {
            proof {
                assert(count * size > usize::MAX) by (nonlinear_arith)
                    requires
                        size > 0,
                        count > usize::MAX / size,
                ;
            }
            return 0;
        }
        proof {
            assert(count * size <= usize::MAX) by (nonlinear_arith)
                requires
                    size == 0 || count <= usize::MAX / size,
            ;
        }
        self.malloc(count * size)
    }
}

} // verus!

verus! {

impl Collam {
    /// What `realloc(ptr, new_size)` returning `r` does to `self`, giving `new`.
    pub open spec fn realloc_post(&self, ptr: usize, new_size: usize, new: &Collam, r: usize) -> bool {
        &&& new.wf()
        &&& ptr == 0 ==> self.malloc_post(new_size, new, r)
        &&& ptr != 0 && new_size == 0 ==> r == 0 && self.free_post(ptr, new)
        &&& ptr != 0 && new_size != 0 && (!self.owns(ptr) || new_size + 15 > isize::MAX) ==> r == 0 && *new == *self
        &&& ptr != 0 && new_size != 0 && self.owns(ptr) && new_size + 15 <= isize::MAX ==> {
            let n = pad16(new_size as int);
            let cur = self.usable(ptr);
            &&& n <= cur ==> r == ptr && new.owns(ptr) && new.usable(ptr) >= new_size && self.others_kept(new, ptr)
                && new.spec_brk() == self.spec_brk()
            &&& n <= cur && n + BLOCK_META_SIZE + BLOCK_SPLIT_MIN_SIZE <= cur ==> new.usable(ptr) == n
                && (forall|x: int| #[trigger] new.is_free(x) <==> (self.is_free(x) || (hdr(ptr) + BLOCK_META_SIZE + n <= x
                && x < self.end(hdr(ptr)))))
            &&& n <= cur && n + BLOCK_META_SIZE + BLOCK_SPLIT_MIN_SIZE > cur ==> new.usable(ptr) == cur && *new == *self
            &&& n > cur && r == 0 ==> *new == *self
            &&& n > cur && r != 0 ==> r != ptr && new.owns(r) && new.usable(r) >= new_size && !new.owns(ptr)
                && !self.handed_out(hdr(r))
            &&& n > cur && r != 0 ==> (forall|a: usize| a != hdr(ptr) && a != hdr(r) && #[trigger] self.handed_out(a)
                ==> new.handed_out(a) && new.header(a) == self.header(a))
            &&& n > cur && r != 0 ==> new.end(hdr(r)) <= hdr(ptr) || self.end(hdr(ptr)) <= hdr(r)
            &&& n > cur && r != 0 ==> (forall|x: int| #[trigger] new.is_free(x) <==> ((self.is_free(x) || (self.spec_brk() <= x
                && x < new.spec_brk()) || (hdr(ptr) <= x && x < self.end(hdr(ptr)))) && !(hdr(r) <= x && x < new.end(hdr(r)))
                && x < new.spec_brk()))
            &&& n > cur ==> (r == 0 <==> (!self.has_fit(n) && !self.can_grow(n)))
        }
    }

    /// Resizes the block of `ptr` to hold `new_size` bytes. Null `ptr`: as
    /// `malloc(new_size)`. Zero `new_size`: as `free(ptr)`, returning null.
    /// A pointer without an intact header, a free block or a size that cannot
    /// be padded gives null and changes nothing. Otherwise a block that is
    /// large enough stays where it is, its slack split off where it forms a
    /// viable free block; a block that is too small is replaced by a fresh
    /// one and freed, or, where no fresh one can be had, kept and null returned.
    /// The embedding copies the payload to the new place.
    pub fn realloc(&mut self, ptr: usize, new_size: usize) -> (r: usize)
        requires
            old(self).wf(),
        ensures
            old(self).realloc_post(ptr, new_size, final(self), r),
    {
        proof {
            self.arena.lemma_wf_facts();
        }
        if ptr == 0 {
            return self.malloc(new_size);
        }
        if new_size == 0 {
            self.free(ptr);
            return 0;
        }
        let b = match BlockPtr::from_mem_region(ptr) {
            Some(b) => b,
            None => {
                return 0;
            },
        };
        let h = self.arena.read(b.addr);
        if !h.verify() {
            return 0;
        }
        if self.arena.contains_free(b.addr) {
            return 0;
        }
        let layout = match pad_min_align(new_size) {
            Ok(l) => l,
            Err(_) => {
                return 0;
            },
        };
        proof {
            lemma_pad16(new_size as int, layout.size as int);
            assert(self.handed_out(b.addr));
        }
        let n: usize = if layout.size() < BLOCK_MIN_REGION_SIZE {
            BLOCK_MIN_REGION_SIZE
        } else {
            layout.size()
        };
        if n <= h.size {
            if h.size - n >= BLOCK_META_SIZE + BLOCK_SPLIT_MIN_SIZE {
                self.arena.split_insert(b, n);
                proof {
                    self.arena.lemma_wf_facts();
                }
            }
            return ptr;
        }
        let q = self.malloc(new_size);
        if q == 0 {
            return 0;
        }
        proof {
            self.arena.lemma_wf_facts();
            assert(self.handed_out(b.addr));
            assert(self.header(b.addr).magic == BLOCK_MAGIC_FREE);
        }
        let ghost mid = *self;
        proof {
            mid.lemma_facts();
            law_footprint_conservation(mid);
            assert(hdr(ptr) == b.addr);
            assert(mid.handed_out(b.addr));
            assert(mid.free_status(ptr) == FreeStatus::Freed);
            assert(mid.end(hdr(q)) <= b.addr || mid.end(b.addr) <= hdr(q));
            if !old(self).has_fit(n as int) {
                // The new block stands between the old one and the break.
                let y = hdr(q) as int;
                assert(!mid.is_free(y));
                assert(!mid.reaches_top(b.addr));
            }
        }
        self.free(ptr);
        proof {
            self.arena.lemma_wf_facts();
            assert(hdr(q) != b.addr);
            assert(mid.handed_out(hdr(q)));
            assert forall|a: usize| a != hdr(ptr) && a != hdr(q) && #[trigger] old(self).handed_out(a)
                implies self.handed_out(a) && self.header(a) == old(self).header(a) by {
                assert(mid.handed_out(a));
                assert(mid.header(a) == old(self).header(a));
            }
            self.lemma_facts();
            assert(self.header(hdr(q)) == mid.header(hdr(q)));
            assert(self.end(hdr(q)) == mid.end(hdr(q)));
            assert(mid.end(b.addr) == old(self).end(b.addr));
            assert forall|x: int| #[trigger] self.is_free(x) <==> ((old(self).is_free(x) || (old(self).spec_brk() <= x
                && x < self.spec_brk()) || (hdr(ptr) <= x && x < old(self).end(hdr(ptr)))) && !(hdr(q) <= x && x < self.end(hdr(q)))
                && x < self.spec_brk()) by {
                if mid.is_free(x) {
                    assert(!(hdr(q) <= x && x < mid.end(hdr(q))));
                }
                if old(self).is_free(x) {
                    assert(x < old(self).spec_brk());
                }
            }
        }
        q
    }

    /// Records that the caller wrote zeros over the header in front of
    /// `ptr`, a block it holds: the block can no longer be freed and its
    /// bytes are lost. Anything else is left alone.
    pub fn overwrite_header(&mut self, ptr: usize)
        requires
            old(self).wf(),
        ensures
            final(self).wf(),
            old(self).same_segment(final(self)),
            final(self).spec_brk() == old(self).spec_brk(),
            old(self).owns(ptr) ==> final(self).usable(ptr) == 0 && old(self).others_kept(final(self), ptr),
            !old(self).owns(ptr) ==> *final(self) == *old(self),
            forall|x: int| #[trigger] final(self).is_free(x) == old(self).is_free(x),
    {
        if ptr <= BLOCK_META_SIZE {
            return;
        }
        let b = BlockPtr { addr: ptr - BLOCK_META_SIZE };
        proof {
            self.arena.lemma_wf_facts();
        }
        if !self.arena.read(b.addr).verify() || self.arena.contains_free(b.addr) {
            return;
        }
        self.arena.leak(b);
    }
}

} // verus!

verus! {

impl Collam {
    /// What the invariant gives a caller: free bytes lie in the segment; a
    /// handed-out block is aligned, lies in the segment, overlaps no free
    /// byte and keeps an intact header; an intact header belongs to a free or
    /// a handed-out block, never both.
    pub proof fn lemma_facts(&self)
        requires
            self.wf(),
        ensures
            forall|p: usize| #[trigger] self.end(p) == p + BLOCK_META_SIZE + self.header(p).size,
            forall|x: int| #[trigger] self.is_free(x) ==> self.spec_base() <= x < self.spec_brk(),
            forall|p: usize| #[trigger] self.handed_out(p) ==> p % 16 == 0 && p > 0 && self.header(p).size % 16 == 0
                && self.header(p).size > 0 && self.end(p) <= self.spec_brk() && self.spec_base() <= p
                && self.header(p).magic == BLOCK_MAGIC_FREE,
            forall|p: usize| self.header(p).magic == BLOCK_MAGIC_FREE ==> #[trigger] self.handed_out(p)
                || self.is_free_block(p),
            forall|p: usize| #[trigger] self.handed_out(p) ==> !self.is_free_block(p),
            forall|p: usize, x: int| #[trigger] self.handed_out(p) && p <= x < self.end(p) ==> !#[trigger] self.is_free(x),
            self.spec_base() <= self.spec_brk() <= self.spec_limit(),
    {
        self.arena.lemma_wf_facts();
    }
}

/// Freeing what `malloc` just returned gives back the same free bytes and
/// the same break, where the byte below the break was not free before.
pub proof fn law_round_trip(s0: Collam, size: usize, s1: Collam, p: usize, s2: Collam)
    requires
        s0.wf(),
        s0.malloc_post(size, &s1, p),
        p != 0,
        s1.free_post(p, &s2),
        !s0.is_free(s0.spec_brk() - 1),
    ensures
        s2.spec_brk() == s0.spec_brk(),
        forall|x: int| #[trigger] s2.is_free(x) == s0.is_free(x),
{
    s0.lemma_facts();
    s1.lemma_facts();
    s2.lemma_facts();
    let b = hdr(p);
    assert(s1.free_status(p) == FreeStatus::Freed);
    let brk0 = s0.spec_brk();
    let brk1 = s1.spec_brk();
    let brk2 = s2.spec_brk();
    let n = pad16(size as int);
    if s0.has_fit(n) {
        assert(brk1 == brk0);
        if s1.reaches_top(b) {
            let y = brk0 - 1;
            assert(b <= y) by {
                assert(s1.handed_out(b));
            }
            assert(s1.is_free(y) || (b <= y && y < s1.end(b)));
            assert(s0.is_free(y));
        }
        assert(brk2 == brk0);
        assert forall|x: int| #[trigger] s2.is_free(x) == s0.is_free(x) by {
            if b <= x && x < s1.end(b) {
                assert(s0.is_free(x));
            }
            if s1.is_free(x) {
                assert(s0.is_free(x) || (brk0 <= x && x < brk1));
            }
        }
    } else {
        assert(b == brk0);
        assert(s1.reaches_top(b)) by {
            assert forall|x: int| b <= x < s1.spec_brk() implies #[trigger] s1.is_free(x) || (b <= x && x < s1.end(b)) by {
                if !(b <= x && x < s1.end(b)) {
                    assert(s1.is_free(x));
                }
            }
        }
        if brk2 < brk0 {
            let y = brk0 - 1;
            assert(s1.is_free(y) || (b <= y && y < s1.end(b)));
            assert(s0.is_free(y));
        }
        assert(brk2 == brk0);
        assert forall|x: int| #[trigger] s2.is_free(x) == s0.is_free(x) by {}
    }
}

/// `malloc` leaves the usable size of every block already handed out alone.
pub proof fn law_usable_size_kept_by_malloc(s0: Collam, size: usize, s1: Collam, r: usize, p: usize)
    requires
        s0.wf(),
        s0.malloc_post(size, &s1, r),
        s0.owns(p),
    ensures
        s1.owns(p),
        s1.usable(p) == s0.usable(p),
{
    s0.lemma_facts();
    if r != 0 {
        assert(hdr(p) != hdr(r));
        assert(s1.handed_out(hdr(p)));
        assert(s1.header(hdr(p)) == s0.header(hdr(p)));
    }
}

/// `free` of one pointer leaves the usable size of every other handed-out
/// block alone.
pub proof fn law_usable_size_kept_by_free(s0: Collam, q: usize, s1: Collam, p: usize)
    requires
        s0.wf(),
        s0.free_post(q, &s1),
        s0.owns(p),
        p != q,
    ensures
        s1.owns(p),
        s1.usable(p) == s0.usable(p),
{
    s0.lemma_facts();
    if s0.free_status(q) == FreeStatus::Freed {
        assert(hdr(p) != hdr(q));
        assert(s1.handed_out(hdr(p)));
        assert(s1.header(hdr(p)) == s0.header(hdr(p)));
    }
}

/// `realloc` to a nonzero size that the block already holds keeps the
/// pointer.
pub proof fn law_realloc_in_place(s0: Collam, p: usize, size: usize, s1: Collam, r: usize)
    requires
        s0.wf(),
        s0.realloc_post(p, size, &s1, r),
        s0.owns(p),
        0 < size <= s0.usable(p),
        size + 15 <= isize::MAX,
    ensures
        r == p,
{
    s0.lemma_facts();
    let cur = s0.usable(p);
    assert(cur % 16 == 0);
    assert(pad16(size as int) <= cur) by {
        vstd::arithmetic::div_mod::lemma_fundamental_div_mod(cur, 16);
        vstd::arithmetic::div_mod::lemma_fundamental_div_mod(size + 15, 16);
        let q = cur / 16;
        let k = (size + 15) / 16;
        assert(k <= q) by (nonlinear_arith)
            requires
                cur == 16 * q,
                size + 15 == 16 * k + (size + 15) % 16,
                0 <= (size + 15) % 16 < 16,
                size <= cur,
        ;
        assert(k * 16 <= q * 16) by (nonlinear_arith)
            requires
                k <= q,
        ;
    }
}

/// The free list is address-ordered with no two adjacent blocks, and every
/// block, free or handed out, is aligned with an aligned payload size.
pub proof fn law_heap_shape(c: Collam)
    requires
        c.wf(),
    ensures
        forall|i: int, j: int| 0 <= i < j < c.free_blocks().len() ==> c.end((#[trigger] c.free_blocks()[i]).addr)
            < (#[trigger] c.free_blocks()[j]).addr,
        forall|i: int| 0 <= i < c.free_blocks().len() ==> #[trigger] c.free_blocks()[i].addr % 16 == 0
            && c.header(c.free_blocks()[i].addr).size % 16 == 0 && c.header(c.free_blocks()[i].addr).size > 0,
        forall|p: usize| #[trigger] c.handed_out(p) ==> p % 16 == 0 && c.header(p).size % 16 == 0,
{
    c.lemma_facts();
    c.arena.lemma_shape();
}

impl Collam {
    /// What the summary predicates mean: a fit is a free block that serves
    /// the request; growth is a page round-up of the request and its header
    /// that fits below the limit and the `isize` bound; a free byte lies in a
    /// block of the free list.
    pub proof fn lemma_views(&self)
        ensures
            forall|n: int| #[trigger] self.has_fit(n) <==> (exists|i: int| 0 <= i < self.free_blocks().len()
                && fits(self.header(#[trigger] self.free_blocks()[i].addr).size as int, n)),
            forall|n: int| #[trigger] self.can_grow(n) <==> (exists|sz: int| #[trigger] is_round_up(sz, BLOCK_META_SIZE + n, self.spec_page_size())
                && sz <= self.spec_limit() - self.spec_brk()
                && BLOCK_META_SIZE + n + self.spec_page_size() - 1 <= isize::MAX),
            forall|x: int| #[trigger] self.is_free(x) <==> (exists|i: int| 0 <= i < self.free_blocks().len()
                && #[trigger] self.free_blocks()[i].addr <= x && x < self.end(self.free_blocks()[i].addr)),
    {
        self.arena.lemma_views();
        assert forall|n: int| #[trigger] self.has_fit(n) <==> (exists|i: int| 0 <= i < self.free_blocks().len()
            && fits(self.header(#[trigger] self.free_blocks()[i].addr).size as int, n)) by {
            assert(self.has_fit(n) == self.arena.has_fit(n));
            if self.arena.has_fit(n) {
                let i = choose|i: int| 0 <= i < self.arena.free_blocks().len()
                    && fits(self.arena.header(#[trigger] self.arena.free_blocks()[i].addr).size as int, n);
                assert(fits(self.header(self.free_blocks()[i].addr).size as int, n));
            }
            if exists|i: int| 0 <= i < self.free_blocks().len() && fits(self.header(#[trigger] self.free_blocks()[i].addr).size as int, n) {
                let i = choose|i: int| 0 <= i < self.free_blocks().len() && fits(self.header(#[trigger] self.free_blocks()[i].addr).size as int, n);
                assert(fits(self.arena.header(self.arena.free_blocks()[i].addr).size as int, n));
            }
        }
        assert forall|n: int| #[trigger] self.can_grow(n) <==> (exists|sz: int| #[trigger] is_round_up(sz, BLOCK_META_SIZE + n, self.spec_page_size())
            && sz <= self.spec_limit() - self.spec_brk()
            && BLOCK_META_SIZE + n + self.spec_page_size() - 1 <= isize::MAX) by {
            assert(self.can_grow(n) == self.arena.can_grow(n));
            if self.arena.can_grow(n) {
                let sz = choose|sz: int| #[trigger] is_round_up(sz, BLOCK_META_SIZE + n, self.arena.spec_page_size())
                    && sz <= self.arena.spec_limit() - self.arena.spec_brk()
                    && BLOCK_META_SIZE + n + self.arena.spec_page_size() - 1 <= isize::MAX;
                assert(is_round_up(sz, BLOCK_META_SIZE + n, self.spec_page_size()));
            }
            if exists|sz: int| #[trigger] is_round_up(sz, BLOCK_META_SIZE + n, self.spec_page_size())
                && sz <= self.spec_limit() - self.spec_brk()
                && BLOCK_META_SIZE + n + self.spec_page_size() - 1 <= isize::MAX {
                let sz = choose|sz: int| #[trigger] is_round_up(sz, BLOCK_META_SIZE + n, self.spec_page_size())
                    && sz <= self.spec_limit() - self.spec_brk()
                    && BLOCK_META_SIZE + n + self.spec_page_size() - 1 <= isize::MAX;
                assert(is_round_up(sz, BLOCK_META_SIZE + n, self.arena.spec_page_size()));
            }
        }
        assert forall|x: int| #[trigger] self.is_free(x) <==> (exists|i: int| 0 <= i < self.free_blocks().len()
            && #[trigger] self.free_blocks()[i].addr <= x && x < self.end(self.free_blocks()[i].addr)) by {
            assert(self.is_free(x) == self.arena.is_free(x));
            if self.arena.is_free(x) {
                let i = choose|i: int| 0 <= i < self.arena.free_blocks().len()
                    && #[trigger] self.arena.free_blocks()[i].addr <= x && x < self.arena.end(self.arena.free_blocks()[i].addr);
                assert(self.free_blocks()[i].addr <= x && x < self.end(self.free_blocks()[i].addr));
            }
            if exists|i: int| 0 <= i < self.free_blocks().len() && #[trigger] self.free_blocks()[i].addr <= x
                && x < self.end(self.free_blocks()[i].addr) {
                let i = choose|i: int| 0 <= i < self.free_blocks().len() && #[trigger] self.free_blocks()[i].addr <= x
                    && x < self.end(self.free_blocks()[i].addr);
                assert(self.arena.free_blocks()[i].addr <= x && x < self.arena.end(self.arena.free_blocks()[i].addr));
            }
        }
    }
}

/// Every byte of the segment is free, handed out or lost to a destroyed
/// header, and only one of these: the footprints of the free and the
/// handed-out blocks add up to the bytes taken from the system, less the
/// lost ones.
pub proof fn law_footprint_conservation(c: Collam)
    requires
        c.wf(),
    ensures
        forall|x: int| c.spec_base() <= x < c.spec_brk() ==> #[trigger] c.is_free(x) || c.is_leaked(x)
            || (exists|a: usize| #[trigger] c.handed_out(a) && a <= x && x < c.end(a)),
        forall|x: int| #[trigger] c.is_leaked(x) ==> c.spec_base() <= x < c.spec_brk() && !c.is_free(x),
        forall|a: usize, x: int| #[trigger] c.handed_out(a) && a <= x < c.end(a) ==> !#[trigger] c.is_free(x)
            && !c.is_leaked(x),
        forall|a: usize, b: usize| #[trigger] c.handed_out(a) && #[trigger] c.handed_out(b) && a != b ==> c.end(a) <= b
            || c.end(b) <= a,
{
    c.lemma_facts();
    c.arena.lemma_conservation();
    assert forall|x: int| c.spec_base() <= x < c.spec_brk() implies #[trigger] c.is_free(x) || c.is_leaked(x)
        || (exists|a: usize| #[trigger] c.handed_out(a) && a <= x && x < c.end(a)) by {
        if !c.arena.is_free(x) && !c.arena.is_leaked(x) {
            let a = choose|a: usize| #[trigger] c.arena.handed_out(a) && a <= x && x < c.arena.end(a);
            assert(c.handed_out(a));
        }
    }
}

impl Collam {
    /// The free blocks, lowest address first.
    pub closed spec fn free_blocks(&self) -> Seq<BlockPtr> {
        self.arena.free_blocks()
    }

    /// Byte `x` belonged to a block whose header the caller destroyed.
    pub closed spec fn is_leaked(&self, x: int) -> bool {
        self.arena.is_leaked(x)
    }
}

} // verus!

verus! {

/// Bytes `[lo, hi)` all free lie in a single free block.
proof fn lemma_free_run_in_one_block(c: Collam, lo: int, hi: int)
    requires
        c.wf(),
        lo < hi,
        forall|x: int| lo <= x < hi ==> #[trigger] c.is_free(x),
    ensures
        exists|i: int| 0 <= i < c.free_blocks().len() && (#[trigger] c.free_blocks()[i]).addr <= lo && hi <= c.end(
            c.free_blocks()[i].addr),
{
    c.lemma_views();
    law_heap_shape(c);
    let fb = c.free_blocks();
    assert(c.is_free(lo));
    let i = choose|i: int| 0 <= i < fb.len() && #[trigger] fb[i].addr <= lo && lo < c.end(fb[i].addr);
    let e = c.end(fb[i].addr);
    if e < hi {
        assert(c.is_free(e));
        let j = choose|j: int| 0 <= j < fb.len() && #[trigger] fb[j].addr <= e && e < c.end(fb[j].addr);
        if j > i {
            assert(c.end(fb[i].addr) < fb[j].addr);
        } else if j < i {
            assert(c.end(fb[j].addr) < fb[i].addr);
        }
    }
    assert(fb[i].addr <= lo && hi <= c.end(fb[i].addr));
}

/// Freeing two adjacent handed-out blocks one after the other leaves both
/// in one free block, or gives them back to the system with the top of the
/// heap.
pub proof fn law_coalesce(s0: Collam, p: usize, s1: Collam, q: usize, s2: Collam)
    requires
        s0.wf(),
        s0.owns(p),
        s0.owns(q),
        s0.end(hdr(p)) == hdr(q) as int,
        s0.free_post(p, &s1),
        s1.free_post(q, &s2),
    ensures
        s2.spec_brk() <= hdr(p) || (exists|i: int| 0 <= i < s2.free_blocks().len()
            && (#[trigger] s2.free_blocks()[i]).addr <= hdr(p) && s0.end(hdr(q)) <= s2.end(s2.free_blocks()[i].addr)),
{
    s0.lemma_facts();
    s1.lemma_facts();
    s2.lemma_facts();
    let a = hdr(p);
    let b = hdr(q);
    assert(s0.free_status(p) == FreeStatus::Freed);
    assert(s1.handed_out(b));
    assert(s1.header(b) == s0.header(b));
    assert(s1.free_status(q) == FreeStatus::Freed);
    assert(s1.end(b) == s0.end(b));
    // After the first free, the bytes of `p`'s block are free.
    assert forall|x: int| a <= x < b implies #[trigger] s1.is_free(x) by {
        assert(x < s1.spec_brk());
    }
    if s2.spec_brk() > a {
        if s2.spec_brk() < s1.spec_brk() {
            assert(s1.reaches_top(b));
            let y = s2.spec_brk() - 1;
            assert(!s1.is_free(y));
            assert(a <= y < b);
        }
        assert(s2.spec_brk() == s1.spec_brk());
        assert forall|x: int| a <= x < s0.end(b) implies #[trigger] s2.is_free(x) by {
            if x < b {
                assert(s1.is_free(x));
            }
        }
        lemma_free_run_in_one_block(s2, a as int, s0.end(b));
    }
}

} // verus!

verus! {

/// `realloc` of one pointer leaves the usable size of every other
/// handed-out block alone.
pub proof fn law_usable_size_kept_by_realloc(s0: Collam, q: usize, size: usize, s1: Collam, r: usize, p: usize)
    requires
        s0.wf(),
        s0.realloc_post(q, size, &s1, r),
        s0.owns(p),
        p != q,
    ensures
        s1.owns(p),
        s1.usable(p) == s0.usable(p),
{
    s0.lemma_facts();
    if q == 0 {
        law_usable_size_kept_by_malloc(s0, size, s1, r, p);
    } else if size == 0 {
        law_usable_size_kept_by_free(s0, q, s1, p);
    } else if s0.owns(q) && size + 15 <= isize::MAX {
        assert(hdr(p) != hdr(q));
        if pad16(size as int) > s0.usable(q) && r != 0 {
            assert(hdr(r) != hdr(p));
            assert(s1.handed_out(hdr(p)));
            assert(s1.header(hdr(p)) == s0.header(hdr(p)));
        } else if pad16(size as int) <= s0.usable(q) {
            assert(s1.handed_out(hdr(p)));
            assert(s1.header(hdr(p)) == s0.header(hdr(p)));
        }
    }
}

} // verus!
