use vstd::prelude::*;

use crate::block::{Block, BlockPtr, Memory, BLOCK_MAGIC_FREE, BLOCK_META_SIZE};
use crate::util::{is_pow2, is_round_up, lemma_round_up_unique, pad_to_align};

verus! {

/// The process data segment: memory from a fixed base up to the program
/// break, which moves up on demand and down when the topmost block is freed.
/// `limit` is the highest break the system grants.
pub struct DataSegment {
    base: usize,
    brk: usize,
    limit: usize,
    page_size: usize,
}

impl DataSegment {
    pub closed spec fn spec_base(&self) -> usize {
        self.base
    }

    pub closed spec fn spec_brk(&self) -> usize {
        self.brk
    }

    pub closed spec fn spec_limit(&self) -> usize {
        self.limit
    }

    pub closed spec fn spec_page_size(&self) -> usize {
        self.page_size
    }

    /// The segment's own invariant.
    pub open spec fn wf(&self) -> bool {
        &&& self.spec_base() <= self.spec_brk() <= self.spec_limit()
        &&& self.spec_base() > 0
        &&& self.spec_base() % 16 == 0
        &&& self.spec_brk() % 16 == 0
        &&& is_pow2(self.spec_page_size() as nat)
        &&& self.spec_page_size() >= 16
    }

    /// A segment whose break stands at `base` and may grow up to `limit`, in
    /// steps of whole pages of `page_size` bytes.
    pub fn new(base: usize, limit: usize, page_size: usize) -> (r: DataSegment)
        requires
            0 < base <= limit,
            base % 16 == 0,
            is_pow2(page_size as nat),
            page_size >= 16,
        ensures
            r.wf(),
            r.spec_base() == base,
            r.spec_brk() == base,
            r.spec_limit() == limit,
            r.spec_page_size() == page_size,
    {
        DataSegment { base, brk: base, limit, page_size }
    }

    /// The current program break.
    pub fn brk(&self) -> (r: usize)
        ensures
            r == self.spec_brk(),
    {
        self.brk
    }

    /// The address at which the segment starts.
    pub fn base(&self) -> (r: usize)
        ensures
            r == self.spec_base(),
    {
        self.base
    }

    /// Grows the segment by `BLOCK_META_SIZE + min` bytes rounded up to whole
    /// pages, and returns a fresh free block spanning the new memory. Returns
    /// `None`, changing nothing, where the rounded size overflows or the
    /// break would pass the limit.
    pub fn request(&mut self, mem: &mut Memory, min: usize) -> (r: Option<BlockPtr>)
        requires
            old(self).wf(),
        ensures
            final(self).wf(),
            final(self).spec_base() == old(self).spec_base(),
            final(self).spec_limit() == old(self).spec_limit(),
            final(self).spec_page_size() == old(self).spec_page_size(),
            r.is_none() ==> *final(self) == *old(self) && *final(mem) == *old(mem),
            r.is_none() ==> !(exists|size: int| #[trigger] is_round_up(size, BLOCK_META_SIZE + min, old(self).spec_page_size() as int)
                && size <= old(self).spec_limit() - old(self).spec_brk()
                && BLOCK_META_SIZE + min + old(self).spec_page_size() - 1 <= isize::MAX),
            r matches Some(b) ==> ({
                let size = final(self).spec_brk() - old(self).spec_brk();
                &&& b.addr == old(self).spec_brk()
                &&& BLOCK_META_SIZE + min + old(self).spec_page_size() - 1 <= isize::MAX
                &&& is_round_up(size, BLOCK_META_SIZE + min, old(self).spec_page_size() as int)
                &&& final(mem)@ == old(mem)@.insert(b.addr, Block { size: (size - BLOCK_META_SIZE) as usize, magic: BLOCK_MAGIC_FREE })
            }),
    {
        if min > usize::MAX - BLOCK_META_SIZE {
            return None;
        }
        let layout = match pad_to_align(BLOCK_META_SIZE + min, self.page_size) {
            Ok(l) => l,
            Err(_) => {
                return None;
            },
        };
        let size = layout.size();
        if size > self.limit - self.brk {
            proof {
                assert forall|sz: int| #[trigger] is_round_up(sz, BLOCK_META_SIZE + min, self.page_size as int)
                    implies sz > self.limit - self.brk by {
                    lemma_round_up_unique(sz, size as int, BLOCK_META_SIZE + min, self.page_size as int);
                }
            }
            return None;
        }
        let addr = self.brk;
        let block = BlockPtr::new(mem, addr, size - BLOCK_META_SIZE);
        proof {
            vstd::arithmetic::div_mod::lemma_fundamental_div_mod(size as int, self.page_size as int);
            assert(size % 16 == 0) by {
                lemma_pow2_multiple_of_16(self.page_size as nat, size as int);
            }
        }
        self.brk = addr + size;
        Some(block)
    }

    /// Gives the block back to the system where it is the topmost one: the
    /// break moves down by its footprint and its header is gone. Otherwise
    /// nothing changes.
    pub fn release(&mut self, mem: &mut Memory, block: BlockPtr) -> (r: bool)
        requires
            old(self).wf(),
            block.valid(old(mem)),
            old(self).spec_base() <= block.addr,
            block.end(old(mem)) <= old(self).spec_brk(),
        ensures
            final(self).wf(),
            final(self).spec_base() == old(self).spec_base(),
            final(self).spec_limit() == old(self).spec_limit(),
            final(self).spec_page_size() == old(self).spec_page_size(),
            r == (block.end(old(mem)) == old(self).spec_brk()),
            r ==> final(self).spec_brk() == block.addr && final(mem)@ == old(mem)@.remove(block.addr),
            !r ==> *final(self) == *old(self) && final(mem)@ == old(mem)@,
    {
        if block.next_potential_block(mem) != self.brk {
            return false;
        }
        self.brk = block.addr;
        mem.wipe(block.addr);
        true
    }
}

/// A multiple of a power of two that is at least 16 is a multiple of 16.
pub proof fn lemma_pow2_multiple_of_16(p: nat, x: int)
    requires
        is_pow2(p),
        p >= 16,
        x % (p as int) == 0,
    ensures
        x % 16 == 0,
    decreases p,
{
    if p == 16 {
    } else {
        assert(p % 2 == 0);
        let q = p / 2;
        assert(x % (q as int) == 0) by {
            vstd::arithmetic::div_mod::lemma_fundamental_div_mod(x, p as int);
            let k = x / (p as int);
            assert(x == (k * 2) * (q as int)) by (nonlinear_arith)
                requires
                    x == (p as int) * k,
                    p == 2 * q,
            ;
            vstd::arithmetic::div_mod::lemma_mod_multiples_basic(k * 2, q as int);
        }
        if q < 16 {
            // a power of two between 16 and 32 exclusive does not exist
            reveal_with_fuel(is_pow2, 5);
            assert(false);
        }
        lemma_pow2_multiple_of_16(q, x);
    }
}

} // verus!
