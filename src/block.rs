use std::collections::HashMap;
use vstd::prelude::*;

use crate::MIN_ALIGN;

verus! {

broadcast use vstd::std_specs::hash::group_hash_axioms;

/// Bytes of the header that precedes every payload: the size and the magic
/// word, padded to `MIN_ALIGN`.
pub const BLOCK_META_SIZE: usize = 16;

/// The payload a free block needs to hold its two list links.
pub const BLOCK_MIN_REGION_SIZE: usize = 16;

/// The smallest payload that a tail split off a block may have: room for the
/// links and one more alignment unit of slack.
pub const BLOCK_SPLIT_MIN_SIZE: usize = BLOCK_META_SIZE + BLOCK_MIN_REGION_SIZE + MIN_ALIGN;

/// The sentinel that marks an intact header.
pub const BLOCK_MAGIC_FREE: u16 = 0xDEAD;

/// A block header as it lies in memory.
#[derive(Clone, Copy, Debug, PartialEq, Eq, Structural)]
pub struct Block {
    /// Payload size in bytes, header excluded.
    pub size: usize,
    pub magic: u16,
}

/// What a header reads as where none was written, or after it was wiped.
pub open spec fn zero_block() -> Block {
    Block { size: 0, magic: 0 }
}

impl Block {
    /// A fresh header for a payload of `size` bytes.
    pub fn new(size: usize) -> (r: Block)
        ensures
            r == (Block { size, magic: BLOCK_MAGIC_FREE }),
    {
        Block { size, magic: BLOCK_MAGIC_FREE }
    }

    /// Tells whether the magic word is intact.
    pub fn verify(&self) -> (r: bool)
        ensures
            r == (self.magic == BLOCK_MAGIC_FREE),
    {
        self.magic == BLOCK_MAGIC_FREE
    }
}

/// The header words of the data segment, by address. An address at which no
/// header stands reads as zeros.
pub struct Memory {
    headers: HashMap<usize, Block>,
}

impl View for Memory {
    type V = Map<usize, Block>;

    closed spec fn view(&self) -> Map<usize, Block> {
        self.headers@
    }
}

/// The header at `a` in the header map `m`.
pub open spec fn header_in(m: Map<usize, Block>, a: usize) -> Block {
    if m.contains_key(a) {
        m[a]
    } else {
        zero_block()
    }
}

impl Memory {
    /// The header at address `a`.
    pub open spec fn header(&self, a: usize) -> Block {
        header_in(self@, a)
    }

    /// Memory in which no header has been written.
    pub fn new() -> (r: Memory)
        ensures
            forall|a: usize| #[trigger] r.header(a) == zero_block(),
    {
        Memory { headers: HashMap::new() }
    }

    /// Reads the header at `addr`.
    pub fn read(&self, addr: usize) -> (r: Block)
        ensures
            r == self.header(addr),
    {
        match self.headers.get(&addr) {
            Some(b) => *b,
            None => Block { size: 0, magic: 0 },
        }
    }

    /// Writes `b` as the header at `addr`.
    pub fn write(&mut self, addr: usize, b: Block)
        ensures
            final(self)@ == old(self)@.insert(addr, b),
    {
        self.headers.insert(addr, b);
    }

    /// Overwrites the header at `addr` with zeros.
    pub fn wipe(&mut self, addr: usize)
        ensures
            final(self)@ == old(self)@.remove(addr),
    {
        self.headers.remove(&addr);
    }
}

/// A header with an intact magic word stands at `a`.
pub open spec fn live(mem: &Memory, a: usize) -> bool {
    mem.header(a).magic == BLOCK_MAGIC_FREE
}

/// The first address past the block whose header stands at `a` in `mem`.
pub open spec fn block_end(mem: &Memory, a: usize) -> int {
    end_of(a, mem.header(a))
}

/// The block whose header stands at `a` in `mem` is valid.
pub open spec fn valid_at(mem: &Memory, a: usize) -> bool {
    BlockPtr { addr: a }.valid(mem)
}

/// The first address past the block whose header is `b` at `a`.
pub open spec fn end_of(a: usize, b: Block) -> int {
    a + BLOCK_META_SIZE + b.size
}

/// What `b.shrink(size)` returning `r` does to the headers `m0`, giving `m1`.
pub open spec fn shrink_post(m0: &Memory, b: BlockPtr, size: usize, m1: &Memory, r: Option<BlockPtr>) -> bool {
    let old_size = m0.header(b.addr).size;
    if size + BLOCK_META_SIZE + BLOCK_SPLIT_MIN_SIZE <= old_size {
        let tail = (b.addr + BLOCK_META_SIZE + size) as usize;
        let rem = (old_size - size - BLOCK_META_SIZE) as usize;
        &&& r == Some(BlockPtr { addr: tail })
        &&& m1@ == m0@.insert(b.addr, Block { size, magic: BLOCK_MAGIC_FREE }).insert(
            tail,
            Block { size: rem, magic: BLOCK_MAGIC_FREE },
        )
    } else {
        &&& r.is_none()
        &&& *m1 == *m0
    }
}

/// What `b.maybe_merge_next(next)` returning `r` does to the headers `m0`,
/// giving `m1`.
pub open spec fn merge_post(m0: &Memory, b: BlockPtr, next: BlockPtr, m1: &Memory, r: Option<BlockPtr>) -> bool {
    let h = m0.header(b.addr);
    let n = m0.header(next.addr);
    if b.end(m0) == next.addr as int {
        &&& r == Some(b)
        &&& m1@ == m0@.insert(
            b.addr,
            Block { size: (h.size + BLOCK_META_SIZE + n.size) as usize, magic: BLOCK_MAGIC_FREE },
        ).remove(next.addr)
    } else {
        &&& r.is_none()
        &&& m1@ == m0@
    }
}

/// Splitting a block and merging the tail straight back gives the block its
/// old header again; only the tail's header is gone.
pub proof fn law_shrink_then_merge(
    m0: &Memory,
    b: BlockPtr,
    size: usize,
    m1: &Memory,
    tail: BlockPtr,
    m2: &Memory,
    r: Option<BlockPtr>,
)
    requires
        b.valid(m0),
        shrink_post(m0, b, size, m1, Some(tail)),
        merge_post(m1, b, tail, m2, r),
    ensures
        r == Some(b),
        m2.header(b.addr) == m0.header(b.addr),
        m2@ == m0@.remove(tail.addr),
{
    let h = m0.header(b.addr);
    assert(m1.header(b.addr).size == size);
    assert(b.end(m1) == tail.addr as int);
    assert(m2@ =~= m0@.remove(tail.addr));
}

/// A handle on the block whose header starts at `addr`.
#[derive(Clone, Copy, Debug, PartialEq, Eq, Structural)]
pub struct BlockPtr {
    pub addr: usize,
}

impl BlockPtr {
    /// The block's end according to the header in `mem`.
    pub open spec fn end(self, mem: &Memory) -> int {
        end_of(self.addr, mem.header(self.addr))
    }

    /// The header of this block in `mem` is intact, describes an aligned
    /// nonempty payload, and the block lies in the address space.
    pub open spec fn valid(self, mem: &Memory) -> bool {
        let h = mem.header(self.addr);
        &&& h.magic == BLOCK_MAGIC_FREE
        &&& h.size % MIN_ALIGN == 0
        &&& h.size > 0
        &&& self.addr % MIN_ALIGN == 0
        &&& self.addr > 0
        &&& self.end(mem) <= usize::MAX
    }

    /// Places a fresh header for a payload of `size` bytes at `addr`.
    pub fn new(mem: &mut Memory, addr: usize, size: usize) -> (r: BlockPtr)
        ensures
            r.addr == addr,
            final(mem)@ == old(mem)@.insert(addr, Block { size, magic: BLOCK_MAGIC_FREE }),
    {
        mem.write(addr, Block::new(size));
        BlockPtr { addr }
    }

    /// The handle of the block whose payload starts at `ptr`, or `None` where
    /// no header can precede `ptr`.
    pub fn from_mem_region(ptr: usize) -> (r: Option<BlockPtr>)
        ensures
            ptr > BLOCK_META_SIZE ==> r == Some(BlockPtr { addr: (ptr - BLOCK_META_SIZE) as usize }),
            ptr <= BLOCK_META_SIZE ==> r.is_none(),
    {
        if ptr <= BLOCK_META_SIZE {
            None
        } else {
            Some(BlockPtr { addr: ptr - BLOCK_META_SIZE })
        }
    }

    /// The address of the payload.
    pub fn mem_region(self) -> (r: usize)
        requires
            self.addr + BLOCK_META_SIZE <= usize::MAX,
        ensures
            r == self.addr + BLOCK_META_SIZE,
    {
        self.addr + BLOCK_META_SIZE
    }

    /// The address of the header.
    pub fn as_ptr(self) -> (r: usize)
        ensures
            r == self.addr,
    {
        self.addr
    }

    /// The payload size that the header records.
    pub fn size(self, mem: &Memory) -> (r: usize)
        ensures
            r == mem.header(self.addr).size,
    {
        mem.read(self.addr).size
    }

    /// The footprint: header and payload.
    pub fn block_size(self, mem: &Memory) -> (r: usize)
        requires
            mem.header(self.addr).size + BLOCK_META_SIZE <= usize::MAX,
        ensures
            r == mem.header(self.addr).size + BLOCK_META_SIZE,
    {
        BLOCK_META_SIZE + self.size(mem)
    }

    /// Where the next block would start.
    pub fn next_potential_block(self, mem: &Memory) -> (r: usize)
        requires
            self.end(mem) <= usize::MAX,
        ensures
            r == self.end(mem),
    {
        self.addr + BLOCK_META_SIZE + self.size(mem)
    }

    /// Tells whether the header's magic word is intact.
    pub fn verify(self, mem: &Memory) -> (r: bool)
        ensures
            r == (mem.header(self.addr).magic == BLOCK_MAGIC_FREE),
    {
        mem.read(self.addr).verify()
    }

    /// Splits the block so that it keeps a payload of exactly `size` bytes,
    /// and returns the rest as a fresh block, where the rest can hold a
    /// payload of at least `BLOCK_SPLIT_MIN_SIZE` bytes. Otherwise nothing
    /// changes.
    pub fn shrink(self, mem: &mut Memory, size: usize) -> (r: Option<BlockPtr>)
        requires
            self.valid(old(mem)),
            size % MIN_ALIGN == 0,
            size > 0,
        ensures
            shrink_post(old(mem), self, size, final(mem), r),
    {
        let old_size = self.size(mem);
        if old_size < size || old_size - size < BLOCK_META_SIZE {
            return None;
        }
        let rem = old_size - size - BLOCK_META_SIZE;
        if rem < BLOCK_SPLIT_MIN_SIZE {
            return None;
        }
        mem.write(self.addr, Block::new(size));
        let tail = BlockPtr::new(mem, self.addr + BLOCK_META_SIZE + size, rem);
        Some(tail)
    }

    /// Absorbs `next` where it starts right at this block's end: the payload
    /// grows by `next`'s footprint and `next`'s header is wiped. Otherwise
    /// nothing changes.
    pub fn maybe_merge_next(self, mem: &mut Memory, next: BlockPtr) -> (r: Option<BlockPtr>)
        requires
            self.valid(old(mem)),
            next.valid(old(mem)),
            self.addr != next.addr,
        ensures
            merge_post(old(mem), self, next, final(mem), r),
    {
        if self.next_potential_block(mem) != next.addr {
            return None;
        }
        let merged = self.size(mem) + BLOCK_META_SIZE + next.size(mem);
        mem.write(self.addr, Block::new(merged));
        mem.wipe(next.addr);
        Some(self)
    }
}

} // verus!
