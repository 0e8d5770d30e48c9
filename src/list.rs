use vstd::prelude::*;

use crate::block::{
    live, Block, BlockPtr, Memory, BLOCK_MAGIC_FREE, BLOCK_META_SIZE, BLOCK_SPLIT_MIN_SIZE,
};

verus! {

/// `s[i]` ends strictly before `s[i + 1]` begins.
pub open spec fn gap_after(s: Seq<BlockPtr>, mem: &Memory, i: int) -> bool {
    s[i].end(mem) < s[i + 1].addr as int
}

/// Every block is valid and no block reaches past the start of a later one.
pub open spec fn loose(s: Seq<BlockPtr>, mem: &Memory) -> bool {
    &&& forall|i: int| 0 <= i < s.len() ==> #[trigger] s[i].valid(mem)
    &&& forall|i: int, j: int|
        0 <= i < j < s.len() ==> #[trigger] s[i].end(mem) <= #[trigger] s[j].addr as int
}

/// Consecutive blocks are separated by a gap, except perhaps after `a` and after `b`.
pub open spec fn gaps_except(s: Seq<BlockPtr>, mem: &Memory, a: int, b: int) -> bool {
    forall|i: int| 0 <= i < s.len() - 1 && i != a && i != b ==> #[trigger] gap_after(s, mem, i)
}

/// The free-list invariant over `mem`: valid blocks, strictly ascending
/// addresses, no overlap and no two blocks adjacent.
pub open spec fn list_wf(s: Seq<BlockPtr>, mem: &Memory) -> bool {
    &&& loose(s, mem)
    &&& gaps_except(s, mem, -1, -1)
}

/// Byte `x` lies in some block of `s`.
pub open spec fn covers(s: Seq<BlockPtr>, mem: &Memory, x: int) -> bool {
    exists|i: int| 0 <= i < s.len() && #[trigger] s[i].addr <= x && x < s[i].end(mem)
}

/// A block with payload `have` serves a request for `need` bytes: exactly, or
/// with room left for a viable free tail.
pub open spec fn fits(have: int, need: int) -> bool {
    have == need || need + BLOCK_SPLIT_MIN_SIZE <= have
}

/// The free blocks, in ascending address order.
pub struct IntrusiveList {
    blocks: Vec<BlockPtr>,
}

impl View for IntrusiveList {
    type V = Seq<BlockPtr>;

    closed spec fn view(&self) -> Seq<BlockPtr> {
        self.blocks@
    }
}

/// A forward walk over a snapshot of the free list.
pub struct Iter {
    blocks: Vec<BlockPtr>,
    index: usize,
}

impl Iter {
    pub closed spec fn rest(&self) -> Seq<BlockPtr> {
        if self.index <= self.blocks.len() {
            self.blocks@.skip(self.index as int)
        } else {
            Seq::empty()
        }
    }

    /// The next block, or `None` at the end.
    pub fn next(&mut self) -> (r: Option<BlockPtr>)
        ensures
            old(self).rest().len() == 0 ==> r.is_none() && final(self).rest().len() == 0,
            old(self).rest().len() > 0 ==> r == Some(old(self).rest()[0]) && final(self).rest()
                == old(self).rest().skip(1),
    {
        if self.index >= self.blocks.len() {
            return None;
        }
        let b = self.blocks[self.index];
        self.index = self.index + 1;
        proof {
            assert(self.blocks@.skip(self.index as int) =~= old(self).rest().skip(1));
        }
        Some(b)
    }
}

impl IntrusiveList {
    /// The list invariant over `mem`.
    pub open spec fn wf(&self, mem: &Memory) -> bool {
        list_wf(self@, mem)
    }

    /// An empty list.
    pub fn new() -> (r: IntrusiveList)
        ensures
            r@ == Seq::<BlockPtr>::empty(),
    {
        IntrusiveList { blocks: Vec::new() }
    }

    /// The lowest free block.
    pub fn head(&self) -> (r: Option<BlockPtr>)
        ensures
            self@.len() == 0 ==> r.is_none(),
            self@.len() > 0 ==> r == Some(self@[0]),
    {
        if self.blocks.len() == 0 {
            None
        } else {
            Some(self.blocks[0])
        }
    }

    /// The highest free block.
    pub fn tail(&self) -> (r: Option<BlockPtr>)
        ensures
            self@.len() == 0 ==> r.is_none(),
            self@.len() > 0 ==> r == Some(self@.last()),
    {
        if self.blocks.len() == 0 {
            None
        } else {
            Some(self.blocks[self.blocks.len() - 1])
        }
    }

    /// The number of free blocks.
    pub fn len(&self) -> (r: usize)
        ensures
            r == self@.len(),
    {
        self.blocks.len()
    }

    /// A walk over the blocks, lowest address first.
    pub fn iter(&self) -> (r: Iter)
        ensures
            r.rest() == self@,
    {
        let r = Iter { blocks: self.blocks.clone(), index: 0 };
        proof {
            assert(r.blocks@.skip(0) =~= r.blocks@);
        }
        r
    }

    /// The blocks as a vector, lowest address first.
    pub fn blocks(&self) -> (r: Vec<BlockPtr>)
        ensures
            r@ == self@,
    {
        self.blocks.clone()
    }

    /// Walks the list and checks its invariant.
    pub fn debug(&self, mem: &Memory) -> (r: bool)
        ensures
            r == self.wf(mem),
    {
        let n = self.blocks.len();
        let mut i: usize = 0;
        while i < n
            invariant
                n == self@.len(),
                i <= n,
                forall|k: int| 0 <= k < i ==> #[trigger] self@[k].valid(mem),
                forall|k: int| 0 <= k < i && k + 1 < n ==> #[trigger] gap_after(self@, mem, k),
            decreases n - i,
        {
            let b = self.blocks[i];
            let h = mem.read(b.addr);
            if h.magic != BLOCK_MAGIC_FREE || h.size % 16 != 0 || h.size == 0 || b.addr % 16 != 0
                || b.addr == 0 || b.addr > usize::MAX - BLOCK_META_SIZE
                || h.size > usize::MAX - BLOCK_META_SIZE - b.addr {
                assert(!self@[i as int].valid(mem));
                return false;
            }
            if i + 1 < n {
                let end = b.addr + BLOCK_META_SIZE + h.size;
                if end >= self.blocks[i + 1].addr {
                    assert(!gap_after(self@, mem, i as int));
                    return false;
                }
            }
            i = i + 1;
        }
        proof {
            lemma_gaps_give_loose(self@, mem);
        }
        true
    }
}


/// Some block of `s` starts at `a`.
pub open spec fn in_list(s: Seq<BlockPtr>, a: usize) -> bool {
    exists|i: int| 0 <= i < s.len() && #[trigger] s[i].addr == a
}

/// In a loosely ordered list, addresses strictly ascend.
proof fn lemma_loose_ascending(s: Seq<BlockPtr>, mem: &Memory)
    requires
        loose(s, mem),
    ensures
        forall|i: int, j: int| 0 <= i < j < s.len() ==> (#[trigger] s[i]).addr < (#[trigger] s[j]).addr,
{
    assert forall|i: int, j: int| 0 <= i < j < s.len() implies (#[trigger] s[i]).addr
        < (#[trigger] s[j]).addr by {
        assert(s[i].valid(mem));
        assert(s[i].end(mem) <= s[j].addr as int);
    }
}

impl IntrusiveList {
    /// The position before which `block` belongs: the first block at a higher
    /// address, `None` where there is none, `Err` where `block` is already in
    /// the list.
    fn find_higher_block(&self, mem: &Memory, block: BlockPtr) -> (r: Result<Option<usize>, ()>)
        requires
            loose(self@, mem),
        ensures
            r.is_err() <==> in_list(self@, block.addr),
            r matches Ok(Some(i)) ==> i < self@.len() && self@[i as int].addr > block.addr
                && forall|j: int| 0 <= j < i ==> #[trigger] self@[j].addr < block.addr,
            r matches Ok(None) ==> forall|j: int| 0 <= j < self@.len() ==> #[trigger] self@[j].addr < block.addr,
    {
        proof {
            lemma_loose_ascending(self@, mem);
        }
        let n = self.blocks.len();
        let mut i: usize = 0;
        while i < n
            invariant
                n == self@.len(),
                i <= n,
                forall|j: int| 0 <= j < i ==> #[trigger] self@[j].addr < block.addr,
                forall|i: int, j: int| 0 <= i < j < self@.len() ==> (#[trigger] self@[i]).addr < (#[trigger] self@[j]).addr,
            decreases n - i,
        {
            let b = self.blocks[i];
            if b.addr > block.addr {
                proof {
                    assert forall|j: int| 0 <= j < self@.len() implies #[trigger] self@[j].addr != block.addr by {
                        if j > i {
                            assert(self@[i as int].addr < self@[j].addr);
                        }
                    }
                }
                return Ok(Some(i));
            }
            if b.addr == block.addr {
                return Err(());
            }
            i = i + 1;
        }
        Ok(None)
    }

    /// Merges the block at `k` with its successor where the two are adjacent.
    #[verifier::rlimit(40)]
    fn merge_pair(&mut self, mem: &mut Memory, k: usize) -> (merged: bool)
        requires
            loose(old(self)@, old(mem)),
            k + 1 < old(self)@.len(),
            gaps_except(old(self)@, old(mem), k as int, k + 1),
        ensures
            loose(final(self)@, final(mem)),
            forall|x: int| covers(final(self)@, final(mem), x) <==> covers(old(self)@, old(mem), x),
            !merged ==> final(self)@ == old(self)@ && final(mem)@ == old(mem)@
                && gaps_except(old(self)@, old(mem), k + 1, k + 1),
            merged ==> final(self)@ == old(self)@.remove(k + 1),
            merged ==> gaps_except(final(self)@, final(mem), k as int, k as int),
            merged && k + 1 < final(self)@.len() ==> (gap_after(final(self)@, final(mem), k as int)
                <==> gap_after(old(self)@, old(mem), k + 1)),
            forall|a: usize| #[trigger] final(mem).header(a) != old(mem).header(a) ==> in_list(old(self)@, a),
            forall|a: usize| #[trigger] in_list(final(self)@, a) ==> in_list(old(self)@, a),
            forall|a: usize| #[trigger] in_list(old(self)@, a) ==> in_list(final(self)@, a) || !live(final(mem), a),
            forall|a: usize| #[trigger] final(mem).header(a) != old(mem).header(a) && live(final(mem), a)
                ==> in_list(final(self)@, a),
    {
        let ghost s = self@;
        let ghost m0 = *mem;
        proof {
            lemma_loose_ascending(s, mem);
            assert(s[k as int].valid(mem));
            assert(s[k + 1].valid(mem));
        }
        let n = self.blocks.len();
        let cur = self.blocks[k];
        let next = self.blocks[k + 1];
        match cur.maybe_merge_next(mem, next) {
            None => {
                proof {
                    assert(s[k as int].end(&m0) <= s[k + 1].addr as int);
                    assert(gap_after(s, &m0, k as int));
                    lemma_loose_same_view(s, &m0, mem);
                }
                false
            },
            Some(_) => {
                self.blocks.remove(k + 1);
                let ghost t = self@;
                proof {
                    assert(t =~= s.remove(k + 1));
                    // Headers other than the two merged ones are untouched.
                    assert forall|i: int| 0 <= i < t.len() && i != k implies #[trigger] mem.header(t[i].addr)
                        == m0.header(t[i].addr) by {
                        if i < k {
                            assert(s[i].addr < s[k as int].addr);
                        } else {
                            assert(t[i] == s[i + 1]);
                            assert(s[k as int].addr < s[k + 1].addr);
                            assert(s[k + 1].addr < s[i + 1].addr);
                        }
                    }
                    assert(t[k as int].end(mem) == s[k + 1].end(&m0));
                    assert(t[k as int].valid(mem)) by {
                        let h = m0.header(s[k as int].addr);
                        let n = m0.header(s[k + 1].addr);
                        assert(mem.header(t[k as int].addr).size == h.size + BLOCK_META_SIZE + n.size);
                    }
                    assert forall|i: int| 0 <= i < t.len() implies #[trigger] t[i].valid(mem) by {
                        if i < k {
                            assert(t[i] == s[i]);
                            assert(s[i].valid(&m0));
                        } else if i > k {
                            assert(t[i] == s[i + 1]);
                            assert(s[i + 1].valid(&m0));
                        }
                    }
                    assert forall|i: int, j: int| 0 <= i < j < t.len() implies #[trigger] t[i].end(mem)
                        <= #[trigger] t[j].addr as int by {
                        let ii = if i <= k { i } else { i + 1 };
                        let jj = if j <= k { j } else { j + 1 };
                        if i == k {
                            assert(s[k + 1].end(&m0) <= s[jj].addr as int);
                        } else {
                            assert(s[ii].end(&m0) <= s[jj].addr as int);
                        }
                    }
                    assert forall|i: int| 0 <= i < t.len() - 1 && i != k implies #[trigger] gap_after(t, mem, i) by {
                        if i < k {
                            assert(gap_after(s, &m0, i));
                            if i + 1 == k {
                                assert(t[i + 1].addr == s[k as int].addr);
                            }
                        } else {
                            assert(gap_after(s, &m0, i + 1));
                        }
                    }
                    assert forall|x: int| covers(t, mem, x) <==> covers(s, &m0, x) by {
                        if covers(t, mem, x) {
                            let i = choose|i: int| 0 <= i < t.len() && #[trigger] t[i].addr <= x && x < t[i].end(mem);
                            if i < k {
                                assert(s[i].addr <= x && x < s[i].end(&m0));
                            } else if i > k {
                                assert(s[i + 1].addr <= x && x < s[i + 1].end(&m0));
                            } else if x < s[k as int].end(&m0) {
                                assert(s[k as int].addr <= x);
                            } else {
                                assert(s[k + 1].addr <= x && x < s[k + 1].end(&m0));
                            }
                        }
                        if covers(s, &m0, x) {
                            let i = choose|i: int| 0 <= i < s.len() && #[trigger] s[i].addr <= x && x < s[i].end(&m0);
                            if i < k {
                                assert(t[i].addr <= x && x < t[i].end(mem));
                            } else if i > k + 1 {
                                assert(t[i - 1].addr <= x && x < t[i - 1].end(mem));
                            } else {
                                assert(t[k as int].addr <= x && x < t[k as int].end(mem));
                            }
                        }
                    }
                    assert forall|a: usize| #[trigger] mem.header(a) != m0.header(a) implies in_list(s, a) by {
                        if a == s[k as int].addr {
                            assert(s[k as int].addr == a);
                        } else {
                            assert(s[k + 1].addr == a);
                        }
                    }
                    assert forall|a: usize| #[trigger] in_list(t, a) implies in_list(s, a) by {
                        let i = choose|i: int| 0 <= i < t.len() && #[trigger] t[i].addr == a;
                        if i <= k {
                            assert(s[i].addr == a);
                        } else {
                            assert(s[i + 1].addr == a);
                        }
                    }
                    assert forall|a: usize| #[trigger] in_list(s, a) implies in_list(t, a) || !live(mem, a) by {
                        let i = choose|i: int| 0 <= i < s.len() && #[trigger] s[i].addr == a;
                        if i <= k {
                            assert(t[i].addr == a);
                        } else if i > k + 1 {
                            assert(t[i - 1].addr == a);
                        }
                    }
                    assert forall|a: usize| #[trigger] mem.header(a) != m0.header(a) && live(mem, a)
                        implies in_list(t, a) by {
                        assert(t[k as int].addr == s[k as int].addr);
                    }
                }
                true
            },
        }
    }
}

/// `block` is already in `s`, or overlaps none of its blocks.
pub open spec fn resident_or_apart(s: Seq<BlockPtr>, mem: &Memory, block: BlockPtr) -> bool {
    forall|i: int|
        0 <= i < s.len() ==> (#[trigger] s[i]).addr == block.addr || s[i].end(mem) <= block.addr as int
            || block.end(mem) <= s[i].addr as int
}

/// Putting `block` at `pos`, between the lower and the higher blocks of a
/// well-formed list, keeps the order loose, leaves gaps everywhere but
/// around `block`, and adds exactly `block`'s bytes.
#[verifier::rlimit(60)]
proof fn lemma_insert_at(s: Seq<BlockPtr>, mem: &Memory, pos: int, block: BlockPtr)
    requires
        list_wf(s, mem),
        block.valid(mem),
        resident_or_apart(s, mem, block),
        0 <= pos <= s.len(),
        forall|j: int| 0 <= j < pos ==> #[trigger] s[j].addr < block.addr,
        pos < s.len() ==> s[pos].addr > block.addr,
    ensures
        loose(s.insert(pos, block), mem),
        gaps_except(s.insert(pos, block), mem, pos - 1, pos),
        forall|x: int| covers(s.insert(pos, block), mem, x) <==> (covers(s, mem, x) || (block.addr <= x
            && x < block.end(mem))),
        forall|a: usize| in_list(s.insert(pos, block), a) ==> a == block.addr || in_list(s, a),
{
    let t = s.insert(pos, block);
    lemma_loose_ascending(s, mem);
    assert forall|i: int| 0 <= i < t.len() implies #[trigger] t[i].valid(mem) by {
        if i < pos {
            assert(t[i] == s[i]);
        } else if i > pos {
            assert(t[i] == s[i - 1]);
        }
    }
    assert forall|i: int, j: int| 0 <= i < j < t.len() implies #[trigger] t[i].end(mem)
        <= #[trigger] t[j].addr as int by {
        if j < pos {
            assert(s[i].end(mem) <= s[j].addr as int);
        } else if j == pos {
            assert(s[i].addr < block.addr);
            assert(s[i].valid(mem));
        } else if i < pos {
            assert(s[i].end(mem) <= s[j - 1].addr as int);
        } else if i == pos {
            assert(t[j] == s[j - 1]);
            assert(s[j - 1].addr > block.addr) by {
                if j - 1 > pos {
                    assert(s[pos].addr < s[j - 1].addr);
                }
            }
            assert(s[j - 1].valid(mem));
        } else {
            assert(s[i - 1].end(mem) <= s[j - 1].addr as int);
        }
    }
    assert forall|i: int| 0 <= i < t.len() - 1 && i != pos - 1 && i != pos implies #[trigger] gap_after(t, mem, i) by {
        if i < pos {
            assert(gap_after(s, mem, i));
        } else {
            assert(gap_after(s, mem, i - 1));
        }
    }
    assert forall|x: int| covers(t, mem, x) <==> (covers(s, mem, x) || (block.addr <= x && x < block.end(mem))) by {
        if covers(t, mem, x) {
            let i = choose|i: int| 0 <= i < t.len() && #[trigger] t[i].addr <= x && x < t[i].end(mem);
            if i < pos {
                assert(s[i].addr <= x && x < s[i].end(mem));
            } else if i > pos {
                assert(s[i - 1].addr <= x && x < s[i - 1].end(mem));
            }
        }
        if covers(s, mem, x) {
            let i = choose|i: int| 0 <= i < s.len() && #[trigger] s[i].addr <= x && x < s[i].end(mem);
            if i < pos {
                assert(t[i].addr <= x && x < t[i].end(mem));
            } else {
                assert(t[i + 1].addr <= x && x < t[i + 1].end(mem));
            }
        }
        if block.addr <= x && x < block.end(mem) {
            assert(t[pos].addr <= x && x < t[pos].end(mem));
        }
    }
    assert forall|a: usize| in_list(t, a) implies a == block.addr || in_list(s, a) by {
        let i = choose|i: int| 0 <= i < t.len() && #[trigger] t[i].addr == a;
        if i < pos {
            assert(s[i].addr == a);
        } else if i > pos {
            assert(s[i - 1].addr == a);
        }
    }
}

impl IntrusiveList {
    /// Inserts `block` in address order and merges it with an adjacent
    /// predecessor and successor. Fails, changing nothing, where `block` is
    /// already in the list.
    #[verifier::rlimit(60)]
    pub fn insert(&mut self, mem: &mut Memory, block: BlockPtr) -> (r: Result<(), ()>)
        requires
            old(self).wf(old(mem)),
            block.valid(old(mem)),
            resident_or_apart(old(self)@, old(mem), block),
        ensures
            r.is_err() <==> in_list(old(self)@, block.addr),
            r.is_err() ==> *final(self) == *old(self) && *final(mem) == *old(mem),
            final(self).wf(final(mem)),
            r.is_ok() ==> (forall|x: int|
                covers(final(self)@, final(mem), x) <==> (covers(old(self)@, old(mem), x) || (
                block.addr <= x && x < block.end(old(mem))))),
            forall|a: usize| #[trigger] final(mem).header(a) != old(mem).header(a) ==> a == block.addr
                || in_list(old(self)@, a),
            forall|a: usize| #[trigger] in_list(final(self)@, a) ==> a == block.addr || in_list(old(self)@, a),
            forall|a: usize| #[trigger] in_list(old(self)@, a) ==> in_list(final(self)@, a) || !live(final(mem), a),
            in_list(final(self)@, block.addr) || !live(final(mem), block.addr),
            forall|a: usize| #[trigger] final(mem).header(a) != old(mem).header(a) && live(final(mem), a)
                ==> in_list(final(self)@, a),
    {
        let ghost s = self@;
        let ghost m0 = *mem;
        let found = self.find_higher_block(mem, block);
        let pos: usize = match found {
            Err(()) => {
                return Err(());
            },
            Ok(Some(i)) => i,
            Ok(None) => self.blocks.len(),
        };
        self.blocks.insert(pos, block);
        let ghost t = self@;
        proof {
            assert(t =~= s.insert(pos as int, block));
            lemma_insert_at(s, mem, pos as int, block);
        }
        self.merge_around(mem, pos);
        proof {
            assert forall|a: usize| #[trigger] mem.header(a) != m0.header(a) implies a == block.addr
                || in_list(s, a) by {
                assert(in_list(t, a));
            }
            assert forall|a: usize| #[trigger] in_list(self@, a) implies a == block.addr || in_list(s, a) by {
                assert(in_list(t, a));
            }
            assert forall|a: usize| #[trigger] in_list(s, a) implies in_list(self@, a) || !live(mem, a) by {
                let i = choose|i: int| 0 <= i < s.len() && #[trigger] s[i].addr == a;
                if i < pos {
                    assert(t[i].addr == a);
                } else {
                    assert(t[i + 1].addr == a);
                }
                assert(in_list(t, a));
            }
            assert(t[pos as int].addr == block.addr);
            assert(in_list(t, block.addr));
        }
        Ok(())
    }

    /// Merges the block at `pos` with its predecessor and then with its
    /// successor, where they are adjacent.
    #[verifier::rlimit(60)]
    fn merge_around(&mut self, mem: &mut Memory, pos: usize)
        requires
            loose(old(self)@, old(mem)),
            pos < old(self)@.len(),
            gaps_except(old(self)@, old(mem), pos - 1, pos as int),
        ensures
            final(self).wf(final(mem)),
            forall|x: int| covers(final(self)@, final(mem), x) <==> covers(old(self)@, old(mem), x),
            forall|a: usize| #[trigger] final(mem).header(a) != old(mem).header(a) ==> in_list(old(self)@, a),
            forall|a: usize| #[trigger] in_list(final(self)@, a) ==> in_list(old(self)@, a),
            forall|a: usize| #[trigger] in_list(old(self)@, a) ==> in_list(final(self)@, a) || !live(final(mem), a),
            forall|a: usize| #[trigger] final(mem).header(a) != old(mem).header(a) && live(final(mem), a)
                ==> in_list(final(self)@, a),
    {
        let ghost t = self@;
        let ghost m0 = *mem;
        let mut k: usize = pos;
        if pos > 0 {
            let merged = self.merge_pair(mem, pos - 1);
            if merged {
                k = pos - 1;
            } else {
                proof {
                    assert forall|i: int| 0 <= i < self@.len() - 1 && i != k implies #[trigger] gap_after(self@, mem, i) by {
                        assert(gap_after(t, &m0, i));
                    }
                }
            }
        } else {
            proof {
                assert forall|i: int| 0 <= i < self@.len() - 1 && i != k implies #[trigger] gap_after(self@, mem, i) by {
                    assert(gap_after(t, &m0, i));
                }
            }
        }
        let ghost u = self@;
        let ghost m1 = *mem;
        proof {
            assert(gaps_except(u, &m1, k as int, k as int));
            assert forall|a: usize| in_list(u, a) implies in_list(t, a) by {
                if u.len() != t.len() {
                    let i = choose|i: int| 0 <= i < u.len() && #[trigger] u[i].addr == a;
                    if i < pos {
                        assert(t[i].addr == a);
                    } else {
                        assert(t[i + 1].addr == a);
                    }
                }
            }
        }
        let n = self.blocks.len();
        assert(k < n);
        if k + 1 < n {
            let merged = self.merge_pair(mem, k);
            proof {
                assert forall|i: int| 0 <= i < self@.len() - 1 implies #[trigger] gap_after(self@, mem, i) by {
                    if i == k && merged {
                        assert(gap_after(u, &m1, k + 1));
                    } else if !merged {
                        if i == k + 1 {
                            assert(gap_after(u, &m1, i));
                        } else {
                            assert(gaps_except(u, &m1, k + 1, k + 1));
                            assert(gap_after(u, &m1, i));
                        }
                    }
                }
                assert forall|a: usize| #[trigger] mem.header(a) != m0.header(a) implies in_list(t, a) by {
                    if mem.header(a) != m1.header(a) {
                        assert(in_list(u, a));
                    }
                }
                assert forall|a: usize| #[trigger] in_list(self@, a) implies in_list(t, a) by {
                    assert(in_list(u, a));
                }
                assert forall|a: usize| #[trigger] in_list(t, a) implies in_list(self@, a) || !live(mem, a) by {
                    if in_list(u, a) {
                        if !in_list(self@, a) {
                            assert(!live(mem, a));
                        }
                    } else {
                        assert(!live(&m1, a));
                        if mem.header(a) != m1.header(a) {
                            assert(in_list(u, a));
                        }
                    }
                }
                assert forall|a: usize| #[trigger] mem.header(a) != m0.header(a) && live(mem, a)
                    implies in_list(self@, a) by {
                    if mem.header(a) != m1.header(a) {
                    } else {
                        assert(in_list(u, a));
                    }
                }
            }
        }
    }

    /// Unlinks the block at `index` and returns it.
    pub fn remove(&mut self, mem: &Memory, index: usize) -> (r: BlockPtr)
        requires
            old(self).wf(mem),
            index < old(self)@.len(),
        ensures
            r == old(self)@[index as int],
            final(self)@ == old(self)@.remove(index as int),
            final(self).wf(mem),
    {
        let ghost s = self@;
        proof {
            lemma_gaps_give_loose(s, mem);
        }
        let r = self.blocks.remove(index);
        proof {
            let t = self@;
            assert(t =~= s.remove(index as int));
            assert forall|i: int| 0 <= i < t.len() implies #[trigger] t[i].valid(mem) by {
                if i >= index {
                    assert(t[i] == s[i + 1]);
                }
            }
            assert forall|i: int, j: int| 0 <= i < j < t.len() implies #[trigger] t[i].end(mem)
                <= #[trigger] t[j].addr as int by {
                let ii = if i < index { i } else { i + 1 };
                let jj = if j < index { j } else { j + 1 };
                assert(s[ii].end(mem) < s[jj].addr as int);
            }
            assert forall|i: int| 0 <= i < t.len() - 1 implies #[trigger] gap_after(t, mem, i) by {
                let ii = if i < index { i } else { i + 1 };
                let jj = if i + 1 < index { i + 1 } else { i + 2 };
                assert(s[ii].end(mem) < s[jj].addr as int);
            }
        }
        r
    }

    /// Removes and returns the first block, in address order, whose payload
    /// matches `size` exactly or leaves room for a viable free tail.
    pub fn pop(&mut self, mem: &Memory, size: usize) -> (r: Option<BlockPtr>)
        requires
            old(self).wf(mem),
        ensures
            final(self).wf(mem),
            r.is_none() ==> *final(self) == *old(self),
            r.is_none() ==> (forall|i: int| 0 <= i < old(self)@.len()
                ==> !fits(mem.header(#[trigger] old(self)@[i].addr).size as int, size as int)),
            r matches Some(b) ==> (exists|i: int| 0 <= i < old(self)@.len() && b == #[trigger] old(self)@[i]
                && fits(mem.header(b.addr).size as int, size as int)
                && final(self)@ == old(self)@.remove(i)
                && (forall|j: int| 0 <= j < i ==> !fits(mem.header(#[trigger] old(self)@[j].addr).size as int, size as int))),
    {
        let n = self.blocks.len();
        let mut i: usize = 0;
        while i < n
            invariant
                n == self@.len(),
                i <= n,
                *self == *old(self),
                self.wf(mem),
                forall|j: int| 0 <= j < i ==> !fits(mem.header(#[trigger] self@[j].addr).size as int, size as int),
            decreases n - i,
        {
            let have = self.blocks[i].size(mem);
            if have == size || (size <= usize::MAX - BLOCK_SPLIT_MIN_SIZE && size + BLOCK_SPLIT_MIN_SIZE <= have) {
                let ghost s = self@;
                let b = self.remove(mem, i);
                assert(b == s[i as int]);
                return Some(b);
            }
            i = i + 1;
        }
        None
    }

    /// A list holding one fresh block spanning `footprint` bytes at `addr`.
    pub fn from(mem: &mut Memory, addr: usize, footprint: usize) -> (r: Result<IntrusiveList, ()>)
        requires
            addr % 16 == 0,
            addr > 0,
            footprint % 16 == 0,
            footprint > BLOCK_META_SIZE,
            addr + footprint <= usize::MAX,
        ensures
            r matches Ok(l) ==> l@ == seq![BlockPtr { addr }] && l.wf(final(mem)),
            r.is_ok(),
            final(mem).header(addr) == (Block { size: (footprint - BLOCK_META_SIZE) as usize, magic: BLOCK_MAGIC_FREE }),
            forall|a: usize| a != addr ==> #[trigger] final(mem).header(a) == old(mem).header(a),
    {
        let block = BlockPtr::new(mem, addr, footprint - BLOCK_META_SIZE);
        let mut blocks: Vec<BlockPtr> = Vec::new();
        blocks.push(block);
        let list = IntrusiveList { blocks };
        proof {
            assert(list@ =~= seq![block]);
            assert(list@[0].valid(mem));
        }
        Ok(list)
    }
}

/// Looseness depends on the header map alone.
proof fn lemma_loose_same_view(s: Seq<BlockPtr>, m1: &Memory, m2: &Memory)
    requires
        loose(s, m1),
        m1@ == m2@,
    ensures
        loose(s, m2),
{
    assert forall|i: int| 0 <= i < s.len() implies #[trigger] s[i].valid(m2) by {
        assert(s[i].valid(m1));
    }
    assert forall|i: int, j: int| 0 <= i < j < s.len() implies #[trigger] s[i].end(m2)
        <= #[trigger] s[j].addr as int by {
        assert(s[i].end(m1) <= s[j].addr as int);
    }
}

/// Valid blocks with a gap after each one are strictly ordered, and so loosely ordered.
pub proof fn lemma_gaps_give_loose(s: Seq<BlockPtr>, mem: &Memory)
    requires
        forall|k: int| 0 <= k < s.len() ==> #[trigger] s[k].valid(mem),
        forall|k: int| 0 <= k < s.len() - 1 ==> #[trigger] gap_after(s, mem, k),
    ensures
        forall|i: int, j: int|
            0 <= i < j < s.len() ==> #[trigger] s[i].end(mem) < #[trigger] s[j].addr as int,
        loose(s, mem),
{
    assert forall|i: int, j: int| 0 <= i < j < s.len() implies #[trigger] s[i].end(mem)
        < #[trigger] s[j].addr as int by {
        lemma_gaps_chain(s, mem, i, j);
    }
}

proof fn lemma_gaps_chain(s: Seq<BlockPtr>, mem: &Memory, i: int, j: int)
    requires
        0 <= i < j < s.len(),
        forall|k: int| 0 <= k < s.len() ==> #[trigger] s[k].valid(mem),
        forall|k: int| 0 <= k < s.len() - 1 ==> #[trigger] gap_after(s, mem, k),
    ensures
        s[i].end(mem) < s[j].addr as int,
    decreases j - i,
{
    assert(gap_after(s, mem, i));
    if j > i + 1 {
        lemma_gaps_chain(s, mem, i + 1, j);
        assert(s[i + 1].valid(mem));
    }
}

} // verus!
