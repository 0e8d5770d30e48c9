use vstd::prelude::*;

use crate::block::{
    block_end, live, valid_at, zero_block, Block, BlockPtr, Memory, BLOCK_MAGIC_FREE, BLOCK_META_SIZE,
    BLOCK_SPLIT_MIN_SIZE,
};
use crate::list::{covers, fits, gap_after, in_list, lemma_gaps_give_loose, list_wf, IntrusiveList};
use crate::sources::{lemma_pow2_multiple_of_16, DataSegment};
use crate::util::{is_pow2, is_round_up};

verus! {

/// Some block with an intact header holds byte `x`.
pub open spec fn live_covered(mem: &Memory, x: int) -> bool {
    exists|a: usize| #[trigger] live(mem, a) && a <= x && x < block_end(mem, a)
}

/// The blocks with intact headers at `a` and `b` do not overlap.
pub open spec fn apart(mem: &Memory, a: usize, b: usize) -> bool {
    block_end(mem, a) <= b as int || block_end(mem, b) <= a as int
}

/// The heap invariant over the free list `s`, the headers `mem`, the segment
/// `[base, brk)` and the bytes `leaked` whose header a caller destroyed:
/// - the free list is ordered, non-overlapping and has no two adjacent blocks;
/// - every intact header describes an aligned block inside the segment;
/// - no two such blocks overlap;
/// - every byte of the segment lies in such a block or is leaked, and no leaked
///   byte lies in one.
/// So the footprints of the free and the handed-out blocks, with the leaked
/// bytes, add up to the size of the segment.
pub open spec fn heap_wf(s: Seq<BlockPtr>, mem: &Memory, base: int, brk: int, leaked: Set<int>) -> bool {
    &&& list_wf(s, mem)
    &&& forall|a: usize| #[trigger] live(mem, a) ==> valid_at(mem, a) && base <= a
        && block_end(mem, a) <= brk
    &&& forall|a: usize, b: usize| #[trigger] live(mem, a) && #[trigger] live(mem, b) && a != b ==> apart(mem, a, b)
    &&& forall|x: int| base <= x < brk ==> #[trigger] live_covered(mem, x) || leaked.contains(x)
    &&& forall|x: int| #[trigger] leaked.contains(x) ==> base <= x < brk && !live_covered(mem, x)
}

/// Members of a well-formed free list have intact headers.
proof fn lemma_list_member_live(s: Seq<BlockPtr>, mem: &Memory, a: usize)
    requires
        list_wf(s, mem),
        in_list(s, a),
    ensures
        live(mem, a),
        valid_at(mem, a),
        covers(s, mem, a as int),
        covers(s, mem, block_end(mem, a) - 1),
{
    let i = choose|i: int| 0 <= i < s.len() && #[trigger] s[i].addr == a;
    assert(s[i].valid(mem));
    assert(s[i] == BlockPtr { addr: a });
}

/// Two members of a well-formed free list are apart.
proof fn lemma_list_members_apart(s: Seq<BlockPtr>, mem: &Memory, a: usize, b: usize)
    requires
        list_wf(s, mem),
        in_list(s, a),
        in_list(s, b),
        a != b,
    ensures
        apart(mem, a, b),
{
    lemma_gaps_give_loose(s, mem);
    let i = choose|i: int| 0 <= i < s.len() && #[trigger] s[i].addr == a;
    let j = choose|j: int| 0 <= j < s.len() && #[trigger] s[j].addr == b;
    assert(s[i] == BlockPtr { addr: a });
    assert(s[j] == BlockPtr { addr: b });
    if i < j {
        assert(s[i].end(mem) < s[j].addr as int);
    } else {
        assert(s[j].end(mem) < s[i].addr as int);
    }
}

/// A byte that some free block holds lies in a block with an intact header.
proof fn lemma_covered_is_live_covered(s: Seq<BlockPtr>, mem: &Memory, x: int)
    requires
        list_wf(s, mem),
        covers(s, mem, x),
    ensures
        live_covered(mem, x),
{
    let i = choose|i: int| 0 <= i < s.len() && #[trigger] s[i].addr <= x && x < s[i].end(mem);
    assert(s[i].valid(mem));
    assert(live(mem, s[i].addr));
}

/// Inserting the handed-out block `x` into the free list keeps the heap invariant.
#[verifier::rlimit(60)]
proof fn lemma_insert_keeps(
    s: Seq<BlockPtr>,
    t: Seq<BlockPtr>,
    m0: &Memory,
    m1: &Memory,
    x: BlockPtr,
    base: int,
    brk: int,
    leaked: Set<int>,
)
    requires
        heap_wf(s, m0, base, brk, leaked),
        live(m0, x.addr),
        !in_list(s, x.addr),
        list_wf(t, m1),
        forall|y: int| covers(t, m1, y) <==> (covers(s, m0, y) || (x.addr <= y && y < x.end(m0))),
        forall|a: usize| #[trigger] m1.header(a) != m0.header(a) ==> a == x.addr || in_list(s, a),
        forall|a: usize| #[trigger] in_list(t, a) ==> a == x.addr || in_list(s, a),
        forall|a: usize| #[trigger] in_list(s, a) ==> in_list(t, a) || !live(m1, a),
        in_list(t, x.addr) || !live(m1, x.addr),
        forall|a: usize| #[trigger] m1.header(a) != m0.header(a) && live(m1, a) ==> in_list(t, a),
    ensures
        heap_wf(t, m1, base, brk, leaked),
{
    // A block outside the new list with an intact header was untouched and
    // was handed out before.
    assert forall|b: usize| live(m1, b) && !in_list(t, b) implies m1.header(b) == m0.header(b)
        && !in_list(s, b) && b != x.addr by {
        if m1.header(b) != m0.header(b) {
            assert(in_list(t, b));
        }
        if in_list(s, b) {
            assert(in_list(t, b) || !live(m1, b));
        }
    }
    // Bytes of the new list were free before or belonged to `x`.
    assert forall|y: int| covers(t, m1, y) implies live_covered(m0, y) by {
        if covers(s, m0, y) {
            lemma_covered_is_live_covered(s, m0, y);
        } else {
            assert(live(m0, x.addr));
        }
    }
    assert forall|a: usize| #[trigger] live(m1, a) implies valid_at(m1, a) && base <= a
        && block_end(m1, a) <= brk by {
        if in_list(t, a) {
            lemma_list_member_live(t, m1, a);
            let e = block_end(m1, a) - 1;
            if covers(s, m0, a as int) {
                lemma_covered_is_live_covered(s, m0, a as int);
            }
            assert(live_covered(m0, a as int));
            assert(live_covered(m0, e));
            let c = choose|c: usize| #[trigger] live(m0, c) && c <= a && a < block_end(m0, c);
            let d = choose|d: usize| #[trigger] live(m0, d) && d <= e && e < block_end(m0, d);
        } else {
            assert(live(m0, a));
        }
    }
    assert forall|a: usize, b: usize| #[trigger] live(m1, a) && #[trigger] live(m1, b) && a != b
        implies apart(m1, a, b) by {
        if in_list(t, a) && in_list(t, b) {
            lemma_list_members_apart(t, m1, a, b);
        } else if !in_list(t, a) && !in_list(t, b) {
            assert(live(m0, a) && live(m0, b));
        } else {
            let (p, q) = if in_list(t, a) { (a, b) } else { (b, a) };
            // `p` is in the new list, `q` was handed out and is untouched.
            assert(live(m0, q));
            if !apart(m1, p, q) {
                let y = if p <= q { q as int } else { p as int };
                lemma_list_member_live(t, m1, p);
                let i = choose|i: int| 0 <= i < t.len() && #[trigger] t[i].addr == p;
                assert(t[i] == BlockPtr { addr: p });
                assert(t[i].valid(m1));
                assert(covers(t, m1, y));
                if covers(s, m0, y) {
                    let j = choose|j: int| 0 <= j < s.len() && #[trigger] s[j].addr <= y && y < s[j].end(m0);
                    assert(s[j].valid(m0));
                    let c = s[j].addr;
                    assert(in_list(s, c));
                    assert(live(m0, c));
                    assert(apart(m0, c, q));
                } else {
                    assert(apart(m0, x.addr, q));
                }
            }
        }
    }
    assert forall|y: int| base <= y < brk implies #[trigger] live_covered(m1, y) || leaked.contains(y) by {
        if !leaked.contains(y) {
            assert(live_covered(m0, y));
            let a = choose|a: usize| #[trigger] live(m0, a) && a <= y && y < block_end(m0, a);
            if a == x.addr || in_list(s, a) {
                if a != x.addr {
                    let j = choose|j: int| 0 <= j < s.len() && #[trigger] s[j].addr == a;
                    assert(s[j] == BlockPtr { addr: a });
                }
                assert(covers(t, m1, y));
                lemma_covered_is_live_covered(t, m1, y);
            } else {
                assert(m1.header(a) == m0.header(a));
                assert(live(m1, a));
            }
        }
    }
    assert forall|y: int| #[trigger] leaked.contains(y) implies base <= y < brk && !live_covered(m1, y) by {
        assert(!live_covered(m0, y));
        if live_covered(m1, y) {
            let a = choose|a: usize| #[trigger] live(m1, a) && a <= y && y < block_end(m1, a);
            if in_list(t, a) {
                let i = choose|i: int| 0 <= i < t.len() && #[trigger] t[i].addr == a;
                assert(t[i] == BlockPtr { addr: a });
                assert(covers(t, m1, y));
            } else {
                assert(live(m0, a));
            }
        }
    }
}

} // verus!

verus! {

/// Growing the segment by a fresh block at the old break keeps the invariant,
/// and the new block is handed out.
proof fn lemma_grow_keeps(
    s: Seq<BlockPtr>,
    m0: &Memory,
    m1: &Memory,
    base: int,
    brk: usize,
    brk2: int,
    leaked: Set<int>,
)
    requires
        heap_wf(s, m0, base, brk as int, leaked),
        base <= brk,
        m1@ == m0@.insert(brk, Block { size: (brk2 - brk - BLOCK_META_SIZE) as usize, magic: BLOCK_MAGIC_FREE }),
        valid_at(m1, brk),
        block_end(m1, brk) == brk2,
    ensures
        heap_wf(s, m1, base, brk2, leaked),
        !in_list(s, brk),
        forall|a: usize| a != brk ==> #[trigger] m1.header(a) == m0.header(a),
{
    assert forall|a: usize| a != brk implies #[trigger] m1.header(a) == m0.header(a) by {}
    assert forall|a: usize| #[trigger] live(m0, a) implies a < brk by {
        assert(valid_at(m0, a));
    }
    if in_list(s, brk) {
        lemma_list_member_live(s, m0, brk);
    }
    assert forall|i: int| 0 <= i < s.len() implies #[trigger] s[i].valid(m1) && s[i].end(m1) == s[i].end(m0) by {
        assert(s[i].valid(m0));
        assert(live(m0, s[i].addr));
    }
    assert(list_wf(s, m1)) by {
        assert forall|i: int, j: int| 0 <= i < j < s.len() implies #[trigger] s[i].end(m1) <= #[trigger] s[j].addr as int by {
            assert(s[i].end(m0) <= s[j].addr as int);
        }
        assert forall|i: int| 0 <= i < s.len() - 1 implies #[trigger] gap_after(s, m1, i) by {
            assert(gap_after(s, m0, i));
        }
    }
    assert forall|a: usize| #[trigger] live(m1, a) implies valid_at(m1, a) && base <= a && block_end(m1, a) <= brk2 by {
        if a != brk {
            assert(live(m0, a));
        }
    }
    assert forall|a: usize, b: usize| #[trigger] live(m1, a) && #[trigger] live(m1, b) && a != b implies apart(m1, a, b) by {
        if a != brk && b != brk {
            assert(live(m0, a) && live(m0, b));
        } else if a == brk {
            assert(live(m0, b));
        } else {
            assert(live(m0, a));
        }
    }
    assert forall|y: int| base <= y < brk2 implies #[trigger] live_covered(m1, y) || leaked.contains(y) by {
        if y >= brk {
            assert(live(m1, brk));
        } else if !leaked.contains(y) {
            assert(live_covered(m0, y));
            let a = choose|a: usize| #[trigger] live(m0, a) && a <= y && y < block_end(m0, a);
            assert(live(m1, a));
        }
    }
    assert forall|y: int| #[trigger] leaked.contains(y) implies base <= y < brk2 && !live_covered(m1, y) by {
        assert(!live_covered(m0, y));
        if live_covered(m1, y) {
            let a = choose|a: usize| #[trigger] live(m1, a) && a <= y && y < block_end(m1, a);
            if a != brk {
                assert(live(m0, a));
            }
        }
    }
}

/// Splitting the handed-out block at `b` into a head of `n` bytes and a tail
/// at `tail` keeps the invariant; both parts are handed out.
#[verifier::rlimit(60)]
proof fn lemma_split_keeps(
    s: Seq<BlockPtr>,
    m0: &Memory,
    m1: &Memory,
    b: usize,
    tail: usize,
    base: int,
    brk: int,
    leaked: Set<int>,
)
    requires
        heap_wf(s, m0, base, brk, leaked),
        live(m0, b),
        !in_list(s, b),
        tail == b + BLOCK_META_SIZE + m1.header(b).size,
        m1@ == m0@.insert(b, m1.header(b)).insert(tail, m1.header(tail)),
        valid_at(m1, b),
        valid_at(m1, tail),
        block_end(m1, tail) == block_end(m0, b),
    ensures
        heap_wf(s, m1, base, brk, leaked),
        !in_list(s, tail),
        forall|a: usize| a != b && a != tail ==> #[trigger] m1.header(a) == m0.header(a),
{
    assert(valid_at(m0, b));
    assert forall|a: usize| a != b && a != tail implies #[trigger] m1.header(a) == m0.header(a) by {}
    // No intact header stood strictly inside the old block.
    assert forall|a: usize| #[trigger] live(m0, a) && a != b implies block_end(m0, a) <= b || block_end(m0, b) <= a by {
        assert(apart(m0, a, b));
    }
    assert forall|i: int| 0 <= i < s.len() implies #[trigger] s[i].valid(m1) && s[i].end(m1) == s[i].end(m0)
        && s[i].addr != b && s[i].addr != tail by {
        assert(s[i].valid(m0));
        assert(live(m0, s[i].addr));
        assert(in_list(s, s[i].addr));
    }
    if in_list(s, tail) {
        let i = choose|i: int| 0 <= i < s.len() && #[trigger] s[i].addr == tail;
        assert(s[i].addr != tail);
    }
    assert(list_wf(s, m1)) by {
        assert forall|i: int, j: int| 0 <= i < j < s.len() implies #[trigger] s[i].end(m1) <= #[trigger] s[j].addr as int by {
            assert(s[i].end(m0) <= s[j].addr as int);
        }
        assert forall|i: int| 0 <= i < s.len() - 1 implies #[trigger] gap_after(s, m1, i) by {
            assert(gap_after(s, m0, i));
        }
    }
    assert forall|a: usize| #[trigger] live(m1, a) implies valid_at(m1, a) && base <= a && block_end(m1, a) <= brk by {
        if a != b && a != tail {
            assert(live(m0, a));
        }
    }
    assert forall|a: usize, c: usize| #[trigger] live(m1, a) && #[trigger] live(m1, c) && a != c implies apart(m1, a, c) by {
        if a != b && a != tail {
            assert(live(m0, a));
        }
        if c != b && c != tail {
            assert(live(m0, c));
        }
    }
    assert forall|y: int| base <= y < brk implies #[trigger] live_covered(m1, y) || leaked.contains(y) by {
        if !leaked.contains(y) {
            assert(live_covered(m0, y));
            let a = choose|a: usize| #[trigger] live(m0, a) && a <= y && y < block_end(m0, a);
            if a == b {
                if y < tail {
                    assert(live(m1, b));
                } else {
                    assert(live(m1, tail));
                }
            } else {
                assert(live(m1, a));
            }
        }
    }
    assert forall|y: int| #[trigger] leaked.contains(y) implies base <= y < brk && !live_covered(m1, y) by {
        assert(!live_covered(m0, y));
        if live_covered(m1, y) {
            let a = choose|a: usize| #[trigger] live(m1, a) && a <= y && y < block_end(m1, a);
            if a != b && a != tail {
                assert(live(m0, a));
            } else {
                assert(live(m0, b));
            }
        }
    }
}

/// Removing the free block at `k` from the list keeps the invariant; the
/// block is then handed out.
proof fn lemma_unlist_keeps(s: Seq<BlockPtr>, t: Seq<BlockPtr>, m: &Memory, k: int, base: int, brk: int, leaked: Set<int>)
    requires
        heap_wf(s, m, base, brk, leaked),
        0 <= k < s.len(),
        t == s.remove(k),
        list_wf(t, m),
    ensures
        heap_wf(t, m, base, brk, leaked),
        !in_list(t, s[k].addr),
        live(m, s[k].addr),
        forall|a: usize| #[trigger] in_list(t, a) ==> in_list(s, a),
        forall|x: int| covers(t, m, x) <==> (covers(s, m, x) && !(s[k].addr <= x && x < s[k].end(m))),
{
    lemma_gaps_give_loose(s, m);
    assert(s[k].valid(m));
    if in_list(t, s[k].addr) {
        let i = choose|i: int| 0 <= i < t.len() && #[trigger] t[i].addr == s[k].addr;
        if i < k {
            assert(s[i].addr < s[k].addr);
        } else {
            assert(t[i] == s[i + 1]);
            assert(s[k].addr < s[i + 1].addr);
        }
    }
    assert forall|a: usize| #[trigger] in_list(t, a) implies in_list(s, a) by {
        let i = choose|i: int| 0 <= i < t.len() && #[trigger] t[i].addr == a;
        if i < k {
            assert(s[i].addr == a);
        } else {
            assert(s[i + 1].addr == a);
        }
    }
    assert forall|x: int| covers(t, m, x) <==> (covers(s, m, x) && !(s[k].addr <= x && x < s[k].end(m))) by {
        if covers(t, m, x) {
            let i = choose|i: int| 0 <= i < t.len() && #[trigger] t[i].addr <= x && x < t[i].end(m);
            if i < k {
                assert(s[i].addr <= x && x < s[i].end(m));
                assert(s[i].end(m) < s[k].addr as int);
            } else {
                assert(s[i + 1].addr <= x && x < s[i + 1].end(m));
                assert(s[k].end(m) < s[i + 1].addr as int);
            }
        }
        if covers(s, m, x) && !(s[k].addr <= x && x < s[k].end(m)) {
            let i = choose|i: int| 0 <= i < s.len() && #[trigger] s[i].addr <= x && x < s[i].end(m);
            if i < k {
                assert(t[i].addr <= x && x < t[i].end(m));
            } else {
                assert(t[i - 1].addr <= x && x < t[i - 1].end(m));
            }
        }
    }
}

/// Giving the topmost free block, the last of the list, back to the system
/// keeps the invariant over the shorter segment.
#[verifier::rlimit(60)]
proof fn lemma_release_keeps(
    s: Seq<BlockPtr>,
    t: Seq<BlockPtr>,
    m0: &Memory,
    m1: &Memory,
    base: int,
    brk: int,
    leaked: Set<int>,
)
    requires
        heap_wf(s, m0, base, brk, leaked),
        s.len() > 0,
        t == s.remove(s.len() - 1),
        s.last().end(m0) == brk,
        m1@ == m0@.remove(s.last().addr),
    ensures
        heap_wf(t, m1, base, s.last().addr as int, leaked),
        forall|a: usize| a != s.last().addr ==> #[trigger] m1.header(a) == m0.header(a),
        forall|a: usize| #[trigger] in_list(t, a) ==> in_list(s, a),
        forall|x: int| covers(t, m1, x) <==> (covers(s, m0, x) && x < s.last().addr),
{
    let top = s.last().addr;
    let k = s.len() - 1;
    lemma_gaps_give_loose(s, m0);
    assert(s[k].valid(m0));
    assert(live(m0, top));
    assert forall|a: usize| a != top implies #[trigger] m1.header(a) == m0.header(a) by {}
    assert forall|a: usize| #[trigger] live(m0, a) && a != top implies block_end(m0, a) <= top by {
        assert(apart(m0, a, top));
        assert(valid_at(m0, a));
    }
    assert forall|i: int| 0 <= i < t.len() implies #[trigger] t[i].valid(m1) && t[i].end(m1) == t[i].end(m0) && t[i] == s[i] by {
        assert(s[i].valid(m0));
        assert(s[i].addr < top);
    }
    assert(list_wf(t, m1)) by {
        assert forall|i: int, j: int| 0 <= i < j < t.len() implies #[trigger] t[i].end(m1) <= #[trigger] t[j].addr as int by {
            assert(s[i].end(m0) <= s[j].addr as int);
        }
        assert forall|i: int| 0 <= i < t.len() - 1 implies #[trigger] gap_after(t, m1, i) by {
            assert(gap_after(s, m0, i));
        }
    }
    assert forall|a: usize| #[trigger] in_list(t, a) implies in_list(s, a) by {
        let i = choose|i: int| 0 <= i < t.len() && #[trigger] t[i].addr == a;
        assert(s[i].addr == a);
    }
    assert forall|a: usize| #[trigger] live(m1, a) implies valid_at(m1, a) && base <= a && block_end(m1, a) <= top by {
        assert(live(m0, a));
    }
    assert forall|a: usize, b: usize| #[trigger] live(m1, a) && #[trigger] live(m1, b) && a != b implies apart(m1, a, b) by {
        assert(live(m0, a) && live(m0, b));
    }
    assert forall|y: int| base <= y < top implies #[trigger] live_covered(m1, y) || leaked.contains(y) by {
        if !leaked.contains(y) {
            assert(live_covered(m0, y));
            let a = choose|a: usize| #[trigger] live(m0, a) && a <= y && y < block_end(m0, a);
            if a == top {
                assert(false);
            }
            assert(live(m1, a));
        }
    }
    assert forall|y: int| #[trigger] leaked.contains(y) implies base <= y < top && !live_covered(m1, y) by {
        assert(!live_covered(m0, y));
        if y >= top {
            assert(live(m0, top));
            assert(live_covered(m0, y));
        }
        if live_covered(m1, y) {
            let a = choose|a: usize| #[trigger] live(m1, a) && a <= y && y < block_end(m1, a);
            assert(live(m0, a));
        }
    }
    assert forall|x: int| covers(t, m1, x) <==> (covers(s, m0, x) && x < top) by {
        if covers(t, m1, x) {
            let i = choose|i: int| 0 <= i < t.len() && #[trigger] t[i].addr <= x && x < t[i].end(m1);
            assert(s[i].addr <= x && x < s[i].end(m0));
            assert(s[i].end(m0) < s[k].addr as int);
        }
        if covers(s, m0, x) && x < top {
            let i = choose|i: int| 0 <= i < s.len() && #[trigger] s[i].addr <= x && x < s[i].end(m0);
            assert(i != k);
            assert(t[i].addr <= x && x < t[i].end(m1));
        }
    }
}

/// Wiping the header of the handed-out block at `b` keeps the invariant once
/// its bytes count as leaked.
proof fn lemma_leak_keeps(
    s: Seq<BlockPtr>,
    m0: &Memory,
    m1: &Memory,
    b: usize,
    base: int,
    brk: int,
    leaked: Set<int>,
    leaked2: Set<int>,
)
    requires
        heap_wf(s, m0, base, brk, leaked),
        live(m0, b),
        !in_list(s, b),
        m1@ == m0@.remove(b),
        leaked2 == leaked.union(Set::new(|x: int| b <= x && x < block_end(m0, b))),
    ensures
        heap_wf(s, m1, base, brk, leaked2),
        forall|a: usize| a != b ==> #[trigger] m1.header(a) == m0.header(a),
{
    assert(valid_at(m0, b));
    assert forall|a: usize| a != b implies #[trigger] m1.header(a) == m0.header(a) by {}
    assert forall|i: int| 0 <= i < s.len() implies #[trigger] s[i].valid(m1) && s[i].end(m1) == s[i].end(m0) by {
        assert(s[i].valid(m0));
        if s[i].addr == b {
            assert(in_list(s, b));
        }
    }
    assert(list_wf(s, m1)) by {
        assert forall|i: int, j: int| 0 <= i < j < s.len() implies #[trigger] s[i].end(m1) <= #[trigger] s[j].addr as int by {
            assert(s[i].end(m0) <= s[j].addr as int);
        }
        assert forall|i: int| 0 <= i < s.len() - 1 implies #[trigger] gap_after(s, m1, i) by {
            assert(gap_after(s, m0, i));
        }
    }
    assert forall|a: usize| #[trigger] live(m1, a) implies valid_at(m1, a) && base <= a && block_end(m1, a) <= brk by {
        assert(live(m0, a));
    }
    assert forall|a: usize, c: usize| #[trigger] live(m1, a) && #[trigger] live(m1, c) && a != c implies apart(m1, a, c) by {
        assert(live(m0, a) && live(m0, c));
    }
    assert forall|y: int| base <= y < brk implies #[trigger] live_covered(m1, y) || leaked2.contains(y) by {
        if !leaked.contains(y) {
            assert(live_covered(m0, y));
            let a = choose|a: usize| #[trigger] live(m0, a) && a <= y && y < block_end(m0, a);
            if a != b {
                assert(live(m1, a));
            }
        }
    }
    assert forall|y: int| #[trigger] leaked2.contains(y) implies base <= y < brk && !live_covered(m1, y) by {
        if live_covered(m1, y) {
            let a = choose|a: usize| #[trigger] live(m1, a) && a <= y && y < block_end(m1, a);
            assert(live(m0, a));
            if !leaked.contains(y) {
                assert(apart(m0, a, b));
            }
        }
        if !leaked.contains(y) {
            assert(live(m0, b));
        }
    }
}

} // verus!

verus! {

/// One heap: the free list, the data segment it is carved from, and the
/// block headers in that segment.
pub struct Arena {
    list: IntrusiveList,
    source: DataSegment,
    mem: Memory,
    leaked: Ghost<Set<int>>,
}

impl Arena {
    /// The heap invariant.
    pub closed spec fn wf(&self) -> bool {
        &&& self.source.wf()
        &&& heap_wf(self.list@, &self.mem, self.source.spec_base() as int, self.source.spec_brk() as int, self.leaked@)
    }

    /// The header at `a`.
    pub closed spec fn header(&self, a: usize) -> Block {
        self.mem.header(a)
    }

    /// The block at `a` has an intact header and is not free: it is handed out.
    pub closed spec fn handed_out(&self, a: usize) -> bool {
        live(&self.mem, a) && !in_list(self.list@, a)
    }

    /// The first address past the block whose header stands at `a`.
    pub closed spec fn end(&self, a: usize) -> int {
        block_end(&self.mem, a)
    }

    /// The block at `a` is in the free list.
    pub closed spec fn is_free_block(&self, a: usize) -> bool {
        in_list(self.list@, a)
    }

    /// Byte `x` lies in a free block.
    pub closed spec fn is_free(&self, x: int) -> bool {
        covers(self.list@, &self.mem, x)
    }

    /// The free blocks, lowest address first.
    pub closed spec fn free_blocks(&self) -> Seq<BlockPtr> {
        self.list@
    }

    pub closed spec fn spec_brk(&self) -> int {
        self.source.spec_brk() as int
    }

    pub closed spec fn spec_base(&self) -> int {
        self.source.spec_base() as int
    }

    pub closed spec fn spec_limit(&self) -> int {
        self.source.spec_limit() as int
    }

    pub closed spec fn spec_page_size(&self) -> int {
        self.source.spec_page_size() as int
    }

    /// From the block at `b` up to the break every byte is free or in that block.
    pub open spec fn reaches_top(&self, b: usize) -> bool {
        forall|x: int| b <= x < self.spec_brk() ==> #[trigger] self.is_free(x) || (b <= x && x < self.end(b))
    }

    /// Some free block serves a request for `size` bytes.
    pub closed spec fn has_fit(&self, size: int) -> bool {
        exists|i: int| 0 <= i < self.list@.len() && fits(self.mem.header(#[trigger] self.list@[i].addr).size as int, size)
    }

    /// The segment can grow by a block with a payload of `size` bytes.
    pub closed spec fn can_grow(&self, size: int) -> bool {
        exists|sz: int| #[trigger] is_round_up(sz, BLOCK_META_SIZE + size, self.spec_page_size())
            && sz <= self.spec_limit() - self.spec_brk()
            && BLOCK_META_SIZE + size + self.spec_page_size() - 1 <= isize::MAX
    }

    /// An empty heap over a segment that starts at `base` and may grow up to
    /// `limit`, a page of `page_size` bytes at a time.
    pub fn new(base: usize, limit: usize, page_size: usize) -> (r: Arena)
        requires
            0 < base <= limit,
            base % 16 == 0,
            is_pow2(page_size as nat),
            page_size >= 16,
        ensures
            r.wf(),
            r.free_blocks() == Seq::<BlockPtr>::empty(),
            r.spec_base() == base,
            r.spec_brk() == base,
            r.spec_limit() == limit,
            r.spec_page_size() == page_size,
            forall|a: usize| !#[trigger] r.handed_out(a),
    {
        let r = Arena {
            list: IntrusiveList::new(),
            source: DataSegment::new(base, limit, page_size),
            mem: Memory::new(),
            leaked: Ghost(Set::empty()),
        };
        proof {
            assert forall|a: usize| !#[trigger] live(&r.mem, a) by {
                assert(r.mem.header(a) == zero_block());
            }
            assert forall|x: int| base <= x < base implies #[trigger] live_covered(&r.mem, x) || r.leaked@.contains(x) by {}
        }
        r
    }

    /// The current program break.
    pub fn brk(&self) -> (r: usize)
        ensures
            r == self.spec_brk(),
    {
        self.source.brk()
    }

    /// The free blocks as (header address, payload size) pairs, lowest first.
    pub fn free_list(&self) -> (r: Vec<(usize, usize)>)
        requires
            self.wf(),
        ensures
            r@.len() == self.free_blocks().len(),
            forall|i: int| 0 <= i < r@.len() ==> (#[trigger] r@[i]).0 == self.free_blocks()[i].addr
                && r@[i].1 == self.header(self.free_blocks()[i].addr).size,
    {
        let blocks = self.list.blocks();
        let mut out: Vec<(usize, usize)> = Vec::new();
        let mut i: usize = 0;
        while i < blocks.len()
            invariant
                blocks@ == self.list@,
                i <= blocks@.len(),
                out@.len() == i,
                forall|j: int| 0 <= j < i ==> (#[trigger] out@[j]).0 == blocks@[j].addr
                    && out@[j].1 == self.mem.header(blocks@[j].addr).size,
            decreases blocks@.len() - i,
        {
            let b = blocks[i];
            out.push((b.addr, b.size(&self.mem)));
            i = i + 1;
        }
        out
    }

    /// Reads the header at `a`.
    pub fn read(&self, a: usize) -> (r: Block)
        ensures
            r == self.header(a),
    {
        self.mem.read(a)
    }

    /// Tells whether a block starting at `a` is in the free list.
    pub fn contains_free(&self, a: usize) -> (r: bool)
        requires
            self.wf(),
        ensures
            r == self.is_free_block(a),
    {
        let blocks = self.list.blocks();
        let mut i: usize = 0;
        while i < blocks.len()
            invariant
                blocks@ == self.list@,
                i <= blocks@.len(),
                forall|j: int| 0 <= j < i ==> #[trigger] blocks@[j].addr != a,
            decreases blocks@.len() - i,
        {
            if blocks[i].addr == a {
                assert(blocks@[i as int].addr == a);
                return true;
            }
            i = i + 1;
        }
        false
    }

    /// A block whose payload can hold `size` bytes: the first fit of the free
    /// list, or else fresh memory from the segment. The block is handed out.
    #[verifier::rlimit(60)]
    pub fn request(&mut self, size: usize) -> (r: Option<BlockPtr>)
        requires
            old(self).wf(),
            size % 16 == 0,
            size > 0,
        ensures
            final(self).wf(),
            final(self).spec_base() == old(self).spec_base(),
            final(self).spec_limit() == old(self).spec_limit(),
            final(self).spec_page_size() == old(self).spec_page_size(),
            r.is_none() <==> !old(self).has_fit(size as int) && !old(self).can_grow(size as int),
            r.is_none() ==> *final(self) == *old(self),
            r matches Some(b) ==> final(self).handed_out(b.addr) && !old(self).handed_out(b.addr)
                && final(self).header(b.addr).size >= size,
            r matches Some(b) ==> old(self).has_fit(size as int) ==> final(self).spec_brk() == old(self).spec_brk()
                && fits(final(self).header(b.addr).size as int, size as int),
            r matches Some(b) ==> !old(self).has_fit(size as int) ==> b.addr == old(self).spec_brk()
                && final(self).spec_brk() > old(self).spec_brk() && final(self).end(b.addr) == final(self).spec_brk(),
            r matches Some(b) ==> old(self).has_fit(size as int) ==> (forall|x: int| b.addr <= x < final(self).end(b.addr)
                ==> #[trigger] old(self).is_free(x)),
            r matches Some(b) ==> b.addr % 16 == 0 && b.addr > 0 && final(self).end(b.addr) <= usize::MAX,
            r matches Some(b) ==> (forall|a: usize| a != b.addr ==> #[trigger] final(self).header(a) == old(self).header(a)
                && final(self).handed_out(a) == old(self).handed_out(a)),
            r matches Some(b) ==> (forall|x: int| #[trigger] final(self).is_free(x) <==> (old(self).is_free(x)
                && !(b.addr <= x && x < final(self).end(b.addr)))),
            r matches Some(b) ==> old(self).has_fit(size as int) ==> final(self).header(b.addr) == old(self).header(b.addr)
                && (exists|i: int| 0 <= i < old(self).free_blocks().len() && #[trigger] old(self).free_blocks()[i] == b
                && final(self).free_blocks() == old(self).free_blocks().remove(i)
                && (forall|j: int| 0 <= j < i ==> !fits(old(self).header(#[trigger] old(self).free_blocks()[j].addr).size as int, size as int))),
            r matches Some(b) ==> !old(self).has_fit(size as int) ==> is_round_up(final(self).spec_brk() - old(self).spec_brk(),
                BLOCK_META_SIZE + size, old(self).spec_page_size()) && final(self).free_blocks() == old(self).free_blocks(),
    {
        let ghost s = self.list@;
        let ghost m0 = self.mem;
        match self.list.pop(&self.mem, size) {
            Some(b) => {
                proof {
                    let i = choose|i: int| 0 <= i < s.len() && b == #[trigger] s[i]
                        && fits(m0.header(b.addr).size as int, size as int) && self.list@ == s.remove(i)
                        && (forall|j: int| 0 <= j < i ==> !fits(m0.header(#[trigger] s[j].addr).size as int, size as int));
                    lemma_unlist_keeps(s, self.list@, &self.mem, i, self.spec_base(), self.spec_brk(), self.leaked@);
                    assert(in_list(s, b.addr));
                    assert(old(self).has_fit(size as int));
                    assert forall|a: usize| a != b.addr implies #[trigger] self.handed_out(a) == old(self).handed_out(a) by {
                        if in_list(s, a) {
                            let j = choose|j: int| 0 <= j < s.len() && #[trigger] s[j].addr == a;
                            if j < i {
                                assert(self.list@[j].addr == a);
                            } else {
                                assert(j != i);
                                assert(self.list@[j - 1].addr == a);
                            }
                        }
                    }
                    assert(s[i].valid(&m0));
                    assert forall|x: int| b.addr <= x < self.end(b.addr) implies #[trigger] old(self).is_free(x) by {
                        assert(s[i].addr <= x && x < s[i].end(&m0));
                    }
                    assert(old(self).free_blocks()[i] == b);
                }
                return Some(b);
            },
            None => {},
        }
        proof {
            assert(!old(self).has_fit(size as int));
        }
        let ghost brk0 = self.source.spec_brk();
        match self.source.request(&mut self.mem, size) {
            Some(b) => {
                proof {
                    assert(self.mem.header(b.addr).size % 16 == 0) by {
                        lemma_pow2_multiple_of_16(self.source.spec_page_size() as nat, self.source.spec_brk() - brk0);
                    }
                    assert(valid_at(&self.mem, brk0));
                    lemma_grow_keeps(s, &m0, &self.mem, self.spec_base(), brk0, self.spec_brk(), self.leaked@);
                    assert(live(&self.mem, b.addr));
                    assert forall|x: int| #[trigger] self.is_free(x) <==> (old(self).is_free(x)
                        && !(b.addr <= x && x < block_end(&self.mem, b.addr))) by {
                        lemma_covers_same_headers(s, &m0, &self.mem, x);
                        if old(self).is_free(x) {
                            let i = choose|i: int| 0 <= i < s.len() && #[trigger] s[i].addr <= x && x < s[i].end(&m0);
                            assert(s[i].valid(&m0));
                            assert(live(&m0, s[i].addr));
                        }
                    }
                    let sz = self.source.spec_brk() - brk0;
                    assert(is_round_up(sz, BLOCK_META_SIZE + size, self.spec_page_size()));
                    assert(sz <= old(self).spec_limit() - old(self).spec_brk());
                    assert(BLOCK_META_SIZE + size + old(self).spec_page_size() - 1 <= isize::MAX);
                    assert(old(self).can_grow(size as int));
                    assert(!live(&m0, b.addr)) by {
                        if live(&m0, b.addr) {
                            assert(valid_at(&m0, b.addr));
                        }
                    }
                    assert(self.list@ == s);
                    assert(self.source.wf());
                    assert(heap_wf(self.list@, &self.mem, self.source.spec_base() as int, self.source.spec_brk() as int, self.leaked@));
                }
                Some(b)
            },
            None => {
                proof {
                    assert(!old(self).can_grow(size as int));
                    assert(self.wf());
                }
                None
            },
        }
    }
}

impl Arena {
    /// Shrinks the handed-out block `b` to a payload of `size` bytes where
    /// the rest can form a viable free block, and puts that rest in the free
    /// list.
    #[verifier::rlimit(60)]
    pub fn split_insert(&mut self, b: BlockPtr, size: usize)
        requires
            old(self).wf(),
            old(self).handed_out(b.addr),
            size % 16 == 0,
            size > 0,
        ensures
            final(self).wf(),
            final(self).spec_base() == old(self).spec_base(),
            final(self).spec_brk() == old(self).spec_brk(),
            final(self).spec_limit() == old(self).spec_limit(),
            final(self).spec_page_size() == old(self).spec_page_size(),
            final(self).handed_out(b.addr),
            size + BLOCK_META_SIZE + BLOCK_SPLIT_MIN_SIZE <= old(self).header(b.addr).size ==> final(self).header(b.addr)
                == (Block { size, magic: BLOCK_MAGIC_FREE }),
            size + BLOCK_META_SIZE + BLOCK_SPLIT_MIN_SIZE > old(self).header(b.addr).size ==> final(self).header(b.addr)
                == old(self).header(b.addr),
            forall|x: int| #[trigger] final(self).is_free(x) <==> (old(self).is_free(x) || (final(self).end(b.addr) <= x
                && x < old(self).end(b.addr))),
            forall|a: usize| a != b.addr ==> #[trigger] final(self).handed_out(a) == old(self).handed_out(a),
            forall|a: usize| a != b.addr && old(self).handed_out(a) ==> #[trigger] final(self).header(a) == old(self).header(a),
    {
        let ghost s = self.list@;
        let ghost m0 = self.mem;
        proof {
            assert(valid_at(&self.mem, b.addr));
        }
        match b.shrink(&mut self.mem, size) {
            None => {},
            Some(t) => {
                let ghost m1 = self.mem;
                proof {
                    lemma_split_keeps(s, &m0, &m1, b.addr, t.addr, self.spec_base(), self.spec_brk(), self.leaked@);
                    assert(live(&m1, t.addr));
                    assert forall|i: int| 0 <= i < s.len() implies (#[trigger] s[i]).addr == t.addr || s[i].end(&m1)
                        <= t.addr as int || t.end(&m1) <= s[i].addr as int by {
                        assert(s[i].valid(&m1));
                        assert(live(&m1, s[i].addr));
                        assert(in_list(s, s[i].addr));
                        assert(apart(&m1, s[i].addr, t.addr));
                    }
                    assert(valid_at(&m1, t.addr));
                }
                let r = self.list.insert(&mut self.mem, t);
                proof {
                    lemma_insert_keeps(s, self.list@, &m1, &self.mem, t, self.spec_base(), self.spec_brk(), self.leaked@);
                    assert forall|x: int| #[trigger] self.is_free(x) <==> (old(self).is_free(x) || (self.end(b.addr) <= x
                        && x < old(self).end(b.addr))) by {
                        lemma_covers_same_headers(s, &m0, &m1, x);
                    }
                    assert forall|a: usize| a != b.addr implies #[trigger] self.handed_out(a) == old(self).handed_out(a) by {
                        if a != t.addr {
                            if live(&self.mem, a) && !in_list(self.list@, a) {
                                assert(live(&m1, a));
                            }
                            if in_list(s, a) {
                                assert(in_list(self.list@, a) || !live(&self.mem, a));
                            }
                            if live(&m0, a) && !in_list(s, a) && !in_list(self.list@, a) {
                                assert(m1.header(a) == m0.header(a));
                            }
                        } else {
                            assert(!live(&m0, t.addr)) by {
                                assert(apart(&m0, b.addr, t.addr) || !live(&m0, t.addr));
                            }
                        }
                    }
                    assert(!in_list(self.list@, b.addr));
                    assert(self.mem.header(b.addr) == m1.header(b.addr));
                }
            },
        }
    }

    /// Returns the block `b`, whose header is intact, to the free list,
    /// merged with free neighbours; where the merged block is topmost, it
    /// goes back to the system. Fails, changing nothing, where `b` is free
    /// already.
    #[verifier::rlimit(60)]
    pub fn release(&mut self, b: BlockPtr) -> (r: Result<(), ()>)
        requires
            old(self).wf(),
            old(self).header(b.addr).magic == BLOCK_MAGIC_FREE,
        ensures
            final(self).wf(),
            final(self).spec_base() == old(self).spec_base(),
            final(self).spec_limit() == old(self).spec_limit(),
            final(self).spec_page_size() == old(self).spec_page_size(),
            r.is_err() <==> old(self).is_free_block(b.addr),
            r.is_err() ==> *final(self) == *old(self),
            r.is_ok() ==> final(self).spec_brk() <= old(self).spec_brk(),
            r.is_ok() ==> !final(self).handed_out(b.addr),
            r.is_ok() ==> (forall|x: int| #[trigger] final(self).is_free(x) <==> ((old(self).is_free(x) || (b.addr <= x
                && x < old(self).end(b.addr))) && x < final(self).spec_brk())),
            r.is_ok() && old(self).reaches_top(b.addr) ==> final(self).spec_brk() <= b.addr
                && !old(self).is_free(final(self).spec_brk() - 1)
                && (forall|x: int| final(self).spec_brk() <= x < old(self).spec_brk() ==> #[trigger] old(self).is_free(x)
                || (b.addr <= x && x < old(self).end(b.addr))),
            r.is_ok() && !old(self).reaches_top(b.addr) ==> final(self).spec_brk() == old(self).spec_brk(),
            forall|a: usize| a != b.addr ==> #[trigger] final(self).handed_out(a) == old(self).handed_out(a),
            forall|a: usize| a != b.addr && old(self).handed_out(a) ==> #[trigger] final(self).header(a) == old(self).header(a),
    {
        let ghost s = self.list@;
        let ghost m0 = self.mem;
        let ghost leaked = self.leaked@;
        let ghost base = self.spec_base();
        let ghost brk0 = self.spec_brk();
        proof {
            assert(live(&m0, b.addr));
            assert(valid_at(&m0, b.addr));
            assert forall|i: int| 0 <= i < s.len() implies (#[trigger] s[i]).addr == b.addr || s[i].end(&m0)
                <= b.addr as int || b.end(&m0) <= s[i].addr as int by {
                assert(s[i].valid(&m0));
                assert(live(&m0, s[i].addr));
                if s[i].addr != b.addr {
                    assert(apart(&m0, s[i].addr, b.addr));
                }
            }
        }
        match self.list.insert(&mut self.mem, b) {
            Err(()) => {
                return Err(());
            },
            Ok(()) => {},
        }
        let ghost t = self.list@;
        let ghost m1 = self.mem;
        proof {
            lemma_insert_keeps(s, t, &m0, &m1, b, base, brk0 as int, leaked);
            lemma_gaps_give_loose(t, &m1);
            assert forall|a: usize| a != b.addr implies #[trigger] self.handed_out(a) == old(self).handed_out(a) by {
                if live(&m1, a) && !in_list(t, a) {
                    assert(live(&m0, a));
                }
                if in_list(s, a) {
                    assert(in_list(t, a) || !live(&m1, a));
                }
                if live(&m0, a) && !in_list(s, a) && !in_list(t, a) {
                    assert(m1.header(a) == m0.header(a));
                }
            }
        }
        let n = self.list.len();
        proof {
            assert(in_list(t, b.addr) || !live(&m1, b.addr));
            assert(covers(t, &m1, b.addr as int));
            assert(n > 0);
            assert(t[n - 1].valid(&m1));
            assert(live(&m1, t[n - 1].addr));
            lemma_gap_before_last(t, &m1);
            assert(b.end(&m0) <= brk0);
        }
        let top_opt = self.list.tail();
        let is_top: bool = match top_opt {
            Some(top) => top.addr <= b.addr && top.next_potential_block(&self.mem) == self.source.brk(),
            None => false,
        };
        if is_top {
            match top_opt {
                Some(top) => {
                    let removed = self.list.remove(&self.mem, n - 1);
                    proof {
                        assert(in_list(t, top.addr));
                        assert(live(&m1, top.addr));
                    }
                    let released = self.source.release(&mut self.mem, top);
                    proof {
                        lemma_release_keeps(t, self.list@, &m1, &self.mem, base, brk0 as int, leaked);
                        assert forall|a: usize| a != b.addr implies #[trigger] self.handed_out(a) == old(self).handed_out(a) by {
                            if a == top.addr {
                                assert(in_list(t, top.addr));
                            } else {
                                if in_list(t, a) {
                                    let j = choose|j: int| 0 <= j < t.len() && #[trigger] t[j].addr == a;
                                    assert(j != n - 1);
                                    assert(self.list@[j].addr == a);
                                }
                            }
                        }
                        assert(in_list(self.list@, b.addr) || !live(&self.mem, b.addr)) by {
                            if b.addr != top.addr && in_list(t, b.addr) {
                                let j = choose|j: int| 0 <= j < t.len() && #[trigger] t[j].addr == b.addr;
                                assert(j != n - 1);
                                assert(self.list@[j].addr == b.addr);
                            }
                        }
                        assert forall|x: int| #[trigger] self.is_free(x) <==> ((old(self).is_free(x) || (b.addr <= x
                            && x < old(self).end(b.addr))) && x < self.spec_brk()) by {}
                        assert forall|x: int| self.spec_brk() <= x < old(self).spec_brk() implies #[trigger] old(self).is_free(x)
                            || (b.addr <= x && x < old(self).end(b.addr)) by {
                            assert(t[n - 1].addr <= x && x < t[n - 1].end(&m1));
                            assert(covers(t, &m1, x));
                        }
                        assert(!old(self).is_free(self.spec_brk() - 1)) by {
                            assert(!covers(t, &m1, top.addr - 1));
                        }
                    }
                    return Ok(());
                },
                None => {},
            }
        }
        proof {
            assert forall|x: int| #[trigger] self.is_free(x) <==> ((old(self).is_free(x) || (b.addr <= x
                && x < old(self).end(b.addr))) && x < self.spec_brk()) by {
                if self.is_free(x) {
                    let i = choose|i: int| 0 <= i < t.len() && #[trigger] t[i].addr <= x && x < t[i].end(&m1);
                    assert(t[i].valid(&m1));
                    assert(live(&m1, t[i].addr));
                }
            }
            assert(in_list(t, b.addr) || !live(&m1, b.addr));
            // The merged run stops short of the break.
            let top = t[n - 1];
            if top.end(&m1) != brk0 as int {
                lemma_free_below(t, &m1, brk0 - 1, brk0 as int);
                assert(!covers(t, &m1, brk0 - 1));
                assert(!old(self).reaches_top(b.addr) || !(b.addr <= brk0 - 1)) by {
                    if old(self).reaches_top(b.addr) && b.addr <= brk0 - 1 {
                        assert(old(self).is_free(brk0 - 1) || (b.addr <= brk0 - 1 && brk0 - 1 < old(self).end(b.addr)));
                    }
                }
            } else {
                assert(top.addr > b.addr);
                assert(!covers(t, &m1, top.addr - 1));
                if old(self).reaches_top(b.addr) {
                    assert(old(self).is_free(top.addr - 1) || (b.addr <= top.addr - 1 && top.addr - 1 < old(self).end(b.addr)));
                }
            }
        }
        Ok(())
    }
}

/// A free list has a gap right below its last block.
proof fn lemma_gap_before_last(t: Seq<BlockPtr>, m: &Memory)
    requires
        list_wf(t, m),
        t.len() > 0,
    ensures
        !covers(t, m, t.last().addr - 1),
{
    lemma_gaps_give_loose(t, m);
    let x = t.last().addr - 1;
    if covers(t, m, x) {
        let i = choose|i: int| 0 <= i < t.len() && #[trigger] t[i].addr <= x && x < t[i].end(m);
        if i < t.len() - 1 {
            assert(t[i].end(m) < t[t.len() - 1].addr as int);
        }
    }
}


/// Byte `x` is free in `s` only below `top`.
spec fn final_free_top(s: Seq<BlockPtr>, mem: &Memory, x: int, top: int) -> bool {
    covers(s, mem, x) ==> x < top
}

/// Where every block ends at most at `top`, so does every free byte, and
/// where the last block ends before `top`, the byte below `top` is not free.
proof fn lemma_free_below(s: Seq<BlockPtr>, mem: &Memory, x: int, top: int)
    requires
        list_wf(s, mem),
        s.len() > 0 ==> s.last().end(mem) <= top,
    ensures
        covers(s, mem, x) ==> x < top,
        s.len() > 0 && s.last().end(mem) < top ==> !covers(s, mem, top - 1),
        s.len() == 0 ==> !covers(s, mem, x),
{
    lemma_gaps_give_loose(s, mem);
    if covers(s, mem, x) {
        let i = choose|i: int| 0 <= i < s.len() && #[trigger] s[i].addr <= x && x < s[i].end(mem);
        if i < s.len() - 1 {
            assert(s[i].end(mem) < s[s.len() - 1].addr as int);
            assert(s[s.len() - 1].valid(mem));
        }
    }
    if s.len() > 0 && s.last().end(mem) < top && covers(s, mem, top - 1) {
        let i = choose|i: int| 0 <= i < s.len() && #[trigger] s[i].addr <= top - 1 && top - 1 < s[i].end(mem);
        if i < s.len() - 1 {
            assert(s[i].end(mem) < s[s.len() - 1].addr as int);
            assert(s[s.len() - 1].valid(mem));
        }
    }
}

/// A free list covers the same bytes over two header maps that agree on its members.
proof fn lemma_covers_same_headers(s: Seq<BlockPtr>, m0: &Memory, m1: &Memory, x: int)
    requires
        forall|i: int| 0 <= i < s.len() ==> m1.header(#[trigger] s[i].addr) == m0.header(s[i].addr),
    ensures
        covers(s, m1, x) == covers(s, m0, x),
{
    if covers(s, m0, x) {
        let i = choose|i: int| 0 <= i < s.len() && #[trigger] s[i].addr <= x && x < s[i].end(m0);
        assert(s[i].addr <= x && x < s[i].end(m1));
    }
    if covers(s, m1, x) {
        let i = choose|i: int| 0 <= i < s.len() && #[trigger] s[i].addr <= x && x < s[i].end(m1);
        assert(s[i].addr <= x && x < s[i].end(m0));
    }
}

} // verus!

verus! {

impl Arena {
    /// What the heap invariant gives a caller: free bytes and handed-out
    /// blocks lie in the segment, and an intact header belongs to a free or
    /// a handed-out block.
    pub proof fn lemma_wf_facts(&self)
        requires
            self.wf(),
        ensures
            forall|p: usize| #[trigger] self.end(p) == p + BLOCK_META_SIZE + self.header(p).size,
            forall|x: int| #[trigger] self.is_free(x) ==> self.spec_base() <= x < self.spec_brk(),
            forall|p: usize| #[trigger] self.handed_out(p) ==> p % 16 == 0 && p > 0 && self.header(p).size % 16 == 0
                && self.header(p).size > 0 && self.end(p) <= self.spec_brk() && self.spec_base() <= p
                && self.header(p).magic == BLOCK_MAGIC_FREE,
            forall|p: usize| self.header(p).magic == BLOCK_MAGIC_FREE ==> #[trigger] self.handed_out(p)
                || self.is_free_block(p),
            forall|p: usize| #[trigger] self.handed_out(p) ==> !self.is_free_block(p),
            forall|p: usize, x: int| #[trigger] self.handed_out(p) && p <= x < self.end(p) ==> !#[trigger] self.is_free(x),
            self.spec_base() <= self.spec_brk() <= self.spec_limit(),
    {
        assert forall|x: int| #[trigger] self.is_free(x) implies self.spec_base() <= x < self.spec_brk() by {
            let i = choose|i: int| 0 <= i < self.list@.len() && #[trigger] self.list@[i].addr <= x && x < self.list@[i].end(&self.mem);
            assert(self.list@[i].valid(&self.mem));
            assert(live(&self.mem, self.list@[i].addr));
        }
        assert forall|p: usize| #[trigger] self.handed_out(p) implies p % 16 == 0 && p > 0 && self.header(p).size % 16 == 0
            && self.header(p).size > 0 && self.end(p) <= self.spec_brk() && self.spec_base() <= p
            && self.header(p).magic == BLOCK_MAGIC_FREE by {
            assert(live(&self.mem, p));
        }
        assert forall|p: usize, x: int| #[trigger] self.handed_out(p) && p <= x < self.end(p) implies !#[trigger] self.is_free(x) by {
            if self.is_free(x) {
                let i = choose|i: int| 0 <= i < self.list@.len() && #[trigger] self.list@[i].addr <= x && x < self.list@[i].end(&self.mem);
                let q = self.list@[i].addr;
                assert(self.list@[i].valid(&self.mem));
                assert(live(&self.mem, q));
                assert(live(&self.mem, p));
                assert(in_list(self.list@, q));
                assert(apart(&self.mem, p, q));
            }
        }
    }

    /// What the heap's summary predicates mean in terms of the free list,
    /// the headers and the segment.
    pub proof fn lemma_views(&self)
        ensures
            forall|n: int| #[trigger] self.has_fit(n) <==> (exists|i: int| 0 <= i < self.free_blocks().len()
                && fits(self.header(#[trigger] self.free_blocks()[i].addr).size as int, n)),
            forall|n: int| #[trigger] self.can_grow(n) <==> (exists|sz: int| #[trigger] is_round_up(sz, BLOCK_META_SIZE + n, self.spec_page_size())
                && sz <= self.spec_limit() - self.spec_brk()
                && BLOCK_META_SIZE + n + self.spec_page_size() - 1 <= isize::MAX),
            forall|x: int| #[trigger] self.is_free(x) <==> (exists|i: int| 0 <= i < self.free_blocks().len()
                && #[trigger] self.free_blocks()[i].addr <= x && x < self.end(self.free_blocks()[i].addr)),
    {
        assert forall|n: int| #[trigger] self.has_fit(n) <==> (exists|i: int| 0 <= i < self.free_blocks().len()
            && fits(self.header(#[trigger] self.free_blocks()[i].addr).size as int, n)) by {
            if self.has_fit(n) {
                let i = choose|i: int| 0 <= i < self.list@.len() && fits(self.mem.header(#[trigger] self.list@[i].addr).size as int, n);
                assert(fits(self.header(self.free_blocks()[i].addr).size as int, n));
            }
            if exists|i: int| 0 <= i < self.free_blocks().len() && fits(self.header(#[trigger] self.free_blocks()[i].addr).size as int, n) {
                let i = choose|i: int| 0 <= i < self.free_blocks().len() && fits(self.header(#[trigger] self.free_blocks()[i].addr).size as int, n);
                assert(fits(self.mem.header(self.list@[i].addr).size as int, n));
            }
        }
        assert forall|x: int| #[trigger] self.is_free(x) <==> (exists|i: int| 0 <= i < self.free_blocks().len()
            && #[trigger] self.free_blocks()[i].addr <= x && x < self.end(self.free_blocks()[i].addr)) by {
            if self.is_free(x) {
                let i = choose|i: int| 0 <= i < self.list@.len() && #[trigger] self.list@[i].addr <= x && x < self.list@[i].end(&self.mem);
                assert(self.free_blocks()[i].addr <= x && x < self.end(self.free_blocks()[i].addr));
            }
            if exists|i: int| 0 <= i < self.free_blocks().len() && #[trigger] self.free_blocks()[i].addr <= x
                && x < self.end(self.free_blocks()[i].addr) {
                let i = choose|i: int| 0 <= i < self.free_blocks().len() && #[trigger] self.free_blocks()[i].addr <= x
                    && x < self.end(self.free_blocks()[i].addr);
                assert(self.list@[i].addr <= x && x < self.list@[i].end(&self.mem));
            }
        }
    }

    /// Byte `x` belonged to a block whose header a caller destroyed.
    pub closed spec fn is_leaked(&self, x: int) -> bool {
        self.leaked@.contains(x)
    }

    /// Every byte of the segment is free, handed out or leaked; free and
    /// leaked bytes lie in no handed-out block, and handed-out blocks do not
    /// overlap.
    pub proof fn lemma_conservation(&self)
        requires
            self.wf(),
        ensures
            forall|x: int| self.spec_base() <= x < self.spec_brk() ==> #[trigger] self.is_free(x) || self.is_leaked(x)
                || (exists|a: usize| #[trigger] self.handed_out(a) && a <= x && x < self.end(a)),
            forall|x: int| #[trigger] self.is_leaked(x) ==> self.spec_base() <= x < self.spec_brk() && !self.is_free(x),
            forall|a: usize, x: int| #[trigger] self.handed_out(a) && a <= x < self.end(a) ==> !#[trigger] self.is_leaked(x),
            forall|a: usize, b: usize| #[trigger] self.handed_out(a) && #[trigger] self.handed_out(b) && a != b
                ==> self.end(a) <= b || self.end(b) <= a,
    {
        assert forall|x: int| self.spec_base() <= x < self.spec_brk() implies #[trigger] self.is_free(x) || self.is_leaked(x)
            || (exists|a: usize| #[trigger] self.handed_out(a) && a <= x && x < self.end(a)) by {
            if !self.is_leaked(x) {
                assert(live_covered(&self.mem, x));
                let a = choose|a: usize| #[trigger] live(&self.mem, a) && a <= x && x < block_end(&self.mem, a);
                if in_list(self.list@, a) {
                    let i = choose|i: int| 0 <= i < self.list@.len() && #[trigger] self.list@[i].addr == a;
                    assert(self.list@[i].addr <= x && x < self.list@[i].end(&self.mem));
                } else {
                    assert(self.handed_out(a));
                }
            }
        }
        assert forall|x: int| #[trigger] self.is_leaked(x) implies self.spec_base() <= x < self.spec_brk() && !self.is_free(x) by {
            if self.is_free(x) {
                lemma_covered_is_live_covered(self.list@, &self.mem, x);
            }
        }
        assert forall|a: usize, x: int| #[trigger] self.handed_out(a) && a <= x < self.end(a) implies !#[trigger] self.is_leaked(x) by {
            assert(live(&self.mem, a));
        }
        assert forall|a: usize, b: usize| #[trigger] self.handed_out(a) && #[trigger] self.handed_out(b) && a != b
            implies self.end(a) <= b || self.end(b) <= a by {
            assert(live(&self.mem, a) && live(&self.mem, b));
        }
    }

    /// The free list is ordered with gaps, and its blocks are aligned.
    pub proof fn lemma_shape(&self)
        requires
            self.wf(),
        ensures
            forall|i: int, j: int| 0 <= i < j < self.free_blocks().len() ==> self.end((#[trigger] self.free_blocks()[i]).addr)
                < (#[trigger] self.free_blocks()[j]).addr,
            forall|i: int| 0 <= i < self.free_blocks().len() ==> #[trigger] self.free_blocks()[i].addr % 16 == 0
                && self.header(self.free_blocks()[i].addr).size % 16 == 0 && self.header(self.free_blocks()[i].addr).size > 0,
    {
        lemma_gaps_give_loose(self.list@, &self.mem);
        assert forall|i: int, j: int| 0 <= i < j < self.free_blocks().len() implies self.end((#[trigger] self.free_blocks()[i]).addr)
            < (#[trigger] self.free_blocks()[j]).addr by {
            assert(self.list@[i].end(&self.mem) < self.list@[j].addr as int);
        }
        assert forall|i: int| 0 <= i < self.free_blocks().len() implies #[trigger] self.free_blocks()[i].addr % 16 == 0
            && self.header(self.free_blocks()[i].addr).size % 16 == 0 && self.header(self.free_blocks()[i].addr).size > 0 by {
            assert(self.list@[i].valid(&self.mem));
        }
    }

    /// A caller wrote zeros over the header of its block `b`: the header is
    /// gone and the block's bytes are lost to the heap.
    pub fn leak(&mut self, b: BlockPtr)
        requires
            old(self).wf(),
            old(self).handed_out(b.addr),
        ensures
            final(self).wf(),
            final(self).spec_base() == old(self).spec_base(),
            final(self).spec_brk() == old(self).spec_brk(),
            final(self).spec_limit() == old(self).spec_limit(),
            final(self).spec_page_size() == old(self).spec_page_size(),
            final(self).header(b.addr) == zero_block(),
            forall|x: int| #[trigger] final(self).is_free(x) == old(self).is_free(x),
            forall|a: usize| a != b.addr ==> #[trigger] final(self).handed_out(a) == old(self).handed_out(a),
            forall|a: usize| a != b.addr ==> #[trigger] final(self).header(a) == old(self).header(a),
    {
        let ghost m0 = self.mem;
        let ghost s = self.list@;
        let ghost leaked2 = self.leaked@.union(Set::new(|x: int| b.addr <= x && x < block_end(&m0, b.addr)));
        self.mem.wipe(b.addr);
        proof {
            lemma_leak_keeps(s, &m0, &self.mem, b.addr, self.spec_base(), self.spec_brk(), self.leaked@, leaked2);
            self.leaked = Ghost(leaked2);
            assert forall|x: int| #[trigger] self.is_free(x) == old(self).is_free(x) by {
                assert forall|i: int| 0 <= i < s.len() implies self.mem.header(#[trigger] s[i].addr) == m0.header(s[i].addr) by {
                    assert(in_list(s, s[i].addr));
                }
                lemma_covers_same_headers(s, &m0, &self.mem, x);
            }
        }
    }
}

} // verus!
