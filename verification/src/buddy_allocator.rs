//! The buddy allocator: owner of the free-list for the fixed-size arena and
//! the only component that allocates or frees address ranges.
//!
//! Free blocks are kept sorted by start address, pairwise disjoint, aligned
//! power-of-two ranges, and no two of them are ever buddies: a block and its
//! buddy (the sibling produced by splitting their common parent) are merged
//! as soon as both are free.

use vstd::prelude::*;
use crate::arith::{
    ARENA_SIZE, align_up, is_power_of_two, lemma_align_up_bounds, lemma_aligned_gap,
    lemma_arena_power_of_two, lemma_divides_transitive, lemma_mod_add_multiple,
    lemma_pow2_divides, lemma_pow2_double_le, lemma_power_of_two_pos,
    round_up_to_power_of_two,
};
use crate::free_block::FreeBlock;
use crate::error::MemError;

verus! {

/// Every block in the sequence has buddy shape.
pub open spec fn blocks_wf(s: Seq<FreeBlock>) -> bool {
    forall|i: int| 0 <= i < s.len() ==> (#[trigger] s[i]).wf()
}

/// The blocks are sorted by address and pairwise disjoint.
pub open spec fn blocks_sorted_disjoint(s: Seq<FreeBlock>) -> bool {
    forall|i: int, j: int| 0 <= i < j < s.len() ==> (#[trigger] s[i]).end <= (#[trigger] s[j]).start
}

/// Two blocks are buddies when they have equal power-of-two size and were
/// produced by splitting the same parent: the lower one starts at a multiple
/// of twice the size and the upper one immediately follows it.
pub open spec fn are_buddies(a: FreeBlock, b: FreeBlock) -> bool {
    let sz = a.spec_size();
    &&& b.spec_size() == sz
    &&& {
        ||| (a.start as int % (2 * sz) == 0 && b.start == a.start + sz)
        ||| (b.start as int % (2 * sz) == 0 && a.start == b.start + sz)
    }
}

/// No two distinct blocks of the sequence are buddies.
pub open spec fn no_buddy_pair(s: Seq<FreeBlock>) -> bool {
    forall|i: int, j: int|
        0 <= i < s.len() && 0 <= j < s.len() && i != j ==> !are_buddies(
            #[trigger] s[i],
            #[trigger] s[j],
        )
}

/// The address `addr` lies inside one of the blocks.
pub open spec fn covers(s: Seq<FreeBlock>, addr: int) -> bool {
    exists|i: int| 0 <= i < s.len() && (#[trigger] s[i]).start <= addr < s[i].end
}

/// The total number of bytes held by the blocks.
pub open spec fn sum_sizes(s: Seq<FreeBlock>) -> int
    decreases s.len(),
{
    if s.len() == 0 {
        0
    } else {
        s[0].spec_size() + sum_sizes(s.subrange(1, s.len() as int))
    }
}

/// Block `i` is the allocator's choice for an aligned request of `a` bytes:
/// it fits, no fitting block is smaller, and among the smallest fitting
/// blocks it has the lowest start address.
pub open spec fn is_best_fit(s: Seq<FreeBlock>, i: int, a: int) -> bool {
    &&& 0 <= i < s.len()
    &&& a <= s[i].spec_size()
    &&& forall|j: int|
        0 <= j < s.len() && a <= (#[trigger] s[j]).spec_size() ==> (s[i].spec_size()
            < s[j].spec_size() || (s[i].spec_size() == s[j].spec_size() && s[i].start
            <= s[j].start))
}

/// Block `i` is the best fit among the first `n` blocks of the sequence.
pub open spec fn is_best_fit_prefix(s: Seq<FreeBlock>, i: int, a: int, n: int) -> bool {
    &&& 0 <= i < n <= s.len()
    &&& a <= s[i].spec_size()
    &&& forall|j: int|
        0 <= j < n && a <= (#[trigger] s[j]).spec_size() ==> (s[i].spec_size()
            < s[j].spec_size() || (s[i].spec_size() == s[j].spec_size() && s[i].start
            <= s[j].start))
}

/// The address of the buddy of the block `[start, start + size)`.
pub open spec fn spec_buddy_addr(start: int, size: int) -> int {
    if start % (2 * size) == 0 {
        start + size
    } else {
        start - size
    }
}

/// A deallocation request the allocator accepts: a non-empty size whose
/// power-of-two rounding gives an aligned range inside the arena.
pub open spec fn valid_dealloc(start: int, size: int) -> bool {
    &&& size >= 1
    &&& start % align_up(size) == 0
    &&& start + align_up(size) <= ARENA_SIZE
}

/// A buddy of `b` can only be the one exact block at `spec_buddy_addr`.
pub proof fn lemma_buddy_is_exact(x: FreeBlock, b: FreeBlock)
    requires
        are_buddies(x, b),
        b.spec_size() >= 1,
    ensures
        x.spec_size() == b.spec_size(),
        x.start as int == spec_buddy_addr(b.start as int, b.spec_size()),
{
    let sz = b.spec_size();
    if x.start as int % (2 * sz) == 0 && b.start == x.start + sz {
        assert(b.start as int % (2 * sz) == sz) by (nonlinear_arith)
            requires
                x.start as int % (2 * sz) == 0,
                b.start == x.start + sz,
                sz >= 1,
        ;
    }
}

/// Inserting a block shifts coverage by exactly the block's range.
pub proof fn lemma_covers_insert(s: Seq<FreeBlock>, i: int, b: FreeBlock)
    requires
        0 <= i <= s.len(),
    ensures
        forall|addr: int|
            #[trigger] covers(s.insert(i, b), addr) <==> (covers(s, addr) || (b.start <= addr
                < b.end)),
{
    s.insert_ensures(i, b);
    let t = s.insert(i, b);
    assert forall|addr: int| covers(t, addr) implies (covers(s, addr) || (b.start <= addr
        < b.end)) by {
        let k = choose|k: int| 0 <= k < t.len() && (#[trigger] t[k]).start <= addr < t[k].end;
        if k < i {
            assert(s[k].start <= addr < s[k].end);
        } else if k > i {
            assert(s[k - 1].start <= addr < s[k - 1].end);
        }
    }
    assert forall|addr: int| (covers(s, addr) || (b.start <= addr < b.end)) implies covers(
        t,
        addr,
    ) by {
        if b.start <= addr < b.end {
            assert(t[i].start <= addr < t[i].end);
        } else {
            let k = choose|k: int| 0 <= k < s.len() && (#[trigger] s[k]).start <= addr < s[k].end;
            if k < i {
                assert(t[k].start <= addr < t[k].end);
            } else {
                assert(t[k + 1].start <= addr < t[k + 1].end);
            }
        }
    }
}

/// Removing a block from a disjoint sequence removes exactly its range from
/// the coverage.
pub proof fn lemma_covers_remove(s: Seq<FreeBlock>, i: int)
    requires
        0 <= i < s.len(),
        blocks_sorted_disjoint(s),
    ensures
        forall|addr: int|
            #[trigger] covers(s.remove(i), addr) <==> (covers(s, addr) && !(s[i].start <= addr
                < s[i].end)),
{
    s.remove_ensures(i);
    let t = s.remove(i);
    assert forall|addr: int| covers(t, addr) implies (covers(s, addr) && !(s[i].start <= addr
        < s[i].end)) by {
        let k = choose|k: int| 0 <= k < t.len() && (#[trigger] t[k]).start <= addr < t[k].end;
        if k < i {
            assert(s[k].start <= addr < s[k].end);
        } else {
            assert(s[k + 1].start <= addr < s[k + 1].end);
        }
    }
    assert forall|addr: int| (covers(s, addr) && !(s[i].start <= addr < s[i].end)) implies covers(
        t,
        addr,
    ) by {
        let k = choose|k: int| 0 <= k < s.len() && (#[trigger] s[k]).start <= addr < s[k].end;
        if k < i {
            assert(t[k].start <= addr < t[k].end);
        } else {
            assert(t[k - 1].start <= addr < t[k - 1].end);
        }
    }
}

/// Inserting a block adds its size to the total.
pub proof fn lemma_sum_insert(s: Seq<FreeBlock>, i: int, b: FreeBlock)
    requires
        0 <= i <= s.len(),
    ensures
        sum_sizes(s.insert(i, b)) == sum_sizes(s) + b.spec_size(),
    decreases i,
{
    let t = s.insert(i, b);
    if i == 0 {
        assert(t[0] == b);
        assert(t.subrange(1, t.len() as int) =~= s);
    } else {
        assert(t[0] == s[0]);
        assert(t.subrange(1, t.len() as int) =~= s.subrange(1, s.len() as int).insert(i - 1, b));
        lemma_sum_insert(s.subrange(1, s.len() as int), i - 1, b);
    }
}

/// Removing a block subtracts its size from the total.
pub proof fn lemma_sum_remove(s: Seq<FreeBlock>, i: int)
    requires
        0 <= i < s.len(),
    ensures
        sum_sizes(s.remove(i)) == sum_sizes(s) - s[i].spec_size(),
    decreases i,
{
    let t = s.remove(i);
    if i == 0 {
        assert(t =~= s.subrange(1, s.len() as int));
    } else {
        assert(t[0] == s[0]);
        assert(t.subrange(1, t.len() as int) =~= s.subrange(1, s.len() as int).remove(i - 1));
        lemma_sum_remove(s.subrange(1, s.len() as int), i - 1);
    }
}

/// Removing a block preserves shape, sortedness and the buddy invariant.
pub proof fn lemma_remove_preserves_shape(s: Seq<FreeBlock>, i: int)
    requires
        0 <= i < s.len(),
        blocks_wf(s),
        blocks_sorted_disjoint(s),
        no_buddy_pair(s),
    ensures
        blocks_wf(s.remove(i)),
        blocks_sorted_disjoint(s.remove(i)),
        no_buddy_pair(s.remove(i)),
{
    s.remove_ensures(i);
    let t = s.remove(i);
    assert forall|k: int| 0 <= k < t.len() implies (#[trigger] t[k]).wf() by {
        if k < i {
            assert(t[k] == s[k]);
        } else {
            assert(t[k] == s[k + 1]);
        }
    }
    assert forall|k: int, l: int| 0 <= k < l < t.len() implies (#[trigger] t[k]).end
        <= (#[trigger] t[l]).start by {
        let k0: int = if k < i { k } else { k + 1 };
        let l0: int = if l < i { l } else { l + 1 };
        assert(t[k] == s[k0] && t[l] == s[l0]);
    }
    assert forall|k: int, l: int|
        0 <= k < t.len() && 0 <= l < t.len() && k != l implies !are_buddies(
        #[trigger] t[k],
        #[trigger] t[l],
    ) by {
        let k0: int = if k < i { k } else { k + 1 };
        let l0: int = if l < i { l } else { l + 1 };
        assert(t[k] == s[k0] && t[l] == s[l0]);
    }
}

/// Inserting a well-formed block between its neighbours, with no buddy of it
/// present, preserves shape, sortedness and the buddy invariant.
pub proof fn lemma_insert_preserves_shape(s: Seq<FreeBlock>, i: int, b: FreeBlock)
    requires
        0 <= i <= s.len(),
        blocks_wf(s),
        blocks_sorted_disjoint(s),
        no_buddy_pair(s),
        b.wf(),
        forall|k: int| 0 <= k < i ==> (#[trigger] s[k]).end <= b.start,
        forall|k: int| i <= k < s.len() ==> b.end <= (#[trigger] s[k]).start,
        forall|k: int| 0 <= k < s.len() ==> !are_buddies(#[trigger] s[k], b),
    ensures
        blocks_wf(s.insert(i, b)),
        blocks_sorted_disjoint(s.insert(i, b)),
        no_buddy_pair(s.insert(i, b)),
{
    s.insert_ensures(i, b);
    let t = s.insert(i, b);
    assert forall|k: int| 0 <= k < t.len() implies (#[trigger] t[k]).wf() by {
        if k < i {
            assert(t[k] == s[k]);
        } else if k == i {
            assert(t[k] == b);
        } else {
            assert(t[k] == s[k - 1]);
        }
    }
    assert forall|k: int, l: int| 0 <= k < l < t.len() implies (#[trigger] t[k]).end
        <= (#[trigger] t[l]).start by {
        if k < i {
            assert(t[k] == s[k]);
        } else if k == i {
            assert(t[k] == b);
        } else {
            assert(t[k] == s[k - 1]);
        }
        if l < i {
            assert(t[l] == s[l]);
        } else if l == i {
            assert(t[l] == b);
        } else {
            assert(t[l] == s[l - 1]);
        }
    }
    assert forall|k: int, l: int|
        0 <= k < t.len() && 0 <= l < t.len() && k != l implies !are_buddies(
        #[trigger] t[k],
        #[trigger] t[l],
    ) by {
        if k < i {
            assert(t[k] == s[k]);
        } else if k == i {
            assert(t[k] == b);
        } else {
            assert(t[k] == s[k - 1]);
        }
        if l < i {
            assert(t[l] == s[l]);
        } else if l == i {
            assert(t[l] == b);
        } else {
            assert(t[l] == s[l - 1]);
        }
        if k == i || l == i {
            // One side is the new block: a buddy of `b` is excluded by
            // hypothesis, and `are_buddies` is symmetric in its two arms.
        }
    }
}

/// Blocks confined to `[lo, hi)` hold at most `hi - lo` bytes.
pub proof fn lemma_sum_le(s: Seq<FreeBlock>, lo: int, hi: int)
    requires
        lo <= hi,
        blocks_sorted_disjoint(s),
        forall|k: int|
            0 <= k < s.len() ==> lo <= (#[trigger] s[k]).start && s[k].start < s[k].end
                && s[k].end <= hi,
    ensures
        sum_sizes(s) <= hi - lo,
    decreases s.len(),
{
    if s.len() == 0 {
    } else {
        let first = s[0];
        let rest = s.subrange(1, s.len() as int);
        assert forall|k: int|
            0 <= k < rest.len() implies first.end <= (#[trigger] rest[k]).start && rest[k].start
                < rest[k].end && rest[k].end <= hi by {
            assert(rest[k] == s[k + 1]);
        }
        assert forall|i: int, j: int| 0 <= i < j < rest.len() implies (#[trigger] rest[i]).end
            <= (#[trigger] rest[j]).start by {
            assert(rest[i] == s[i + 1] && rest[j] == s[j + 1]);
        }
        lemma_sum_le(rest, first.end as int, hi);
    }
}

/// Blocks confined to `[lo, hi)` whose sizes sum to the whole width cover
/// every address of `[lo, hi)`.
pub proof fn lemma_sum_full_coverage(s: Seq<FreeBlock>, lo: int, hi: int)
    requires
        lo <= hi,
        blocks_sorted_disjoint(s),
        forall|k: int|
            0 <= k < s.len() ==> lo <= (#[trigger] s[k]).start && s[k].start < s[k].end
                && s[k].end <= hi,
        sum_sizes(s) == hi - lo,
    ensures
        forall|addr: int| lo <= addr < hi ==> #[trigger] covers(s, addr),
    decreases s.len(),
{
    if s.len() == 0 {
    } else {
        let first = s[0];
        let rest = s.subrange(1, s.len() as int);
        assert forall|k: int|
            0 <= k < rest.len() implies first.end <= (#[trigger] rest[k]).start && rest[k].start
                < rest[k].end && rest[k].end <= hi by {
            assert(rest[k] == s[k + 1]);
        }
        assert forall|i: int, j: int| 0 <= i < j < rest.len() implies (#[trigger] rest[i]).end
            <= (#[trigger] rest[j]).start by {
            assert(rest[i] == s[i + 1] && rest[j] == s[j + 1]);
        }
        lemma_sum_le(rest, first.end as int, hi);
        assert(first.start == lo);
        assert(sum_sizes(rest) == hi - first.end);
        lemma_sum_full_coverage(rest, first.end as int, hi);
        assert forall|addr: int| lo <= addr < hi implies #[trigger] covers(s, addr) by {
            if addr < first.end {
                assert(s[0].start <= addr < s[0].end);
            } else {
                assert(covers(rest, addr));
                let k = choose|k: int|
                    0 <= k < rest.len() && (#[trigger] rest[k]).start <= addr < rest[k].end;
                assert(s[k + 1].start <= addr < s[k + 1].end);
            }
        }
    }
}

/// Inside a fully free aligned region, the buddy invariant leaves only one
/// possibility: the whole region stands as a single free block.  Smaller
/// blocks would include two sibling halves, which would have merged.
pub proof fn lemma_full_region_is_block(s: Seq<FreeBlock>, p: int, t: int)
    requires
        blocks_wf(s),
        blocks_sorted_disjoint(s),
        no_buddy_pair(s),
        is_power_of_two(t),
        0 <= p,
        p % t == 0,
        p + t <= ARENA_SIZE,
        forall|addr: int| p <= addr < p + t ==> #[trigger] covers(s, addr),
        forall|k: int|
            0 <= k < s.len() && (#[trigger] s[k]).end > p && s[k].start < p + t ==> p
                <= s[k].start && s[k].end <= p + t,
    ensures
        exists|k: int| 0 <= k < s.len() && (#[trigger] s[k]).start == p && s[k].end == p + t,
    decreases t,
{
    lemma_power_of_two_pos(t);
    assert(covers(s, p));
    let k0 = choose|k: int| 0 <= k < s.len() && (#[trigger] s[k]).start <= p < s[k].end;
    assert(s[k0].wf());
    assert(s[k0].start == p);
    let u = s[k0].spec_size();
    if u == t {
        assert(s[k0].start == p && s[k0].end == p + t);
    } else {
        lemma_pow2_double_le(u, t);
        let h = t / 2;
        assert(t == 2 * h);
        assert(is_power_of_two(h));
        lemma_pow2_divides(h, t);
        lemma_divides_transitive(p, h, t);
        lemma_mod_add_multiple(p, h, h);
        // Every block that meets the region fits inside one of its halves.
        assert forall|k: int|
            0 <= k < s.len() && (#[trigger] s[k]).end > p && s[k].start < p + t implies (s[k].end
            <= p + h || p + h <= s[k].start) && s[k].spec_size() <= h by {
            assert(s[k].wf());
            let a = s[k].start as int;
            let u2 = s[k].spec_size();
            if u2 == t {
                assert(s[k].start == p && s[k].end == p + t);
                if k != k0 {
                    if k < k0 {
                        assert(s[k].end <= s[k0].start);
                    } else {
                        assert(s[k0].end <= s[k].start);
                    }
                }
                assert(false);
            }
            lemma_pow2_double_le(u2, t);
            lemma_pow2_divides(u2, h);
            lemma_divides_transitive(p, u2, h);
            lemma_mod_add_multiple(p, h, u2);
            if a < p + h {
                lemma_aligned_gap(a, p + h, u2);
            }
        }
        lemma_full_region_is_block(s, p, h);
        lemma_full_region_is_block(s, p + h, h);
        let kl = choose|k: int|
            0 <= k < s.len() && (#[trigger] s[k]).start == p && s[k].end == p + h;
        let ku = choose|k: int|
            0 <= k < s.len() && (#[trigger] s[k]).start == p + h && s[k].end == p + t;
        assert(are_buddies(s[kl], s[ku]));
        assert(kl != ku);
        assert(false);
    }
}

/// Full reclamation: once every byte of the arena is free again, the buddy
/// invariant forces the free set back to the single block `[0, ARENA_SIZE)`,
/// whatever the order of the deallocations that led there.
pub proof fn lemma_full_reclamation(alloc: BuddyAllocator)
    requires
        alloc.wf(),
        alloc.free_total() == ARENA_SIZE,
    ensures
        alloc.free() =~= seq![(FreeBlock { start: 0usize, end: ARENA_SIZE })],
{
    let s = alloc.free();
    lemma_arena_power_of_two();
    assert forall|k: int|
        0 <= k < s.len() implies 0 <= (#[trigger] s[k]).start && s[k].start < s[k].end
            && s[k].end <= ARENA_SIZE by {
        assert(s[k].wf());
    }
    lemma_sum_full_coverage(s, 0, ARENA_SIZE as int);
    lemma_full_region_is_block(s, 0, ARENA_SIZE as int);
    let k = choose|k: int|
        0 <= k < s.len() && (#[trigger] s[k]).start == 0 && s[k].end == ARENA_SIZE;
    assert(s.len() == 1) by {
        if s.len() >= 2 {
            let l: int = if k == 0 {
                1
            } else {
                0
            };
            assert(s[l].wf());
            if l < k {
                assert(s[l].end <= s[k].start);
            } else {
                assert(s[k].end <= s[l].start);
            }
        }
    }
    assert(s[0] == (FreeBlock { start: 0usize, end: ARENA_SIZE }));
}

/// The free-list owner for the arena.
#[derive(Debug)]
pub struct BuddyAllocator {
    pub free_blocks: Vec<FreeBlock>,
}

impl BuddyAllocator {
    /// The free blocks, as a sequence sorted by start address.
    pub open spec fn free(self) -> Seq<FreeBlock> {
        self.free_blocks@
    }

    /// The free-set invariant: buddy-shaped blocks, sorted and disjoint,
    /// with no buddy pair left unmerged.
    pub open spec fn wf(self) -> bool {
        &&& blocks_wf(self.free())
        &&& blocks_sorted_disjoint(self.free())
        &&& no_buddy_pair(self.free())
    }

    /// The address `addr` is free.
    pub open spec fn free_covers(self, addr: int) -> bool {
        covers(self.free(), addr)
    }

    /// The number of free bytes.
    pub open spec fn free_total(self) -> int {
        sum_sizes(self.free())
    }

    /// Some free block can serve a request of `size` bytes after rounding
    /// to the next power of two.
    pub open spec fn has_fit(self, size: int) -> bool {
        exists|i: int|
            0 <= i < self.free().len() && align_up(size) <= (#[trigger] self.free()[i]).spec_size()
    }

    /// A fresh allocator owning the whole arena as one free block.
    pub fn new() -> (r: BuddyAllocator)
        ensures
            r.wf(),
            r.free() =~= seq![(FreeBlock { start: 0usize, end: ARENA_SIZE })],
            r.free_total() == ARENA_SIZE,
            forall|addr: int| r.free_covers(addr) <==> 0 <= addr < ARENA_SIZE,
    {
        let mut free_blocks: Vec<FreeBlock> = Vec::new();
        free_blocks.push(FreeBlock::new(0, ARENA_SIZE));
        proof {
            lemma_arena_power_of_two();
            assert(free_blocks@[0].wf());
            assert(free_blocks@.subrange(1, 1) =~= Seq::<FreeBlock>::empty());
            assert(sum_sizes(Seq::<FreeBlock>::empty()) == 0);
            assert(sum_sizes(free_blocks@) == free_blocks@[0].spec_size() + sum_sizes(
                free_blocks@.subrange(1, 1),
            ));
        }
        BuddyAllocator { free_blocks }
    }

    /// Serves an allocation request of `size` bytes.
    ///
    /// The request is rounded up to the next power of two; among the free
    /// blocks that can hold it, the smallest one is chosen (lowest start
    /// address on ties) and bisected, keeping the lower half each time,
    /// until it matches the rounded size.  Its start address is returned.
    #[verifier::loop_isolation(false)]
    pub fn allocate(&mut self, size: usize) -> (r: Result<usize, MemError>)
        requires
            old(self).wf(),
        ensures
            final(self).wf(),
            match r {
                Ok(start) => ({
                    let a = align_up(size as int);
                    &&& size > 0
                    &&& old(self).has_fit(size as int)
                    &&& start as int % a == 0
                    &&& start + a <= ARENA_SIZE
                    &&& exists|i: int|
                        #[trigger] is_best_fit(old(self).free(), i, a) && start == old(
                            self,
                        ).free()[i].start
                    &&& forall|addr: int|
                        #![trigger covers(final(self).free(), addr)]
                        #![trigger covers(old(self).free(), addr)]
                        covers(final(self).free(), addr) <==> (covers(old(self).free(), addr)
                            && !(start <= addr < start + a))
                    &&& forall|addr: int|
                        start <= addr < start + a ==> #[trigger] covers(old(self).free(), addr)
                    &&& sum_sizes(final(self).free()) == sum_sizes(old(self).free()) - a
                }),
                Err(e) => ({
                    &&& *final(self) == *old(self)
                    &&& (e == MemError::InvalidSize <==> size == 0)
                    &&& (e == MemError::OutOfMemory <==> size > 0 && !old(self).has_fit(
                        size as int,
                    ))
                    &&& (e == MemError::InvalidSize || e == MemError::OutOfMemory)
                }),
            },
    {
        if size == 0 {
            return Err(MemError::InvalidSize);
        }
        if size > ARENA_SIZE {
            proof {
                lemma_align_up_bounds(size as int);
                assert forall|i: int| 0 <= i < self.free().len() implies !(align_up(size as int)
                    <= (#[trigger] self.free()[i]).spec_size()) by {
                    assert(self.free()[i].wf());
                }
            }
            return Err(MemError::OutOfMemory);
        }
        let a = round_up_to_power_of_two(size);

        // Find the smallest fitting block; the scan order gives the lowest
        // start address among equally small candidates.
        let n = self.free_blocks.len();
        let mut best: usize = 0;
        let mut found = false;
        let mut j: usize = 0;
        while j < n
            invariant
                j <= n,
                found ==> is_best_fit_prefix(self.free(), best as int, a as int, j as int),
                !found ==> forall|k: int|
                    0 <= k < j ==> (#[trigger] self.free()[k]).spec_size() < a,
            decreases n - j,
        {
            let blk = self.free_blocks[j];
            assert(blk.wf());
            if blk.size() >= a {
                if !found {
                    best = j;
                    found = true;
                } else {
                    let cur = self.free_blocks[best];
                    assert(cur.wf());
                    if blk.size() < cur.size() {
                        best = j;
                    } else {
                        proof {
                            // On ties the earlier block wins: it lies lower.
                            if blk.spec_size() == cur.spec_size() {
                                assert(cur.end <= blk.start);
                            }
                        }
                    }
                }
            }
            j = j + 1;
        }
        if !found {
            return Err(MemError::OutOfMemory);
        }

        // Bisect the chosen block, keeping the lower half, until it has
        // exactly the rounded size; the upper halves rejoin the free list.
        let i = best;
        let ghost orig = self.free();
        let block = self.free_blocks[i];
        let p = block.start;
        let mut cs = block.size();
        self.free_blocks.remove(i);
        proof {
            lemma_remove_preserves_shape(orig, i as int);
            lemma_covers_remove(orig, i as int);
            lemma_sum_remove(orig, i as int);
            assert forall|addr: int| p <= addr < p + cs implies #[trigger] covers(orig, addr) by {
                assert(orig[i as int].start <= addr < orig[i as int].end);
            }
            lemma_pow2_divides(a as int, cs as int);
            lemma_divides_transitive(p as int, a as int, cs as int);
        }
        while cs > a
            invariant
                a <= cs,
                is_power_of_two(cs as int),
                p as int % cs as int == 0,
                p + cs <= ARENA_SIZE,
                i <= self.free().len(),
                blocks_wf(self.free()),
                blocks_sorted_disjoint(self.free()),
                no_buddy_pair(self.free()),
                forall|k: int| 0 <= k < i ==> (#[trigger] self.free()[k]).end <= p,
                forall|k: int| i <= k < self.free().len() ==> p + cs <= (#[trigger] self.free()[k]).start,
                forall|addr: int|
                    #![trigger covers(self.free(), addr)]
                    #![trigger covers(orig, addr)]
                    covers(self.free(), addr) <==> (covers(orig, addr) && !(p <= addr < p + cs)),
                forall|addr: int| p <= addr < p + cs ==> #[trigger] covers(orig, addr),
                sum_sizes(self.free()) == sum_sizes(orig) - cs,
            decreases cs,
        {
            let ghost v = self.free();
            let half = cs / 2;
            proof {
                lemma_pow2_double_le(a as int, cs as int);
                assert(cs as int % 2 == 0 && is_power_of_two(cs as int / 2));
                assert(cs == 2 * half);
                lemma_pow2_divides(half as int, cs as int);
                lemma_divides_transitive(p as int, half as int, cs as int);
                assert((p + half) as int % half as int == 0) by (nonlinear_arith)
                    requires
                        p as int % half as int == 0,
                        half >= 1,
                ;
                assert((p + half) as int % (2 * half as int) == half as int) by (nonlinear_arith)
                    requires
                        p as int % (2 * half as int) == 0,
                        half >= 1,
                ;
            }
            let upper = FreeBlock::new(p + half, p + cs);
            proof {
                assert(upper.wf());
                assert forall|k: int| 0 <= k < v.len() implies !are_buddies(
                    #[trigger] v[k],
                    upper,
                ) by {
                    if are_buddies(v[k], upper) {
                        lemma_buddy_is_exact(v[k], upper);
                        assert(spec_buddy_addr(upper.start as int, upper.spec_size()) == p);
                        assert(v[k].start <= p < v[k].end);
                        assert(covers(v, p as int));
                    }
                }
                lemma_insert_preserves_shape(v, i as int, upper);
                lemma_covers_insert(v, i as int, upper);
                lemma_sum_insert(v, i as int, upper);
            }
            self.free_blocks.insert(i, upper);
            cs = half;
            proof {
                assert forall|addr: int|
                    #![trigger covers(self.free(), addr)]
                    #![trigger covers(orig, addr)]
                    covers(self.free(), addr) <==> (covers(orig, addr) && !(p <= addr < p
                        + cs)) by {
                    assert(self.free() == v.insert(i as int, upper));
                    assert(covers(v.insert(i as int, upper), addr) <==> (covers(v, addr) || (
                    upper.start <= addr < upper.end)));
                }
            }
        }
        proof {
            assert(is_best_fit(orig, i as int, a as int));
        }
        Ok(p)
    }

    /// Index of the free block that is exactly `[start, end)`, if present.
    fn find_exact(&self, start: usize, end: usize) -> (r: Option<usize>)
        ensures
            match r {
                Some(j) => 0 <= j < self.free().len() && self.free()[j as int].start == start
                    && self.free()[j as int].end == end,
                None => forall|k: int|
                    0 <= k < self.free().len() ==> !((#[trigger] self.free()[k]).start == start
                        && self.free()[k].end == end),
            },
    {
        let n = self.free_blocks.len();
        let mut j: usize = 0;
        while j < n
            invariant
                j <= n,
                n == self.free().len(),
                forall|k: int|
                    0 <= k < j ==> !((#[trigger] self.free()[k]).start == start
                        && self.free()[k].end == end),
            decreases n - j,
        {
            if self.free_blocks[j].start == start && self.free_blocks[j].end == end {
                return Some(j);
            }
            j = j + 1;
        }
        None
    }

    /// Returns the range `[start, start + next_power_of_two(size))` to the
    /// free set, then coalesces: while the buddy of the freed block is also
    /// free, the two merge into their parent, repeating upward.
    #[verifier::loop_isolation(false)]
    pub fn deallocate(&mut self, start: usize, size: usize) -> (r: Result<(), MemError>)
        requires
            old(self).wf(),
        ensures
            final(self).wf(),
            match r {
                Ok(()) => ({
                    let a = align_up(size as int);
                    &&& valid_dealloc(start as int, size as int)
                    &&& forall|addr: int|
                        start <= addr < start + a ==> !#[trigger] covers(old(self).free(), addr)
                    &&& forall|addr: int|
                        #![trigger covers(final(self).free(), addr)]
                        #![trigger covers(old(self).free(), addr)]
                        covers(final(self).free(), addr) <==> (covers(old(self).free(), addr)
                            || (start <= addr < start + a))
                    &&& sum_sizes(final(self).free()) == sum_sizes(old(self).free()) + a
                }),
                Err(e) => ({
                    &&& *final(self) == *old(self)
                    &&& (e == MemError::InvalidRange <==> !valid_dealloc(start as int, size as int))
                    &&& (e == MemError::InvariantViolation <==> valid_dealloc(
                        start as int,
                        size as int,
                    ) && exists|addr: int|
                        start <= addr < start + align_up(size as int) && #[trigger] covers(
                            old(self).free(),
                            addr,
                        ))
                    &&& (e == MemError::InvalidRange || e == MemError::InvariantViolation)
                }),
            },
    {
        if size == 0 || size > ARENA_SIZE {
            proof {
                if size > ARENA_SIZE {
                    lemma_align_up_bounds(size as int);
                }
            }
            return Err(MemError::InvalidRange);
        }
        let a = round_up_to_power_of_two(size);
        if start % a != 0 || start > ARENA_SIZE - a {
            return Err(MemError::InvalidRange);
        }

        // The freed range must be disjoint from every free block; a request
        // that overlaps one is a double free and is refused outright.
        let n = self.free_blocks.len();
        let mut idx: usize = 0;
        while idx < n && self.free_blocks[idx].end <= start
            invariant
                idx <= n,
                forall|k: int| 0 <= k < idx ==> (#[trigger] self.free()[k]).end <= start,
            decreases n - idx,
        {
            idx = idx + 1;
        }
        if idx < n && self.free_blocks[idx].start < start + a {
            proof {
                let blk = self.free()[idx as int];
                assert(blk.wf());
                let w: int = if blk.start <= start { start as int } else { blk.start as int };
                assert(blk.start <= w < blk.end);
                assert(covers(old(self).free(), w));
                assert(start <= w < start + a);
            }
            return Err(MemError::InvariantViolation);
        }
        proof {
            assert forall|addr: int|
                start <= addr < start + a implies !#[trigger] covers(self.free(), addr) by {
                if covers(self.free(), addr) {
                    let k = choose|k: int|
                        0 <= k < self.free().len() && (#[trigger] self.free()[k]).start <= addr
                            < self.free()[k].end;
                    assert(self.free()[k].wf());
                    if k < idx {
                    } else {
                        if k > idx {
                            assert(self.free()[idx as int].end <= self.free()[k].start);
                        }
                    }
                }
            }
        }

        // Coalesce upward: the carried block `[p, p + cs)` is not yet in the
        // list; as long as its buddy is an exact free block, the two merge
        // into their parent.
        let mut p: usize = start;
        let mut cs: usize = a;
        let mut done = false;
        let ghost orig = self.free();
        while !done
            invariant
                a <= cs,
                is_power_of_two(cs as int),
                p as int % cs as int == 0,
                p + cs <= ARENA_SIZE,
                blocks_wf(self.free()),
                blocks_sorted_disjoint(self.free()),
                no_buddy_pair(self.free()),
                forall|addr: int|
                    p <= addr < p + cs ==> !#[trigger] covers(self.free(), addr),
                forall|addr: int|
                    #![trigger covers(self.free(), addr)]
                    #![trigger covers(orig, addr)]
                    (covers(self.free(), addr) || (p <= addr < p + cs)) <==> (covers(orig, addr)
                        || (start <= addr < start + a)),
                sum_sizes(self.free()) + cs == sum_sizes(orig) + a,
                done ==> forall|k: int|
                    0 <= k < self.free().len() ==> !are_buddies(
                        #[trigger] self.free()[k],
                        (FreeBlock { start: p, end: (p + cs) as usize }),
                    ),
            decreases 2 * (ARENA_SIZE - cs) + (if done { 0int } else { 1int }),
        {
            proof {
                lemma_power_of_two_pos(cs as int);
            }
            let bud: usize = if p % (2 * cs) == 0 {
                p + cs
            } else {
                proof {
                    crate::arith::lemma_mod_double(p as int, cs as int);
                    assert(p > 0) by {
                        vstd::arithmetic::div_mod::lemma_mod_multiples_basic(0, 2 * cs as int);
                    }
                    lemma_aligned_gap(0, p as int, cs as int);
                }
                p - cs
            };
            match self.find_exact(bud, bud + cs) {
                None => {
                    proof {
                        let carried = FreeBlock { start: p, end: (p + cs) as usize };
                        assert(carried.spec_size() == cs as int);
                        assert forall|k: int| 0 <= k < self.free().len() implies !are_buddies(
                            #[trigger] self.free()[k],
                            carried,
                        ) by {
                            if are_buddies(self.free()[k], carried) {
                                lemma_buddy_is_exact(self.free()[k], carried);
                                assert(self.free()[k].start == bud);
                                assert(self.free()[k].end == bud + cs);
                            }
                        }
                    }
                    done = true;
                },
                Some(jj) => {
                    let ghost v = self.free();
                    let b = self.free_blocks[jj];
                    self.free_blocks.remove(jj);
                    proof {
                        assert(b.wf());
                        assert(b.spec_size() == cs as int);
                        lemma_remove_preserves_shape(v, jj as int);
                        lemma_covers_remove(v, jj as int);
                        lemma_sum_remove(v, jj as int);
                        if p as int % (2 * cs as int) != 0 {
                            crate::arith::lemma_mod_double(p as int, cs as int);
                        }
                    }
                    let ghost old_p = p;
                    let ghost old_cs = cs;
                    if bud < p {
                        p = bud;
                    }
                    cs = 2 * cs;
                    proof {
                        assert(cs as int % 2 == 0 && cs as int / 2 == old_cs as int);
                        assert(is_power_of_two(cs as int));
                        assert(p + cs <= ARENA_SIZE);
                        assert forall|addr: int|
                            p <= addr < p + cs implies !#[trigger] covers(self.free(), addr) by {
                            assert(self.free() == v.remove(jj as int));
                            assert((p <= addr < p + cs) <==> ((old_p <= addr < old_p + old_cs)
                                || (b.start <= addr < b.end)));
                            if old_p <= addr < old_p + old_cs {
                                assert(!covers(v, addr));
                                assert(!covers(v.remove(jj as int), addr));
                            } else {
                                assert(b.start <= addr < b.end);
                                assert(v[jj as int].start <= addr < v[jj as int].end);
                                assert(!covers(v.remove(jj as int), addr));
                            }
                        }
                        assert forall|addr: int|
                            #![trigger covers(self.free(), addr)]
                            #![trigger covers(orig, addr)]
                            (covers(self.free(), addr) || (p <= addr < p + cs)) <==> (covers(
                                orig,
                                addr,
                            ) || (start <= addr < start + a)) by {
                            assert(self.free() == v.remove(jj as int));
                            assert((p <= addr < p + cs) <==> ((old_p <= addr < old_p + old_cs)
                                || (b.start <= addr < b.end)));
                            assert(covers(v.remove(jj as int), addr) <==> (covers(v, addr)
                                && !(v[jj as int].start <= addr < v[jj as int].end)));
                            if b.start <= addr < b.end {
                                assert(v[jj as int].start <= addr < v[jj as int].end);
                                assert(covers(v, addr));
                            }
                        }
                    }
                },
            }
        }

        // Insert the fully coalesced block at its sorted position.
        let n2 = self.free_blocks.len();
        let mut i2: usize = 0;
        while i2 < n2 && self.free_blocks[i2].end <= p
            invariant
                i2 <= n2,
                n2 == self.free().len(),
                forall|k: int| 0 <= k < i2 ==> (#[trigger] self.free()[k]).end <= p,
            decreases n2 - i2,
        {
            i2 = i2 + 1;
        }
        let ghost w = self.free();
        let nb = FreeBlock::new(p, p + cs);
        proof {
            lemma_power_of_two_pos(cs as int);
            assert(nb.wf());
            assert forall|k: int| i2 <= k < w.len() implies nb.end <= (#[trigger] w[k]).start by {
                assert(w[k].wf());
                if k > i2 {
                    assert(w[i2 as int].end <= w[k].start);
                }
                if w[k].start < p + cs {
                    let q: int = if w[k].start <= p { p as int } else { w[k].start as int };
                    assert(w[k].start <= q < w[k].end);
                    assert(covers(w, q));
                    assert(p <= q < p + cs);
                }
            }
            lemma_insert_preserves_shape(w, i2 as int, nb);
            lemma_covers_insert(w, i2 as int, nb);
            lemma_sum_insert(w, i2 as int, nb);
        }
        self.free_blocks.insert(i2, nb);
        proof {
            assert forall|addr: int|
                #![trigger covers(self.free(), addr)]
                #![trigger covers(orig, addr)]
                covers(self.free(), addr) <==> (covers(orig, addr) || (start <= addr < start
                    + a)) by {
                assert(self.free() == w.insert(i2 as int, nb));
                assert(covers(w.insert(i2 as int, nb), addr) <==> (covers(w, addr) || (nb.start
                    <= addr < nb.end)));
            }
            assert(sum_sizes(self.free()) == sum_sizes(orig) + a);
        }
        Ok(())
    }
}

} // verus!
