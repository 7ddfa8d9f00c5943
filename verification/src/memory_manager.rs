//! The block table: maps logical ids to allocated regions, owns the stored
//! payloads and the arena buffer, and calls into the buddy allocator for
//! every address-range change.

use vstd::prelude::*;
use crate::arith::{
    ARENA_SIZE, align_up, lemma_align_up_bounds, lemma_align_up_of_power_of_two,
    round_up_to_power_of_two,
};
use crate::allocated_block::AllocatedBlock;
use crate::free_block::FreeBlock;
use crate::buddy_allocator::{BuddyAllocator, covers, is_best_fit, lemma_full_reclamation};
use crate::memory_block::MemoryBlock;
use crate::error::MemError;

verus! {

/// The total number of bytes held by the allocated blocks.
pub open spec fn alloc_sum(s: Seq<AllocatedBlock>) -> int
    decreases s.len(),
{
    if s.len() == 0 {
        0
    } else {
        s[0].spec_size() + alloc_sum(s.subrange(1, s.len() as int))
    }
}

/// The address `addr` lies inside one of the allocated blocks.
pub open spec fn alloc_covers(s: Seq<AllocatedBlock>, addr: int) -> bool {
    exists|i: int| 0 <= i < s.len() && (#[trigger] s[i]).start <= addr < s[i].end
}

/// The allocated blocks are pairwise disjoint (in any order).
pub open spec fn alloc_disjoint(s: Seq<AllocatedBlock>) -> bool {
    forall|i: int, j: int|
        0 <= i < j < s.len() ==> ((#[trigger] s[i]).end <= (#[trigger] s[j]).start || s[j].end
            <= s[i].start)
}

/// Byte `off` of a payload zero-padded beyond its length.
pub open spec fn padded_byte(data: Seq<u8>, off: int) -> u8 {
    if 0 <= off < data.len() {
        data[off]
    } else {
        0
    }
}

/// Appending a block adds its size to the total.
pub proof fn lemma_alloc_sum_push(s: Seq<AllocatedBlock>, b: AllocatedBlock)
    ensures
        alloc_sum(s.push(b)) == alloc_sum(s) + b.spec_size(),
    decreases s.len(),
{
    let t = s.push(b);
    if s.len() == 0 {
        assert(t[0] == b);
        assert(t.subrange(1, t.len() as int) =~= Seq::<AllocatedBlock>::empty());
        assert(alloc_sum(Seq::<AllocatedBlock>::empty()) == 0);
        assert(alloc_sum(s) == 0);
    } else {
        assert(t[0] == s[0]);
        assert(t.subrange(1, t.len() as int) =~= s.subrange(1, s.len() as int).push(b));
        lemma_alloc_sum_push(s.subrange(1, s.len() as int), b);
    }
}

/// Removing a block subtracts its size from the total.
pub proof fn lemma_alloc_sum_remove(s: Seq<AllocatedBlock>, i: int)
    requires
        0 <= i < s.len(),
    ensures
        alloc_sum(s.remove(i)) == alloc_sum(s) - s[i].spec_size(),
    decreases i,
{
    let t = s.remove(i);
    if i == 0 {
        assert(t =~= s.subrange(1, s.len() as int));
    } else {
        assert(t[0] == s[0]);
        assert(t.subrange(1, t.len() as int) =~= s.subrange(1, s.len() as int).remove(i - 1));
        lemma_alloc_sum_remove(s.subrange(1, s.len() as int), i - 1);
    }
}

/// Replacing a block adjusts the total by the difference of the sizes.
pub proof fn lemma_alloc_sum_update(s: Seq<AllocatedBlock>, i: int, b: AllocatedBlock)
    requires
        0 <= i < s.len(),
    ensures
        alloc_sum(s.update(i, b)) == alloc_sum(s) - s[i].spec_size() + b.spec_size(),
    decreases i,
{
    let t = s.update(i, b);
    if i == 0 {
        assert(t[0] == b);
        assert(t.subrange(1, t.len() as int) =~= s.subrange(1, s.len() as int));
    } else {
        assert(t[0] == s[0]);
        assert(t.subrange(1, t.len() as int) =~= s.subrange(1, s.len() as int).update(i - 1, b));
        lemma_alloc_sum_update(s.subrange(1, s.len() as int), i - 1, b);
    }
}

/// Appending a block extends coverage by exactly its range.
pub proof fn lemma_alloc_covers_push(s: Seq<AllocatedBlock>, b: AllocatedBlock)
    ensures
        forall|addr: int|
            #[trigger] alloc_covers(s.push(b), addr) <==> (alloc_covers(s, addr) || (b.start
                <= addr < b.end)),
{
    let t = s.push(b);
    assert forall|addr: int| alloc_covers(t, addr) implies (alloc_covers(s, addr) || (b.start
        <= addr < b.end)) by {
        let k = choose|k: int| 0 <= k < t.len() && (#[trigger] t[k]).start <= addr < t[k].end;
        if k < s.len() {
            assert(s[k].start <= addr < s[k].end);
        }
    }
    assert forall|addr: int| (alloc_covers(s, addr) || (b.start <= addr < b.end)) implies
        alloc_covers(t, addr) by {
        if b.start <= addr < b.end {
            assert(t[s.len() as int].start <= addr < t[s.len() as int].end);
        } else {
            let k = choose|k: int| 0 <= k < s.len() && (#[trigger] s[k]).start <= addr < s[k].end;
            assert(t[k].start <= addr < t[k].end);
        }
    }
}

/// Removing a block from a disjoint family removes exactly its range.
pub proof fn lemma_alloc_covers_remove(s: Seq<AllocatedBlock>, i: int)
    requires
        0 <= i < s.len(),
        alloc_disjoint(s),
    ensures
        forall|addr: int|
            #[trigger] alloc_covers(s.remove(i), addr) <==> (alloc_covers(s, addr) && !(
            s[i].start <= addr < s[i].end)),
{
    s.remove_ensures(i);
    let t = s.remove(i);
    assert forall|addr: int| alloc_covers(t, addr) implies (alloc_covers(s, addr) && !(
    s[i].start <= addr < s[i].end)) by {
        let k = choose|k: int| 0 <= k < t.len() && (#[trigger] t[k]).start <= addr < t[k].end;
        if k < i {
            assert(s[k].start <= addr < s[k].end);
        } else {
            assert(s[k + 1].start <= addr < s[k + 1].end);
        }
    }
    assert forall|addr: int| (alloc_covers(s, addr) && !(s[i].start <= addr < s[i].end)) implies
        alloc_covers(t, addr) by {
        let k = choose|k: int| 0 <= k < s.len() && (#[trigger] s[k]).start <= addr < s[k].end;
        if k < i {
            assert(t[k].start <= addr < t[k].end);
        } else {
            assert(t[k - 1].start <= addr < t[k - 1].end);
        }
    }
}

/// Replacing a block swaps its range out of the coverage for the new one.
pub proof fn lemma_alloc_covers_update(s: Seq<AllocatedBlock>, i: int, b: AllocatedBlock)
    requires
        0 <= i < s.len(),
        alloc_disjoint(s),
    ensures
        forall|addr: int|
            #[trigger] alloc_covers(s.update(i, b), addr) <==> ((alloc_covers(s, addr) && !(
            s[i].start <= addr < s[i].end)) || (b.start <= addr < b.end)),
{
    let t = s.update(i, b);
    assert forall|addr: int| alloc_covers(t, addr) implies ((alloc_covers(s, addr) && !(
    s[i].start <= addr < s[i].end)) || (b.start <= addr < b.end)) by {
        let k = choose|k: int| 0 <= k < t.len() && (#[trigger] t[k]).start <= addr < t[k].end;
        if k != i {
            assert(s[k].start <= addr < s[k].end);
        }
    }
    assert forall|addr: int| ((alloc_covers(s, addr) && !(s[i].start <= addr < s[i].end)) || (
    b.start <= addr < b.end)) implies alloc_covers(t, addr) by {
        if b.start <= addr < b.end {
            assert(t[i].start <= addr < t[i].end);
        } else {
            let k = choose|k: int| 0 <= k < s.len() && (#[trigger] s[k]).start <= addr < s[k].end;
            assert(t[k].start <= addr < t[k].end);
        }
    }
}

/// Two block families with the same ranges cover the same addresses.
pub proof fn lemma_alloc_covers_congruent(s1: Seq<AllocatedBlock>, s2: Seq<AllocatedBlock>)
    requires
        s1.len() == s2.len(),
        forall|i: int|
            0 <= i < s1.len() ==> (#[trigger] s1[i]).start == (#[trigger] s2[i]).start
                && s1[i].end == s2[i].end,
    ensures
        forall|addr: int|
            #![trigger alloc_covers(s1, addr)]
            #![trigger alloc_covers(s2, addr)]
            alloc_covers(s1, addr) <==> alloc_covers(s2, addr),
{
    assert forall|addr: int| alloc_covers(s1, addr) implies alloc_covers(s2, addr) by {
        let k = choose|k: int| 0 <= k < s1.len() && (#[trigger] s1[k]).start <= addr < s1[k].end;
        assert(s2[k].start <= addr < s2[k].end);
    }
    assert forall|addr: int| alloc_covers(s2, addr) implies alloc_covers(s1, addr) by {
        let k = choose|k: int| 0 <= k < s2.len() && (#[trigger] s2[k]).start <= addr < s2[k].end;
        assert(s1[k].start <= addr < s1[k].end);
    }
}

/// Two block families with the same ranges hold the same number of bytes.
pub proof fn lemma_alloc_sum_congruent(s1: Seq<AllocatedBlock>, s2: Seq<AllocatedBlock>)
    requires
        s1.len() == s2.len(),
        forall|i: int|
            0 <= i < s1.len() ==> (#[trigger] s1[i]).start == (#[trigger] s2[i]).start
                && s1[i].end == s2[i].end,
    ensures
        alloc_sum(s1) == alloc_sum(s2),
    decreases s1.len(),
{
    if s1.len() == 0 {
    } else {
        let r1 = s1.subrange(1, s1.len() as int);
        let r2 = s2.subrange(1, s2.len() as int);
        assert forall|i: int|
            0 <= i < r1.len() implies (#[trigger] r1[i]).start == (#[trigger] r2[i]).start
                && r1[i].end == r2[i].end by {
            assert(r1[i] == s1[i + 1] && r2[i] == s2[i + 1]);
        }
        lemma_alloc_sum_congruent(r1, r2);
    }
}

/// Writes `data`, zero-padded up to `count` bytes, at `start`; all other
/// bytes keep their value.
#[verifier::loop_isolation(false)]
fn write_padded(buffer: &mut Vec<u8>, start: usize, count: usize, data: &Vec<u8>)
    requires
        start + count <= old(buffer)@.len(),
        data@.len() <= count,
    ensures
        final(buffer)@.len() == old(buffer)@.len(),
        forall|k: int|
            0 <= k < old(buffer)@.len() ==> #[trigger] final(buffer)@[k] == (if start <= k < start
                + count {
                padded_byte(data@, k - start)
            } else {
                old(buffer)@[k]
            }),
{
    let blen = buffer.len();
    let mut j: usize = 0;
    while j < count
        invariant
            j <= count,
            blen == buffer@.len(),
            buffer@.len() == old(buffer)@.len(),
            forall|k: int|
                0 <= k < buffer@.len() && !(start <= k < start + j) ==> #[trigger] buffer@[k]
                    == old(buffer)@[k],
            forall|k: int|
                start <= k < start + j ==> #[trigger] buffer@[k] == padded_byte(data@, k - start),
        decreases count - j,
    {
        let byte: u8 = if j < data.len() {
            data[j]
        } else {
            0
        };
        buffer.set(start + j, byte);
        j = j + 1;
    }
}

/// The memory manager: the buddy allocator, the arena buffer, the table of
/// allocated blocks, and the payload store, one entry per block.
#[derive(Debug)]
pub struct MemoryManager {
    pub allocator: BuddyAllocator,
    pub buffer: Vec<u8>,
    pub blocks: Vec<AllocatedBlock>,
    pub data_storage: Vec<Vec<u8>>,
    pub next_id: usize,
}

impl MemoryManager {
    /// The structure invariant, holding at every quiescent point.
    pub open spec fn wf(self) -> bool {
        &&& self.allocator.wf()
        &&& self.buffer@.len() == ARENA_SIZE
        &&& self.data_storage@.len() == self.blocks@.len()
        &&& forall|i: int| 0 <= i < self.blocks@.len() ==> (#[trigger] self.blocks@[i]).wf()
        &&& forall|i: int|
            0 <= i < self.blocks@.len() ==> (#[trigger] self.blocks@[i]).data_index == i
        &&& forall|i: int|
            0 <= i < self.blocks@.len() ==> self.data_storage@[i]@.len()
                <= (#[trigger] self.blocks@[i]).spec_size()
        &&& forall|i: int| 0 <= i < self.blocks@.len() ==> (#[trigger] self.blocks@[i]).id
            < self.next_id
        &&& forall|i: int, j: int|
            0 <= i < j < self.blocks@.len() ==> (#[trigger] self.blocks@[i]).id
                != (#[trigger] self.blocks@[j]).id
        &&& alloc_disjoint(self.blocks@)
        &&& forall|addr: int|
            #![trigger covers(self.allocator.free(), addr)]
            #![trigger alloc_covers(self.blocks@, addr)]
            0 <= addr < ARENA_SIZE ==> (covers(self.allocator.free(), addr) <==> !alloc_covers(
                self.blocks@,
                addr,
            ))
        &&& self.allocator.free_total() + alloc_sum(self.blocks@) == ARENA_SIZE
        &&& forall|i: int, addr: int|
            #![trigger self.blocks@[i], self.buffer@[addr]]
            0 <= i < self.blocks@.len() && self.blocks@[i].start <= addr < self.blocks@[i].end
                ==> self.buffer@[addr] == padded_byte(
                self.data_storage@[i]@,
                addr - self.blocks@[i].start,
            )
    }

    /// The id is currently bound to an allocated block.
    pub open spec fn has_id(self, id: int) -> bool {
        exists|i: int| 0 <= i < self.blocks@.len() && (#[trigger] self.blocks@[i]).id == id
    }

    /// The table index of the block bound to the id.
    pub open spec fn index_of(self, id: int) -> int {
        choose|i: int| 0 <= i < self.blocks@.len() && (#[trigger] self.blocks@[i]).id == id
    }

    /// The block bound to the id.
    pub open spec fn block_of(self, id: int) -> AllocatedBlock {
        self.blocks@[self.index_of(id)]
    }

    /// The payload stored for the id.
    pub open spec fn payload_of(self, id: int) -> Seq<u8> {
        self.data_storage@[self.index_of(id)]@
    }

    /// A fresh manager over a zeroed arena, with the whole range free.
    pub fn new() -> (r: MemoryManager)
        ensures
            r.wf(),
            r.blocks@.len() == 0,
            r.data_storage@.len() == 0,
            r.next_id == 0,
            r.buffer@.len() == ARENA_SIZE,
            forall|k: int| 0 <= k < ARENA_SIZE ==> #[trigger] r.buffer@[k] == 0u8,
            r.allocator.free() =~= seq![(FreeBlock { start: 0usize, end: ARENA_SIZE })],
    {
        let allocator = BuddyAllocator::new();
        let mut buffer: Vec<u8> = Vec::new();
        let mut k: usize = 0;
        while k < ARENA_SIZE
            invariant
                k <= ARENA_SIZE,
                buffer@.len() == k,
                forall|j: int| 0 <= j < k ==> #[trigger] buffer@[j] == 0u8,
            decreases ARENA_SIZE - k,
        {
            buffer.push(0);
            k = k + 1;
        }
        let r = MemoryManager {
            allocator,
            buffer,
            blocks: Vec::new(),
            data_storage: Vec::new(),
            next_id: 0,
        };
        proof {
            assert(alloc_sum(r.blocks@) == 0);
            assert forall|addr: int|
                #![trigger covers(r.allocator.free(), addr)]
                #![trigger alloc_covers(r.blocks@, addr)]
                0 <= addr < ARENA_SIZE implies (covers(r.allocator.free(), addr)
                <==> !alloc_covers(r.blocks@, addr)) by {
                assert(r.allocator.free_covers(addr));
            }
        }
        r
    }

    /// The whole arena buffer.
    pub fn get_buffer(&self) -> (r: &[u8])
        ensures
            r@ == self.buffer@,
    {
        self.buffer.as_slice()
    }

    /// The bytes of the arena in `[start, end)`.
    pub fn get_buffer_slice(&self, start: usize, end: usize) -> (r: &[u8])
        requires
            start <= end <= self.buffer@.len(),
        ensures
            r@ == self.buffer@.subrange(start as int, end as int),
    {
        vstd::slice::slice_subrange(self.buffer.as_slice(), start, end)
    }

    /// The payload stored for a block handed out by `find`.
    pub fn get_data(&self, block: &AllocatedBlock) -> (r: &[u8])
        requires
            block.data_index < self.data_storage@.len(),
        ensures
            r@ == self.data_storage@[block.data_index as int]@,
    {
        self.data_storage[block.data_index].as_slice()
    }

    /// Looks the id up; read-only.
    #[verifier::loop_isolation(false)]
    pub fn find(&self, id: usize) -> (r: Result<&AllocatedBlock, MemError>)
        requires
            self.wf(),
        ensures
            match r {
                Ok(b) => self.has_id(id as int) && *b == self.block_of(id as int) && b.id == id
                    && b.data_index < self.data_storage@.len(),
                Err(e) => e == MemError::NotFound && !self.has_id(id as int),
            },
    {
        let n = self.blocks.len();
        let mut i: usize = 0;
        while i < n
            invariant
                i <= n,
                n == self.blocks@.len(),
                forall|k: int| 0 <= k < i ==> (#[trigger] self.blocks@[k]).id != id,
            decreases n - i,
        {
            if self.blocks[i].id == id {
                proof {
                    lemma_index_of_unique(*self, id as int, i as int);
                }
                return Ok(&self.blocks[i]);
            }
            i = i + 1;
        }
        Err(MemError::NotFound)
    }
}

/// How a successful `insert` of `size` bytes holding `data` under the fresh
/// id `id` changes the manager: one block and one payload entry are appended,
/// everything else is kept, and the allocator gives up the rounded size.
pub open spec fn inserted(
    pre: MemoryManager,
    post: MemoryManager,
    size: usize,
    data: Seq<u8>,
    id: usize,
) -> bool {
    &&& post.wf()
    &&& id == pre.next_id
    &&& post.next_id == pre.next_id + 1
    &&& post.blocks@.len() == pre.blocks@.len() + 1
    &&& post.data_storage@.len() == post.blocks@.len()
    &&& forall|i: int| 0 <= i < pre.blocks@.len() ==> #[trigger] post.blocks@[i] == pre.blocks@[i]
    &&& forall|i: int|
        0 <= i < pre.data_storage@.len() ==> (#[trigger] post.data_storage@[i])@
            == pre.data_storage@[i]@
    &&& post.blocks@.last().id == id
    &&& post.blocks@.last().data_index == pre.blocks@.len()
    &&& post.blocks@.last().spec_size() == align_up(size as int)
    &&& post.data_storage@.last()@ == data
    &&& exists|i: int|
        #[trigger] is_best_fit(pre.allocator.free(), i, align_up(size as int))
            && post.blocks@.last().start == pre.allocator.free()[i].start
    &&& forall|addr: int|
        #![trigger covers(post.allocator.free(), addr)]
        #![trigger covers(pre.allocator.free(), addr)]
        covers(post.allocator.free(), addr) <==> (covers(pre.allocator.free(), addr) && !(
        post.blocks@.last().start <= addr < post.blocks@.last().end))
    &&& post.allocator.free_total() == pre.allocator.free_total() - align_up(size as int)
    &&& post.buffer@.len() == pre.buffer@.len()
}

impl MemoryManager {
    /// Allocates a block for `size` bytes, stores `data` in it (zero-padded
    /// to the rounded block size, in the store and in the arena buffer), and
    /// returns the fresh logical id.  Ids are assigned in increasing order
    /// and never reused.
    #[verifier::loop_isolation(false)]
    pub fn insert(&mut self, size: usize, data: Vec<u8>) -> (r: Result<usize, MemError>)
        requires
            old(self).wf(),
            data@.len() <= size,
        ensures
            final(self).wf(),
            match r {
                Ok(id) => inserted(*old(self), *final(self), size, data@, id),
                Err(e) => ({
                    &&& *final(self) == *old(self)
                    &&& (e == MemError::InvalidSize <==> size == 0)
                    &&& (e == MemError::OutOfMemory <==> (size > 0 && (!old(
                        self,
                    ).allocator.has_fit(size as int) || old(self).next_id == usize::MAX)))
                    &&& (e == MemError::InvalidSize || e == MemError::OutOfMemory)
                }),
            },
    {
        if size == 0 {
            return Err(MemError::InvalidSize);
        }
        if self.next_id == usize::MAX {
            return Err(MemError::OutOfMemory);
        }
        let ghost pre = *self;
        let start = match self.allocator.allocate(size) {
            Ok(start) => start,
            Err(e) => {
                proof {
                    assert(*self == pre);
                }
                return Err(MemError::OutOfMemory);
            },
        };
        proof {
            lemma_align_up_bounds(size as int);
        }
        let a = round_up_to_power_of_two(size);
        proof {
            // The fresh range was free, so it avoids every allocated block.
            assert forall|i: int|
                0 <= i < pre.blocks@.len() implies ((#[trigger] pre.blocks@[i]).end <= start
                || start + a <= pre.blocks@[i].start) by {
                let blk = pre.blocks@[i];
                if !(blk.end <= start || start + a <= blk.start) {
                    let w: int = if blk.start <= start {
                        start as int
                    } else {
                        blk.start as int
                    };
                    assert(blk.wf());
                    assert(blk.start <= w < blk.end);
                    assert(start <= w < start + a);
                    assert(alloc_covers(pre.blocks@, w));
                    assert(covers(pre.allocator.free(), w));
                }
            }
        }
        let id = self.next_id;
        let bi = self.blocks.len();
        write_padded(&mut self.buffer, start, a, &data);
        let nb = AllocatedBlock::new(id, start, start + a, bi);
        self.blocks.push(nb);
        self.data_storage.push(data);
        self.next_id = self.next_id + 1;
        proof {
            lemma_alloc_covers_push(pre.blocks@, nb);
            lemma_alloc_sum_push(pre.blocks@, nb);
            assert(nb.wf());
            assert(self.blocks@ == pre.blocks@.push(nb));
            assert forall|addr: int|
                #![trigger covers(self.allocator.free(), addr)]
                #![trigger alloc_covers(self.blocks@, addr)]
                0 <= addr < ARENA_SIZE implies (covers(self.allocator.free(), addr)
                <==> !alloc_covers(self.blocks@, addr)) by {
                assert(alloc_covers(pre.blocks@.push(nb), addr) <==> (alloc_covers(
                    pre.blocks@,
                    addr,
                ) || (nb.start <= addr < nb.end)));
                assert(covers(pre.allocator.free(), addr) <==> !alloc_covers(pre.blocks@, addr));
                if start <= addr < start + a {
                    assert(covers(pre.allocator.free(), addr));
                }
            }
            assert forall|i: int, addr: int|
                #![trigger self.blocks@[i], self.buffer@[addr]]
                0 <= i < self.blocks@.len() && self.blocks@[i].start <= addr
                    < self.blocks@[i].end implies self.buffer@[addr] == padded_byte(
                self.data_storage@[i]@,
                addr - self.blocks@[i].start,
            ) by {
                if i < pre.blocks@.len() {
                    assert(self.blocks@[i] == pre.blocks@[i]);
                    assert(self.data_storage@[i] == pre.data_storage@[i]);
                    assert(pre.blocks@[i].end <= start || start + a <= pre.blocks@[i].start);
                    assert(self.buffer@[addr] == pre.buffer@[addr]);
                    assert(pre.buffer@[addr] == padded_byte(
                        pre.data_storage@[i]@,
                        addr - pre.blocks@[i].start,
                    ));
                } else {
                    assert(self.blocks@[i] == nb);
                    assert(self.buffer@[addr] == padded_byte(data@, addr - start));
                }
            }
            assert(inserted(pre, *self, size, data@, id));
        }
        Ok(id)
    }
}

/// How a successful `delete` of `id` changes the manager: the block and its
/// payload leave the table (later entries shift down one slot, keeping their
/// ids, regions and payloads), the id counter stands so the id is never
/// reassigned, and the freed bytes return to the allocator.
pub open spec fn deleted(pre: MemoryManager, post: MemoryManager, id: usize) -> bool {
    let bi = pre.index_of(id as int);
    &&& post.wf()
    &&& pre.has_id(id as int)
    &&& !post.has_id(id as int)
    &&& post.next_id == pre.next_id
    &&& post.blocks@.len() + 1 == pre.blocks@.len()
    &&& post.data_storage@.len() == post.blocks@.len()
    &&& forall|i: int| 0 <= i < bi ==> #[trigger] post.blocks@[i] == pre.blocks@[i]
    &&& forall|i: int|
        0 <= i < bi ==> (#[trigger] post.data_storage@[i])@ == pre.data_storage@[i]@
    &&& forall|i: int|
        bi <= i < post.blocks@.len() ==> ((#[trigger] post.blocks@[i]).id == pre.blocks@[i
            + 1].id && post.blocks@[i].start == pre.blocks@[i + 1].start && post.blocks@[i].end
            == pre.blocks@[i + 1].end && post.blocks@[i].data_index == i)
    &&& forall|i: int|
        bi <= i < post.data_storage@.len() ==> (#[trigger] post.data_storage@[i])@
            == pre.data_storage@[i + 1]@
    &&& post.buffer@ == pre.buffer@
    &&& forall|addr: int|
        #![trigger covers(post.allocator.free(), addr)]
        #![trigger covers(pre.allocator.free(), addr)]
        covers(post.allocator.free(), addr) <==> (covers(pre.allocator.free(), addr) || (
        pre.block_of(id as int).start <= addr < pre.block_of(id as int).end))
    &&& post.allocator.free_total() == pre.allocator.free_total() + pre.block_of(
        id as int,
    ).spec_size()
}

impl MemoryManager {
    /// Deletes the block bound to `id`, returning its range to the buddy
    /// allocator (which coalesces it) and discarding the stored payload.
    #[verifier::loop_isolation(false)]
    pub fn delete(&mut self, id: usize) -> (r: Result<(), MemError>)
        requires
            old(self).wf(),
        ensures
            final(self).wf(),
            match r {
                Ok(()) => deleted(*old(self), *final(self), id),
                Err(e) => ({
                    &&& *final(self) == *old(self)
                    &&& e == MemError::NotFound
                    &&& !old(self).has_id(id as int)
                }),
            },
            r is Ok <==> old(self).has_id(id as int),
    {
        let n = self.blocks.len();
        let mut bi: usize = 0;
        while bi < n && self.blocks[bi].id != id
            invariant
                bi <= n,
                forall|k: int| 0 <= k < bi ==> (#[trigger] self.blocks@[k]).id != id,
            decreases n - bi,
        {
            bi = bi + 1;
        }
        if bi == n {
            return Err(MemError::NotFound);
        }
        proof {
            lemma_index_of_unique(*self, id as int, bi as int);
        }
        let ghost pre = *self;
        let block = self.blocks[bi];
        self.blocks.remove(bi);
        self.data_storage.remove(bi);

        // Entries above the removed slot keep their payloads one position
        // lower; their stored indices follow.
        let n2 = self.blocks.len();
        let mut k = bi;
        while k < n2
            invariant
                bi <= k <= n2,
                n2 == self.blocks@.len(),
                n2 + 1 == pre.blocks@.len(),
                self.data_storage@ == pre.data_storage@.remove(bi as int),
                self.buffer == pre.buffer,
                self.allocator == pre.allocator,
                self.next_id == pre.next_id,
                forall|i: int| 0 <= i < bi ==> #[trigger] self.blocks@[i] == pre.blocks@[i],
                forall|i: int|
                    bi <= i < k ==> ((#[trigger] self.blocks@[i]).id == pre.blocks@[i + 1].id
                        && self.blocks@[i].start == pre.blocks@[i + 1].start
                        && self.blocks@[i].end == pre.blocks@[i + 1].end
                        && self.blocks@[i].data_index == i),
                forall|i: int| k <= i < n2 ==> #[trigger] self.blocks@[i] == pre.blocks@[i + 1],
            decreases n2 - k,
        {
            let b = self.blocks[k];
            let nb = AllocatedBlock::new(b.id, b.start, b.end, b.data_index - 1);
            self.blocks.set(k, nb);
            k = k + 1;
        }

        proof {
            lemma_align_up_of_power_of_two(block.spec_size());
            assert forall|addr: int|
                block.start <= addr < block.start + block.spec_size() implies !covers(
                pre.allocator.free(),
                addr,
            ) by {
                assert(pre.blocks@[bi as int].start <= addr < pre.blocks@[bi as int].end);
                assert(alloc_covers(pre.blocks@, addr));
            }
        }
        let res = self.allocator.deallocate(block.start, block.size());
        match res {
            Ok(()) => {},
            Err(e) => {
                proof {
                    assert(false);
                }
                return Err(e);
            },
        }

        proof {
            let rem = pre.blocks@.remove(bi as int);
            pre.blocks@.remove_ensures(bi as int);
            lemma_alloc_covers_remove(pre.blocks@, bi as int);
            lemma_alloc_sum_remove(pre.blocks@, bi as int);
            assert forall|i: int|
                0 <= i < self.blocks@.len() implies ((#[trigger] self.blocks@[i]).start
                == (#[trigger] rem[i]).start && self.blocks@[i].end == rem[i].end
                && self.blocks@[i].id == rem[i].id) by {
                if i < bi {
                    assert(rem[i] == pre.blocks@[i]);
                } else {
                    assert(rem[i] == pre.blocks@[i + 1]);
                }
            }
            lemma_alloc_covers_congruent(self.blocks@, rem);
            lemma_alloc_sum_congruent(self.blocks@, rem);
            // The freed range rejoins the free set; everything else keeps
            // its side of the partition.
            assert forall|addr: int|
                #![trigger covers(self.allocator.free(), addr)]
                #![trigger alloc_covers(self.blocks@, addr)]
                0 <= addr < ARENA_SIZE implies (covers(self.allocator.free(), addr)
                <==> !alloc_covers(self.blocks@, addr)) by {
                assert(covers(pre.allocator.free(), addr) <==> !alloc_covers(pre.blocks@, addr));
                assert(alloc_covers(self.blocks@, addr) <==> alloc_covers(rem, addr));
                assert(alloc_covers(rem, addr) <==> (alloc_covers(pre.blocks@, addr) && !(
                pre.blocks@[bi as int].start <= addr < pre.blocks@[bi as int].end)));
            }
            // Bytes of the remaining blocks are untouched.
            assert forall|i: int, addr: int|
                #![trigger self.blocks@[i], self.buffer@[addr]]
                0 <= i < self.blocks@.len() && self.blocks@[i].start <= addr
                    < self.blocks@[i].end implies self.buffer@[addr] == padded_byte(
                self.data_storage@[i]@,
                addr - self.blocks@[i].start,
            ) by {
                let j: int = if i < bi {
                    i
                } else {
                    i + 1
                };
                assert(self.blocks@[i].start == pre.blocks@[j].start && self.blocks@[i].end
                    == pre.blocks@[j].end);
                assert(self.data_storage@[i]@ == pre.data_storage@[j]@);
                assert(pre.buffer@[addr] == padded_byte(
                    pre.data_storage@[j]@,
                    addr - pre.blocks@[j].start,
                ));
            }
            assert(!self.has_id(id as int)) by {
                if self.has_id(id as int) {
                    let i = choose|i: int|
                        0 <= i < self.blocks@.len() && (#[trigger] self.blocks@[i]).id == id;
                    let j: int = if i < bi {
                        i
                    } else {
                        i + 1
                    };
                    assert(pre.blocks@[j].id == id);
                    if j < bi {
                        assert(pre.blocks@[j].id != pre.blocks@[bi as int].id);
                    } else {
                        assert(pre.blocks@[bi as int].id != pre.blocks@[j].id);
                    }
                }
            }
            assert(deleted(pre, *self, id));
        }
        Ok(())
    }
}

/// How a successful `update` of `id` with `data` changes the manager: the
/// payload is replaced; if it still fits the block the region is untouched,
/// otherwise the id is rebound to a freshly allocated region sized to the
/// data and the old one is released.  The id and every other entry stand.
pub open spec fn updated(pre: MemoryManager, post: MemoryManager, id: usize, data: Seq<u8>) -> bool {
    let bi = pre.index_of(id as int);
    &&& post.wf()
    &&& pre.has_id(id as int)
    &&& data.len() >= 1
    &&& post.next_id == pre.next_id
    &&& post.blocks@.len() == pre.blocks@.len()
    &&& post.data_storage@.len() == post.blocks@.len()
    &&& forall|i: int|
        0 <= i < pre.blocks@.len() && i != bi ==> #[trigger] post.blocks@[i] == pre.blocks@[i]
    &&& forall|i: int|
        0 <= i < pre.blocks@.len() && i != bi ==> (#[trigger] post.data_storage@[i])@
            == pre.data_storage@[i]@
    &&& post.blocks@[bi].id == id
    &&& post.blocks@[bi].data_index == bi
    &&& post.data_storage@[bi]@ == data
    &&& (if data.len() <= pre.blocks@[bi].spec_size() {
        post.blocks@[bi] == pre.blocks@[bi] && post.allocator == pre.allocator
    } else {
        post.blocks@[bi].spec_size() == align_up(data.len() as int)
            && post.allocator.free_total() == pre.allocator.free_total() + pre.blocks@[bi].spec_size()
            - align_up(data.len() as int)
            && (exists|i: int|
            #[trigger] is_best_fit(pre.allocator.free(), i, align_up(data.len() as int))
                && post.blocks@[bi].start == pre.allocator.free()[i].start)
            && forall|addr: int|
            #![trigger covers(post.allocator.free(), addr)]
            #![trigger covers(pre.allocator.free(), addr)]
            covers(post.allocator.free(), addr) <==> ((covers(pre.allocator.free(), addr) && !(
            post.blocks@[bi].start <= addr < post.blocks@[bi].end)) || (pre.blocks@[bi].start
                <= addr < pre.blocks@[bi].end))
    })
}

impl MemoryManager {
    /// Replaces the payload of `id` with `data`.  Data that still fits the
    /// current block is overwritten in place, leaving the region unchanged;
    /// larger data moves the id to a freshly allocated block before the old
    /// one is released.  Either way the id is preserved.
    #[verifier::loop_isolation(false)]
    pub fn update(&mut self, id: usize, data: Vec<u8>) -> (r: Result<(), MemError>)
        requires
            old(self).wf(),
        ensures
            final(self).wf(),
            match r {
                Ok(()) => updated(*old(self), *final(self), id, data@),
                Err(e) => ({
                    &&& *final(self) == *old(self)
                    &&& (e == MemError::NotFound <==> !old(self).has_id(id as int))
                    &&& (e == MemError::InvalidSize <==> (old(self).has_id(id as int)
                        && data@.len() == 0))
                    &&& (e == MemError::OutOfMemory <==> (old(self).has_id(id as int)
                        && data@.len() > old(self).block_of(id as int).spec_size() && !old(
                        self,
                    ).allocator.has_fit(data@.len() as int)))
                    &&& (e == MemError::NotFound || e == MemError::InvalidSize || e
                        == MemError::OutOfMemory)
                }),
            },
    {
        let n = self.blocks.len();
        let mut bi: usize = 0;
        while bi < n && self.blocks[bi].id != id
            invariant
                bi <= n,
                forall|k: int| 0 <= k < bi ==> (#[trigger] self.blocks@[k]).id != id,
            decreases n - bi,
        {
            bi = bi + 1;
        }
        if bi == n {
            return Err(MemError::NotFound);
        }
        proof {
            lemma_index_of_unique(*self, id as int, bi as int);
        }
        if data.len() == 0 {
            return Err(MemError::InvalidSize);
        }
        let ghost pre = *self;
        let block = self.blocks[bi];
        let bsize = block.size();
        if data.len() > bsize {
            // The data outgrew the block: move the id to a fresh region.
            let new_start = match self.allocator.allocate(data.len()) {
                Ok(s) => s,
                Err(e) => {
                    proof {
                        assert(*self == pre);
                    }
                    return Err(MemError::OutOfMemory);
                },
            };
            proof {
                lemma_align_up_bounds(data@.len() as int);
            }
            let a = round_up_to_power_of_two(data.len());
            proof {
                // The fresh range was free, so it avoids every block.
                assert forall|i: int|
                    0 <= i < pre.blocks@.len() implies ((#[trigger] pre.blocks@[i]).end
                    <= new_start || new_start + a <= pre.blocks@[i].start) by {
                    let blk = pre.blocks@[i];
                    if !(blk.end <= new_start || new_start + a <= blk.start) {
                        let w: int = if blk.start <= new_start {
                            new_start as int
                        } else {
                            blk.start as int
                        };
                        assert(blk.wf());
                        assert(blk.start <= w < blk.end);
                        assert(new_start <= w < new_start + a);
                        assert(alloc_covers(pre.blocks@, w));
                        assert(covers(pre.allocator.free(), w));
                    }
                }
            }
            write_padded(&mut self.buffer, new_start, a, &data);
            let ghost mid = *self;
            proof {
                lemma_align_up_of_power_of_two(block.spec_size());
                assert forall|addr: int|
                    block.start <= addr < block.start + block.spec_size() implies !covers(
                    mid.allocator.free(),
                    addr,
                ) by {
                    assert(pre.blocks@[bi as int].start <= addr < pre.blocks@[bi as int].end);
                    assert(alloc_covers(pre.blocks@, addr));
                    assert(!covers(pre.allocator.free(), addr));
                }
            }
            let res = self.allocator.deallocate(block.start, bsize);
            match res {
                Ok(()) => {},
                Err(e) => {
                    proof {
                        assert(false);
                    }
                    return Err(e);
                },
            }
            let nb = AllocatedBlock::new(id, new_start, new_start + a, bi);
            self.blocks.set(bi, nb);
            self.data_storage.set(bi, data);
            proof {
                lemma_alloc_covers_update(pre.blocks@, bi as int, nb);
                lemma_alloc_sum_update(pre.blocks@, bi as int, nb);
                assert(nb.wf());
                assert(self.blocks@ == pre.blocks@.update(bi as int, nb));
                assert forall|addr: int|
                    #![trigger covers(self.allocator.free(), addr)]
                    #![trigger alloc_covers(self.blocks@, addr)]
                    0 <= addr < ARENA_SIZE implies (covers(self.allocator.free(), addr)
                    <==> !alloc_covers(self.blocks@, addr)) by {
                    assert(alloc_covers(pre.blocks@.update(bi as int, nb), addr) <==> ((
                    alloc_covers(pre.blocks@, addr) && !(pre.blocks@[bi as int].start <= addr
                        < pre.blocks@[bi as int].end)) || (nb.start <= addr < nb.end)));
                    assert(covers(pre.allocator.free(), addr) <==> !alloc_covers(
                        pre.blocks@,
                        addr,
                    ));
                    if new_start <= addr < new_start + a {
                        assert(covers(pre.allocator.free(), addr));
                    }
                }
                assert forall|i: int, addr: int|
                    #![trigger self.blocks@[i], self.buffer@[addr]]
                    0 <= i < self.blocks@.len() && self.blocks@[i].start <= addr
                        < self.blocks@[i].end implies self.buffer@[addr] == padded_byte(
                    self.data_storage@[i]@,
                    addr - self.blocks@[i].start,
                ) by {
                    if i == bi {
                        assert(self.blocks@[i] == nb);
                        assert(self.buffer@[addr] == padded_byte(data@, addr - new_start));
                    } else {
                        assert(self.blocks@[i] == pre.blocks@[i]);
                        assert(self.data_storage@[i] == pre.data_storage@[i]);
                        assert(pre.blocks@[i].end <= new_start || new_start + a
                            <= pre.blocks@[i].start);
                        assert(self.buffer@[addr] == pre.buffer@[addr]);
                        assert(pre.buffer@[addr] == padded_byte(
                            pre.data_storage@[i]@,
                            addr - pre.blocks@[i].start,
                        ));
                    }
                }
                assert(updated(pre, *self, id, data@));
            }
            Ok(())
        } else {
            // The data still fits: overwrite in place, region unchanged.
            write_padded(&mut self.buffer, block.start, bsize, &data);
            self.data_storage.set(bi, data);
            proof {
                assert forall|i: int, addr: int|
                    #![trigger self.blocks@[i], self.buffer@[addr]]
                    0 <= i < self.blocks@.len() && self.blocks@[i].start <= addr
                        < self.blocks@[i].end implies self.buffer@[addr] == padded_byte(
                    self.data_storage@[i]@,
                    addr - self.blocks@[i].start,
                ) by {
                    if i == bi {
                        assert(self.buffer@[addr] == padded_byte(data@, addr - block.start));
                    } else {
                        // Its range avoids the rewritten one: blocks are disjoint.
                        let lo: int = if i < bi {
                            i
                        } else {
                            bi as int
                        };
                        let hi: int = if i < bi {
                            bi as int
                        } else {
                            i
                        };
                        assert(pre.blocks@[lo].end <= pre.blocks@[hi].start || pre.blocks@[hi].end
                            <= pre.blocks@[lo].start);
                        assert(self.buffer@[addr] == pre.buffer@[addr]);
                        assert(pre.buffer@[addr] == padded_byte(
                            pre.data_storage@[i]@,
                            addr - pre.blocks@[i].start,
                        ));
                    }
                }
                assert(updated(pre, *self, id, data@));
            }
            Ok(())
        }
    }
}

/// The snapshot entry is literally one of the manager's blocks.
pub open spec fn dump_entry_matches(m: MemoryManager, e: MemoryBlock) -> bool {
    match e {
        MemoryBlock::Free(fb) => exists|i: int|
            0 <= i < m.allocator.free().len() && #[trigger] m.allocator.free()[i] == fb,
        MemoryBlock::Allocated(ab) => exists|i: int|
            0 <= i < m.blocks@.len() && #[trigger] m.blocks@[i] == ab,
    }
}

/// Two blocks of the manager (free or allocated) that share an address are
/// the same block: each family is pairwise disjoint, and the partition keeps
/// the two families apart.
pub proof fn lemma_blocks_overlap_unique(m: MemoryManager, x: MemoryBlock, y: MemoryBlock, w: int)
    requires
        m.wf(),
        dump_entry_matches(m, x),
        dump_entry_matches(m, y),
        x.spec_start() <= w < x.spec_end(),
        y.spec_start() <= w < y.spec_end(),
    ensures
        x == y,
{
    match x {
        MemoryBlock::Free(fa) => {
            let i = choose|i: int|
                0 <= i < m.allocator.free().len() && #[trigger] m.allocator.free()[i] == fa;
            assert(m.allocator.free()[i].wf());
            assert(covers(m.allocator.free(), w)) by {
                assert(m.allocator.free()[i].start <= w < m.allocator.free()[i].end);
            }
            match y {
                MemoryBlock::Free(fb) => {
                    let j = choose|j: int|
                        0 <= j < m.allocator.free().len() && #[trigger] m.allocator.free()[j]
                            == fb;
                    if i < j {
                        assert(m.allocator.free()[i].end <= m.allocator.free()[j].start);
                    } else if j < i {
                        assert(m.allocator.free()[j].end <= m.allocator.free()[i].start);
                    }
                },
                MemoryBlock::Allocated(ab) => {
                    let j = choose|j: int|
                        0 <= j < m.blocks@.len() && #[trigger] m.blocks@[j] == ab;
                    assert(alloc_covers(m.blocks@, w)) by {
                        assert(m.blocks@[j].start <= w < m.blocks@[j].end);
                    }
                    assert(false);
                },
            }
        },
        MemoryBlock::Allocated(aa) => {
            let i = choose|i: int| 0 <= i < m.blocks@.len() && #[trigger] m.blocks@[i] == aa;
            assert(m.blocks@[i].wf());
            assert(alloc_covers(m.blocks@, w)) by {
                assert(m.blocks@[i].start <= w < m.blocks@[i].end);
            }
            match y {
                MemoryBlock::Free(fb) => {
                    let j = choose|j: int|
                        0 <= j < m.allocator.free().len() && #[trigger] m.allocator.free()[j]
                            == fb;
                    assert(m.allocator.free()[j].wf());
                    assert(covers(m.allocator.free(), w)) by {
                        assert(m.allocator.free()[j].start <= w < m.allocator.free()[j].end);
                    }
                    assert(false);
                },
                MemoryBlock::Allocated(ab) => {
                    let j = choose|j: int|
                        0 <= j < m.blocks@.len() && #[trigger] m.blocks@[j] == ab;
                    if i < j {
                        assert(m.blocks@[i].end <= m.blocks@[j].start || m.blocks@[j].end
                            <= m.blocks@[i].start);
                    } else if j < i {
                        assert(m.blocks@[j].end <= m.blocks@[i].start || m.blocks@[i].end
                            <= m.blocks@[j].start);
                    }
                },
            }
        },
    }
}

/// A chained sequence of entries running from `lo` to `hi` covers every
/// address between them.
pub proof fn lemma_chain_covers(r: Seq<MemoryBlock>, lo: int, hi: int, addr: int)
    requires
        r.len() >= 1,
        r[0].spec_start() == lo,
        r[r.len() - 1].spec_end() == hi,
        forall|k: int| 0 <= k < r.len() ==> (#[trigger] r[k]).spec_start() < r[k].spec_end(),
        forall|k: int|
            0 <= k < r.len() - 1 ==> (#[trigger] r[k]).spec_end() == r[k + 1].spec_start(),
        lo <= addr < hi,
    ensures
        exists|k: int|
            0 <= k < r.len() && (#[trigger] r[k]).spec_start() <= addr < r[k].spec_end(),
    decreases r.len(),
{
    if addr < r[0].spec_end() {
        assert(r[0].spec_start() <= addr < r[0].spec_end());
    } else {
        assert(r.len() >= 2);
        let t = r.subrange(1, r.len() as int);
        assert forall|k: int|
            0 <= k < t.len() implies (#[trigger] t[k]).spec_start() < t[k].spec_end() by {
            assert(t[k] == r[k + 1]);
        }
        assert forall|k: int|
            0 <= k < t.len() - 1 implies (#[trigger] t[k]).spec_end() == t[k
                + 1].spec_start() by {
            assert(t[k] == r[k + 1] && t[k + 1] == r[k + 2]);
        }
        assert(t[0] == r[1]);
        assert(t[t.len() - 1] == r[r.len() - 1]);
        lemma_chain_covers(t, r[0].spec_end(), hi, addr);
        let k = choose|k: int|
            0 <= k < t.len() && (#[trigger] t[k]).spec_start() <= addr < t[k].spec_end();
        assert(r[k + 1].spec_start() <= addr < r[k + 1].spec_end());
    }
}

impl MemoryManager {
    /// Index of the free block starting at `addr`, if any.
    fn find_free_at(&self, addr: usize) -> (r: Option<usize>)
        ensures
            match r {
                Some(j) => 0 <= j < self.allocator.free().len()
                    && self.allocator.free()[j as int].start == addr,
                None => forall|k: int|
                    0 <= k < self.allocator.free().len() ==> (
                    #[trigger] self.allocator.free()[k]).start != addr,
            },
    {
        let n = self.allocator.free_blocks.len();
        let mut j: usize = 0;
        while j < n
            invariant
                j <= n,
                n == self.allocator.free().len(),
                forall|k: int|
                    0 <= k < j ==> (#[trigger] self.allocator.free()[k]).start != addr,
            decreases n - j,
        {
            if self.allocator.free_blocks[j].start == addr {
                return Some(j);
            }
            j = j + 1;
        }
        None
    }

    /// Index of the allocated block starting at `addr`, if any.
    fn find_alloc_at(&self, addr: usize) -> (r: Option<usize>)
        ensures
            match r {
                Some(j) => 0 <= j < self.blocks@.len() && self.blocks@[j as int].start == addr,
                None => forall|k: int|
                    0 <= k < self.blocks@.len() ==> (#[trigger] self.blocks@[k]).start != addr,
            },
    {
        let n = self.blocks.len();
        let mut j: usize = 0;
        while j < n
            invariant
                j <= n,
                n == self.blocks@.len(),
                forall|k: int| 0 <= k < j ==> (#[trigger] self.blocks@[k]).start != addr,
            decreases n - j,
        {
            if self.blocks[j].start == addr {
                return Some(j);
            }
            j = j + 1;
        }
        None
    }

    /// A snapshot of the arena: every free and every allocated block, in
    /// address order, together partitioning `[0, ARENA_SIZE)`.  Purely
    /// observational.
    #[verifier::loop_isolation(false)]
    pub fn dump(&self) -> (r: Vec<MemoryBlock>)
        requires
            self.wf(),
        ensures
            r@.len() >= 1,
            r@[0].spec_start() == 0,
            r@[r@.len() - 1].spec_end() == ARENA_SIZE,
            forall|k: int| 0 <= k < r@.len() ==> (#[trigger] r@[k]).spec_start() < r@[k].spec_end(),
            forall|k: int|
                0 <= k < r@.len() - 1 ==> (#[trigger] r@[k]).spec_end() == r@[k + 1].spec_start(),
            forall|k: int| 0 <= k < r@.len() ==> dump_entry_matches(*self, #[trigger] r@[k]),
            forall|i: int|
                #![trigger self.allocator.free()[i]]
                0 <= i < self.allocator.free().len() ==> exists|k: int|
                    0 <= k < r@.len() && (#[trigger] r@[k]) == MemoryBlock::Free(
                        self.allocator.free()[i],
                    ),
            forall|i: int|
                #![trigger self.blocks@[i]]
                0 <= i < self.blocks@.len() ==> exists|k: int|
                    0 <= k < r@.len() && (#[trigger] r@[k]) == MemoryBlock::Allocated(
                        self.blocks@[i],
                    ),
    {
        let mut result: Vec<MemoryBlock> = Vec::new();
        let mut addr: usize = 0;
        while addr < ARENA_SIZE
            invariant
                addr <= ARENA_SIZE,
                (result@.len() == 0) <==> (addr == 0),
                result@.len() >= 1 ==> (result@[0].spec_start() == 0 && result@[result@.len()
                    - 1].spec_end() == addr),
                forall|k: int|
                    0 <= k < result@.len() ==> (#[trigger] result@[k]).spec_start()
                        < result@[k].spec_end(),
                forall|k: int|
                    0 <= k < result@.len() - 1 ==> (#[trigger] result@[k]).spec_end()
                        == result@[k + 1].spec_start(),
                forall|k: int|
                    0 <= k < result@.len() ==> dump_entry_matches(*self, #[trigger] result@[k]),
                forall|k: int|
                    0 <= k < self.allocator.free().len() && (
                    #[trigger] self.allocator.free()[k]).start < addr
                        ==> self.allocator.free()[k].end <= addr,
                forall|k: int|
                    0 <= k < self.blocks@.len() && (#[trigger] self.blocks@[k]).start < addr
                        ==> self.blocks@[k].end <= addr,
            decreases ARENA_SIZE - addr,
        {
            let step: usize = match self.find_free_at(addr) {
                Some(j) => {
                    let fb = self.allocator.free_blocks[j];
                    proof {
                        assert(fb.wf());
                    }
                    result.push(MemoryBlock::Free(fb));
                    proof {
                        let ghost ent = MemoryBlock::Free(fb);
                        assert(dump_entry_matches(*self, ent)) by {
                            assert(self.allocator.free()[j as int] == fb);
                        }
                        assert forall|k: int|
                            0 <= k < self.allocator.free().len() && (
                            #[trigger] self.allocator.free()[k]).start < fb.end implies
                            self.allocator.free()[k].end <= fb.end by {
                            let other = self.allocator.free()[k];
                            assert(other.wf());
                            if other.start >= addr {
                                assert(dump_entry_matches(*self, MemoryBlock::Free(other)));
                                lemma_blocks_overlap_unique(
                                    *self,
                                    ent,
                                    MemoryBlock::Free(other),
                                    other.start as int,
                                );
                            }
                        }
                        assert forall|k: int|
                            0 <= k < self.blocks@.len() && (#[trigger] self.blocks@[k]).start
                                < fb.end implies self.blocks@[k].end <= fb.end by {
                            let other = self.blocks@[k];
                            assert(other.wf());
                            if other.start >= addr {
                                assert(dump_entry_matches(*self, MemoryBlock::Allocated(other)));
                                lemma_blocks_overlap_unique(
                                    *self,
                                    ent,
                                    MemoryBlock::Allocated(other),
                                    other.start as int,
                                );
                            }
                        }
                    }
                    fb.end
                },
                None => {
                    match self.find_alloc_at(addr) {
                        Some(j) => {
                            let ab = self.blocks[j];
                            proof {
                                assert(ab.wf());
                            }
                            result.push(MemoryBlock::Allocated(ab));
                            proof {
                                let ghost ent = MemoryBlock::Allocated(ab);
                                assert(dump_entry_matches(*self, ent)) by {
                                    assert(self.blocks@[j as int] == ab);
                                }
                                assert forall|k: int|
                                    0 <= k < self.allocator.free().len() && (
                                    #[trigger] self.allocator.free()[k]).start < ab.end implies
                                    self.allocator.free()[k].end <= ab.end by {
                                    let other = self.allocator.free()[k];
                                    assert(other.wf());
                                    if other.start >= addr {
                                        assert(dump_entry_matches(
                                            *self,
                                            MemoryBlock::Free(other),
                                        ));
                                        lemma_blocks_overlap_unique(
                                            *self,
                                            ent,
                                            MemoryBlock::Free(other),
                                            other.start as int,
                                        );
                                    }
                                }
                                assert forall|k: int|
                                    0 <= k < self.blocks@.len() && (
                                    #[trigger] self.blocks@[k]).start < ab.end implies
                                    self.blocks@[k].end <= ab.end by {
                                    let other = self.blocks@[k];
                                    assert(other.wf());
                                    if other.start >= addr {
                                        assert(dump_entry_matches(
                                            *self,
                                            MemoryBlock::Allocated(other),
                                        ));
                                        lemma_blocks_overlap_unique(
                                            *self,
                                            ent,
                                            MemoryBlock::Allocated(other),
                                            other.start as int,
                                        );
                                    }
                                }
                            }
                            ab.end
                        },
                        None => {
                            proof {
                                if covers(self.allocator.free(), addr as int) {
                                    let k = choose|k: int|
                                        0 <= k < self.allocator.free().len() && (
                                        #[trigger] self.allocator.free()[k]).start <= addr
                                            < self.allocator.free()[k].end;
                                    assert(self.allocator.free()[k].start == addr);
                                } else {
                                    assert(alloc_covers(self.blocks@, addr as int));
                                    let k = choose|k: int|
                                        0 <= k < self.blocks@.len() && (
                                        #[trigger] self.blocks@[k]).start <= addr
                                            < self.blocks@[k].end;
                                    assert(self.blocks@[k].start == addr);
                                }
                                assert(false);
                            }
                            ARENA_SIZE
                        },
                    }
                },
            };
            addr = step;
        }
        proof {
            assert forall|i: int|
                #![trigger self.allocator.free()[i]]
                0 <= i < self.allocator.free().len() implies exists|k: int|
                0 <= k < result@.len() && (#[trigger] result@[k]) == MemoryBlock::Free(
                    self.allocator.free()[i],
                ) by {
                let fb = self.allocator.free()[i];
                assert(fb.wf());
                lemma_chain_covers(result@, 0, ARENA_SIZE as int, fb.start as int);
                let k = choose|k: int|
                    0 <= k < result@.len() && (#[trigger] result@[k]).spec_start() <= fb.start
                        < result@[k].spec_end();
                assert(dump_entry_matches(*self, MemoryBlock::Free(fb)));
                lemma_blocks_overlap_unique(
                    *self,
                    result@[k],
                    MemoryBlock::Free(fb),
                    fb.start as int,
                );
                assert(result@[k] == MemoryBlock::Free(fb));
            }
            assert forall|i: int|
                #![trigger self.blocks@[i]]
                0 <= i < self.blocks@.len() implies exists|k: int|
                0 <= k < result@.len() && (#[trigger] result@[k]) == MemoryBlock::Allocated(
                    self.blocks@[i],
                ) by {
                let ab = self.blocks@[i];
                assert(ab.wf());
                lemma_chain_covers(result@, 0, ARENA_SIZE as int, ab.start as int);
                let k = choose|k: int|
                    0 <= k < result@.len() && (#[trigger] result@[k]).spec_start() <= ab.start
                        < result@[k].spec_end();
                assert(dump_entry_matches(*self, MemoryBlock::Allocated(ab)));
                lemma_blocks_overlap_unique(
                    *self,
                    result@[k],
                    MemoryBlock::Allocated(ab),
                    ab.start as int,
                );
                assert(result@[k] == MemoryBlock::Allocated(ab));
            }
        }
        result
    }
}

/// Conservation: in every well-formed state, the bytes of the free blocks
/// and the bytes of the allocated blocks sum to the arena size.
pub proof fn lemma_conservation(m: MemoryManager)
    requires
        m.wf(),
    ensures
        m.allocator.free_total() + alloc_sum(m.blocks@) == ARENA_SIZE,
{
}

/// Non-overlap: any two distinct blocks of a well-formed state, free or
/// allocated, occupy disjoint address ranges.
pub proof fn lemma_non_overlap(m: MemoryManager)
    requires
        m.wf(),
    ensures
        forall|i: int, j: int|
            0 <= i < j < m.allocator.free().len() ==> (#[trigger] m.allocator.free()[i]).end
                <= (#[trigger] m.allocator.free()[j]).start,
        forall|i: int, j: int|
            0 <= i < j < m.blocks@.len() ==> ((#[trigger] m.blocks@[i]).end
                <= (#[trigger] m.blocks@[j]).start || m.blocks@[j].end <= m.blocks@[i].start),
        forall|i: int, j: int|
            0 <= i < m.allocator.free().len() && 0 <= j < m.blocks@.len() ==> ((
            #[trigger] m.allocator.free()[i]).end <= (#[trigger] m.blocks@[j]).start
                || m.blocks@[j].end <= m.allocator.free()[i].start),
{
    assert forall|i: int, j: int|
        0 <= i < m.allocator.free().len() && 0 <= j < m.blocks@.len() implies ((
    #[trigger] m.allocator.free()[i]).end <= (#[trigger] m.blocks@[j]).start || m.blocks@[j].end
        <= m.allocator.free()[i].start) by {
        let fb = m.allocator.free()[i];
        let ab = m.blocks@[j];
        assert(fb.wf());
        assert(ab.wf());
        if !(fb.end <= ab.start || ab.end <= fb.start) {
            let w: int = if fb.start <= ab.start {
                ab.start as int
            } else {
                fb.start as int
            };
            assert(fb.start <= w < fb.end);
            assert(ab.start <= w < ab.end);
            assert(covers(m.allocator.free(), w));
            assert(alloc_covers(m.blocks@, w));
        }
    }
}

/// Round trip: after a successful insert of `data`, the fresh id resolves
/// to a block carrying it, and the stored payload is exactly `data`.
pub proof fn lemma_insert_find_round_trip(
    pre: MemoryManager,
    post: MemoryManager,
    size: usize,
    data: Seq<u8>,
    id: usize,
)
    requires
        pre.wf(),
        inserted(pre, post, size, data, id),
    ensures
        !pre.has_id(id as int),
        post.has_id(id as int),
        post.block_of(id as int).id == id,
        post.payload_of(id as int) == data,
{
    assert(!pre.has_id(id as int)) by {
        if pre.has_id(id as int) {
            let i = choose|i: int|
                0 <= i < pre.blocks@.len() && (#[trigger] pre.blocks@[i]).id == id;
            assert(pre.blocks@[i].id < pre.next_id);
        }
    }
    let bi = post.blocks@.len() - 1;
    assert(post.blocks@[bi] == post.blocks@.last());
    lemma_index_of_unique(post, id as int, bi);
    assert(post.data_storage@[bi] == post.data_storage@.last());
}

/// Full reclamation: once every block has been deleted — in whatever order —
/// the free set has coalesced back to the single arena-wide block.
pub proof fn lemma_delete_all_reclaims(m: MemoryManager)
    requires
        m.wf(),
        m.blocks@.len() == 0,
    ensures
        m.allocator.free() =~= seq![(FreeBlock { start: 0usize, end: ARENA_SIZE })],
{
    assert(alloc_sum(m.blocks@) == 0);
    lemma_full_reclamation(m.allocator);
}

/// Shrinking or same-size updates are region-stable: when the new data still
/// fits the block, `update` leaves the block's `(start, end)` unchanged.
pub proof fn lemma_update_in_place_keeps_region(
    pre: MemoryManager,
    post: MemoryManager,
    id: usize,
    data: Seq<u8>,
)
    requires
        pre.wf(),
        updated(pre, post, id, data),
        data.len() <= pre.block_of(id as int).spec_size(),
    ensures
        post.has_id(id as int),
        post.block_of(id as int).start == pre.block_of(id as int).start,
        post.block_of(id as int).end == pre.block_of(id as int).end,
{
    let bi = pre.index_of(id as int);
    assert(0 <= bi < pre.blocks@.len() && pre.blocks@[bi].id == id);
    assert(post.blocks@[bi].id == id);
    lemma_index_of_unique(post, id as int, bi);
}

/// Id stability: `update` never changes the externally visible id, even when
/// it relocates the block; the set of live ids is untouched.
pub proof fn lemma_update_preserves_ids(
    pre: MemoryManager,
    post: MemoryManager,
    id: usize,
    data: Seq<u8>,
)
    requires
        pre.wf(),
        updated(pre, post, id, data),
    ensures
        post.has_id(id as int),
        forall|x: int| post.has_id(x) <==> pre.has_id(x),
{
    let bi = pre.index_of(id as int);
    assert(0 <= bi < pre.blocks@.len() && pre.blocks@[bi].id == id);
    assert(post.blocks@[bi].id == id);
    assert(post.has_id(id as int));
    assert forall|x: int| post.has_id(x) implies pre.has_id(x) by {
        let i = choose|i: int| 0 <= i < post.blocks@.len() && (#[trigger] post.blocks@[i]).id == x;
        if i == bi {
            assert(pre.blocks@[bi].id == x);
        } else {
            assert(pre.blocks@[i].id == x);
        }
    }
    assert forall|x: int| pre.has_id(x) implies post.has_id(x) by {
        let i = choose|i: int| 0 <= i < pre.blocks@.len() && (#[trigger] pre.blocks@[i]).id == x;
        if i == bi {
            assert(post.blocks@[bi].id == x);
        } else {
            assert(post.blocks@[i].id == x);
        }
    }
}

/// With distinct ids, the table index of an id is the index of any block
/// that carries it.
pub proof fn lemma_index_of_unique(m: MemoryManager, id: int, i: int)
    requires
        forall|x: int, y: int|
            0 <= x < y < m.blocks@.len() ==> (#[trigger] m.blocks@[x]).id
                != (#[trigger] m.blocks@[y]).id,
        0 <= i < m.blocks@.len(),
        m.blocks@[i].id == id,
    ensures
        m.has_id(id),
        m.index_of(id) == i,
{
    assert(m.has_id(id));
    let j = m.index_of(id);
    if i != j {
        if i < j {
            assert(m.blocks@[i].id != m.blocks@[j].id);
        } else {
            assert(m.blocks@[j].id != m.blocks@[i].id);
        }
    }
}

} // verus!
