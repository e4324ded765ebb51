//! The allocator that owns the finite space of physical block ids.
//!
//! The id space `0 .. num_blocks` is partitioned at every observable
//! point into a free stack (most-recently-freed ids reused first) and a
//! set of allocated ids; no id is ever a member of both or neither.

use std::collections::HashSet;
use vstd::prelude::*;

verus! {

broadcast use vstd::std_specs::hash::group_hash_axioms;

/// The typed failure returned by [`BlockAllocator::free`] when the id
/// handed in is not currently allocated (never allocated, or already
/// freed).
#[derive(Clone, Copy, Debug, PartialEq, Eq, Structural)]
pub struct InvalidFree;

/// Owns the ids `0 .. num_blocks` of the physical storage blocks and
/// hands them out with strict exclusivity.
///
/// Each block holds `block_size` token slots; both bounds are fixed for
/// the lifetime of the allocator.
pub struct BlockAllocator {
    num_blocks: u32,
    block_size: u32,
    free_blocks: Vec<u32>,
    allocated_blocks: HashSet<u32>,
}

impl BlockAllocator {
    /// The free stack: ids not currently allocated, top at the end.
    pub closed spec fn free_stack(self) -> Seq<u32> {
        self.free_blocks@
    }

    /// The ids on the free stack, as a set.
    pub open spec fn free_set(self) -> Set<u32> {
        self.free_stack().to_set()
    }

    /// The ids currently handed out and not yet freed.
    pub closed spec fn allocated(self) -> Set<u32> {
        self.allocated_blocks@
    }

    /// How many block ids exist in total.
    pub closed spec fn spec_num_blocks(self) -> u32 {
        self.num_blocks
    }

    /// How many token slots one block holds.
    pub closed spec fn spec_block_size(self) -> u32 {
        self.block_size
    }

    /// The whole id space owned by this allocator.
    pub open spec fn all_blocks(self) -> Set<u32> {
        Set::new(|b: u32| b < self.spec_num_blocks())
    }

    /// Well-formedness: the free stack holds distinct in-range ids, and
    /// the allocated set is exactly the rest of the id space, so the two
    /// partition `0 .. num_blocks`.
    pub open spec fn wf(self) -> bool {
        &&& self.spec_block_size() >= 1
        &&& forall|i: int, j: int|
            0 <= i < j < self.free_stack().len() ==> self.free_stack()[i] != self.free_stack()[j]
        &&& forall|i: int|
            0 <= i < self.free_stack().len() ==> #[trigger] self.free_stack()[i]
                < self.spec_num_blocks()
        &&& forall|b: u32|
            #[trigger] self.allocated().contains(b) <==> (b < self.spec_num_blocks()
                && !self.free_stack().contains(b))
    }

    /// Builds an allocator owning ids `0 .. num_blocks`, all free, laid
    /// out so that successive `allocate` calls return `0, 1, 2, ...` in
    /// ascending order until exhaustion.
    pub fn new(num_blocks: u32, block_size: u32) -> (r: BlockAllocator)
        requires
            block_size >= 1,
        ensures
            r.wf(),
            r.spec_num_blocks() == num_blocks,
            r.spec_block_size() == block_size,
            r.allocated() =~= Set::<u32>::empty(),
            r.free_stack().len() == num_blocks,
            forall|i: int| 0 <= i < num_blocks ==> r.free_stack()[i] == num_blocks - 1 - i,
    {
        let mut free_blocks: Vec<u32> = Vec::with_capacity(num_blocks as usize);
        let mut remaining: u32 = num_blocks;
        while remaining > 0
            invariant
                remaining <= num_blocks,
                free_blocks@.len() == num_blocks - remaining,
                forall|i: int|
                    0 <= i < free_blocks@.len() ==> free_blocks@[i] == num_blocks - 1 - i,
            decreases remaining,
        {
            free_blocks.push(remaining - 1);
            remaining = remaining - 1;
        }
        let r = BlockAllocator {
            num_blocks,
            block_size,
            free_blocks,
            allocated_blocks: HashSet::new(),
        };
        proof {
            assert forall|b: u32| b < num_blocks implies r.free_blocks@.contains(b) by {
                assert(r.free_blocks@[num_blocks - 1 - b as int] == b);
            }
        }
        r
    }

    /// Pops the top id off the free stack and records it as allocated;
    /// returns the empty result when no free block is left (expected
    /// backpressure, not an error).
    ///
    /// A returned id was not allocated before the call and is never on
    /// the free stack afterwards: it is held exclusively until freed.
    pub fn allocate(&mut self) -> (r: Option<u32>)
        requires
            old(self).wf(),
        ensures
            final(self).wf(),
            final(self).spec_num_blocks() == old(self).spec_num_blocks(),
            final(self).spec_block_size() == old(self).spec_block_size(),
            match r {
                Some(id) => {
                    &&& allocate_returns(*old(self), *final(self), id)
                    &&& !old(self).allocated().contains(id)
                    &&& final(self).allocated().contains(id)
                    &&& !final(self).free_set().contains(id)
                    &&& id < old(self).spec_num_blocks()
                },
                None => {
                    &&& old(self).free_stack().len() == 0
                    &&& final(self).free_stack() == old(self).free_stack()
                    &&& final(self).allocated() == old(self).allocated()
                },
            },
    {
        match self.free_blocks.pop() {
            Some(id) => {
                self.allocated_blocks.insert(id);
                proof {
                    self.lemma_allocate_wf(*old(self), id);
                }
                Some(id)
            },
            None => {
                proof {
                    assert(self.free_stack() == old(self).free_stack());
                    assert(self.allocated() == old(self).allocated());
                }
                None
            },
        }
    }

    /// Helper for `allocate`: popping the top id and inserting it into
    /// the allocated set preserves well-formedness.
    proof fn lemma_allocate_wf(self, pre: BlockAllocator, id: u32)
        requires
            pre.wf(),
            pre.free_stack().len() > 0,
            id == pre.free_stack().last(),
            self.free_stack() == pre.free_stack().drop_last(),
            self.allocated() == pre.allocated().insert(id),
            self.spec_num_blocks() == pre.spec_num_blocks(),
            self.spec_block_size() == pre.spec_block_size(),
        ensures
            self.wf(),
            !self.free_set().contains(id),
    {
        let n = pre.free_stack().len();
        assert forall|b: u32|
            #[trigger] self.allocated().contains(b) implies (b < self.spec_num_blocks()
            && !self.free_stack().contains(b)) by {
            if b == id {
                assert(pre.free_stack()[n - 1] < pre.spec_num_blocks());
                if self.free_stack().contains(b) {
                    let i = choose|i: int|
                        0 <= i < self.free_stack().len() && self.free_stack()[i] == b;
                    assert(pre.free_stack()[i] == pre.free_stack()[n - 1]);
                }
            } else {
                if self.free_stack().contains(b) {
                    let i = choose|i: int|
                        0 <= i < self.free_stack().len() && self.free_stack()[i] == b;
                    assert(pre.free_stack()[i] == b);
                    assert(pre.free_stack().contains(b));
                }
            }
        }
        assert forall|b: u32|
            b < self.spec_num_blocks() && !self.free_stack().contains(b)
            implies self.allocated().contains(b) by {
            if b != id && !pre.allocated().contains(b) {
                assert(pre.free_stack().contains(b));
                let i = choose|i: int| 0 <= i < n && pre.free_stack()[i] == b;
                assert(i < n - 1);
                assert(self.free_stack()[i] == b);
            }
        }
        assert(!self.free_set().contains(id));
    }

    /// Validates that `block_id` is currently allocated; if it is not,
    /// fails with [`InvalidFree`] and leaves all state unchanged. On
    /// success, moves `block_id` from the allocated set to the top of
    /// the free stack, so it is the next id `allocate` returns.
    pub fn free(&mut self, block_id: u32) -> (r: Result<(), InvalidFree>)
        requires
            old(self).wf(),
        ensures
            final(self).wf(),
            final(self).spec_num_blocks() == old(self).spec_num_blocks(),
            final(self).spec_block_size() == old(self).spec_block_size(),
            match r {
                Ok(u) => free_accepts(*old(self), *final(self), block_id),
                Err(e) => {
                    &&& !old(self).allocated().contains(block_id)
                    &&& final(self).free_stack() == old(self).free_stack()
                    &&& final(self).allocated() == old(self).allocated()
                },
            },
            r is Ok <==> old(self).allocated().contains(block_id),
    {
        if !self.allocated_blocks.contains(&block_id) {
            return Err(InvalidFree);
        }
        self.allocated_blocks.remove(&block_id);
        self.free_blocks.push(block_id);
        proof {
            self.lemma_free_wf(*old(self), block_id);
        }
        Ok(())
    }

    /// Helper for `free`: moving an allocated id onto the free stack
    /// preserves well-formedness.
    proof fn lemma_free_wf(self, pre: BlockAllocator, id: u32)
        requires
            pre.wf(),
            pre.allocated().contains(id),
            self.free_stack() == pre.free_stack().push(id),
            self.allocated() == pre.allocated().remove(id),
            self.spec_num_blocks() == pre.spec_num_blocks(),
            self.spec_block_size() == pre.spec_block_size(),
        ensures
            self.wf(),
    {
        let n = pre.free_stack().len();
        assert(!pre.free_stack().contains(id));
        assert forall|i: int, j: int|
            0 <= i < j < self.free_stack().len() implies self.free_stack()[i]
            != self.free_stack()[j] by {
            assert(self.free_stack()[i] == pre.free_stack()[i]);
            if j == n {
                assert(pre.free_stack().contains(pre.free_stack()[i]));
            } else {
                assert(self.free_stack()[j] == pre.free_stack()[j]);
            }
        }
        assert forall|i: int|
            0 <= i < self.free_stack().len() implies #[trigger] self.free_stack()[i]
            < self.spec_num_blocks() by {
            if i < n {
                assert(self.free_stack()[i] == pre.free_stack()[i]);
                assert(pre.free_stack()[i] < pre.spec_num_blocks());
            }
        }
        assert forall|b: u32|
            #[trigger] self.allocated().contains(b) implies (b < self.spec_num_blocks()
            && !self.free_stack().contains(b)) by {
            if self.free_stack().contains(b) {
                let i = choose|i: int|
                    0 <= i < self.free_stack().len() && self.free_stack()[i] == b;
                if i < n {
                    assert(pre.free_stack()[i] == b);
                    assert(pre.free_stack().contains(b));
                }
            }
        }
        assert forall|b: u32|
            b < self.spec_num_blocks() && !self.free_stack().contains(b)
            implies self.allocated().contains(b) by {
            if !pre.free_stack().contains(b) {
                assert(pre.allocated().contains(b));
                if b == id {
                    assert(self.free_stack()[n as int] == id);
                    assert(self.free_stack().contains(id));
                }
            } else {
                let i = choose|i: int| 0 <= i < n && pre.free_stack()[i] == b;
                assert(self.free_stack()[i] == b);
            }
        }
    }

    /// How many blocks are still free: a capacity query for admission
    /// control, so callers can decide without provoking a failed
    /// `allocate`.
    pub fn remaining(&self) -> (r: usize)
        ensures
            r == self.free_stack().len(),
    {
        self.free_blocks.len()
    }

    /// The fixed number of token slots one block holds.
    pub fn block_size(&self) -> (r: u32)
        ensures
            r == self.spec_block_size(),
    {
        self.block_size
    }

    /// The fixed total number of block ids this allocator owns.
    pub fn num_blocks(&self) -> (r: u32)
        ensures
            r == self.spec_num_blocks(),
    {
        self.num_blocks
    }
}

/// The observable effect of a successful `allocate` call that returned
/// `id`: `id` was the top of `pre`'s free stack, the stack shrank by
/// that one entry, and the allocated set gained exactly `id`.
pub open spec fn allocate_returns(pre: BlockAllocator, post: BlockAllocator, id: u32) -> bool {
    &&& pre.free_stack().len() > 0
    &&& id == pre.free_stack().last()
    &&& post.free_stack() == pre.free_stack().drop_last()
    &&& post.allocated() == pre.allocated().insert(id)
}

/// The observable effect of a successful `free(id)` call: `id` was
/// allocated in `pre`, moved to the top of the free stack, and left the
/// allocated set.
pub open spec fn free_accepts(pre: BlockAllocator, post: BlockAllocator, id: u32) -> bool {
    &&& pre.allocated().contains(id)
    &&& post.free_stack() == pre.free_stack().push(id)
    &&& post.allocated() == pre.allocated().remove(id)
}

/// At every observable point the free set and the allocated set are
/// disjoint and together cover the whole id space `0 .. num_blocks`:
/// no id is a member of both or neither.
pub proof fn lemma_free_allocated_partition(a: BlockAllocator)
    requires
        a.wf(),
    ensures
        a.free_set().disjoint(a.allocated()),
        a.free_set().union(a.allocated()) =~= a.all_blocks(),
{
}

/// Exclusivity of outstanding blocks: while an id is allocated and has
/// not been freed, no `allocate` call can return it, so two outstanding
/// `allocate` results are never equal without an intervening `free` of
/// that id between them.
pub proof fn lemma_outstanding_not_reallocated(
    pre: BlockAllocator,
    post: BlockAllocator,
    outstanding: u32,
    id: u32,
)
    requires
        pre.wf(),
        pre.allocated().contains(outstanding),
        allocate_returns(pre, post, id),
    ensures
        id != outstanding,
{
    assert(pre.free_stack().contains(id));
}

/// LIFO reuse: immediately after a successful `free` of `id`, the next
/// `allocate` returns `id` again.
pub proof fn lemma_lifo_reuse(
    a0: BlockAllocator,
    a1: BlockAllocator,
    a2: BlockAllocator,
    freed: u32,
    reused: u32,
)
    requires
        free_accepts(a0, a1, freed),
        allocate_returns(a1, a2, reused),
    ensures
        reused == freed,
{
}

/// Idempotent resource return: a caller that took the ids `taken` out
/// of the partition and then gave exactly those ids back leaves the
/// allocator's free/allocated partition as it found it.
pub proof fn lemma_release_restores_partition(
    a0: BlockAllocator,
    a1: BlockAllocator,
    a2: BlockAllocator,
    taken: Set<u32>,
)
    requires
        taken.disjoint(a0.allocated()),
        taken.subset_of(a0.free_set()),
        a1.allocated() == a0.allocated().union(taken),
        a1.free_set() == a0.free_set().difference(taken),
        a2.allocated() == a1.allocated().difference(taken),
        a2.free_set() == a1.free_set().union(taken),
    ensures
        a2.allocated() =~= a0.allocated(),
        a2.free_set() =~= a0.free_set(),
{
}

} // verus!
