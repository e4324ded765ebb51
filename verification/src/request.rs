//! One in-flight generation job: its token history, stopping policy,
//! lifecycle state, and the ordered map from logical block index to the
//! physical block id backing it.
//!
//! The request drives allocator calls as its token stream grows and
//! returns every held block when it finishes; while it runs, its map
//! always holds exactly the blocks its token count needs.

use crate::block_allocator::{allocate_returns, BlockAllocator};
use vstd::arithmetic::div_mod::{
    lemma_fundamental_div_mod, lemma_fundamental_div_mod_converse, lemma_mod_pos_bound,
};
use vstd::arithmetic::mul::lemma_mul_inequality;
use vstd::prelude::*;

verus! {

/// Lifecycle state of a [`Request`]. A request is created waiting,
/// runs once admitted into a batch step, and `Finished` is terminal.
/// `WaitingDecode` is a pre-`Running` admission state alongside
/// `WaitingPrefill`; the scheduler that owns the request decides which
/// of the two applies.
#[derive(Clone, Copy, Debug, PartialEq, Eq, Structural)]
pub enum Status {
    WaitingPrefill,
    WaitingDecode,
    Running,
    Finished,
}

/// How many blocks of `block_size` token slots are needed to hold
/// `total` tokens: the least count whose combined capacity reaches
/// `total`.
pub open spec fn blocks_needed(total: nat, block_size: nat) -> nat
    recommends
        block_size > 0,
{
    if total % block_size == 0 {
        total / block_size
    } else {
        total / block_size + 1
    }
}

/// One generation job. `prompt_token_ids` is fixed at creation;
/// `output_token_ids` grows append-only; `mmap` maps each logical block
/// index to the physical block id backing it, a non-owning association
/// that is created by an `allocate` call and destroyed by the matching
/// `free`.
pub struct Request {
    request_id: u32,
    prompt_token_ids: Vec<u32>,
    output_token_ids: Vec<u32>,
    pub status: Status,
    mmap: Vec<u32>,
    max_tokens: u32,
    end_tokens: Vec<u32>,
}

impl Request {
    /// The unique identity of this request.
    pub closed spec fn spec_request_id(self) -> u32 {
        self.request_id
    }

    /// The lifecycle state, as contracts speak of it.
    pub closed spec fn spec_status(self) -> Status {
        self.status
    }

    /// The immutable prompt.
    pub closed spec fn prompt(self) -> Seq<u32> {
        self.prompt_token_ids@
    }

    /// The tokens generated so far.
    pub closed spec fn output(self) -> Seq<u32> {
        self.output_token_ids@
    }

    /// The physical block id backing each logical block index.
    pub closed spec fn mapped(self) -> Seq<u32> {
        self.mmap@
    }

    /// The generation budget.
    pub closed spec fn spec_max_tokens(self) -> u32 {
        self.max_tokens
    }

    /// The token ids that terminate generation when emitted last.
    pub closed spec fn end_tokens_seq(self) -> Seq<u32> {
        self.end_tokens@
    }

    /// How many tokens the request holds in all, prompt and output
    /// together.
    pub open spec fn total_tokens(self) -> nat {
        self.prompt().len() + self.output().len()
    }

    /// The stopping predicate: the generation budget is exhausted, or
    /// the last generated token is one of the end tokens.
    pub open spec fn spec_should_end(self) -> bool {
        ||| self.output().len() >= self.spec_max_tokens()
        ||| (self.output().len() > 0 && self.end_tokens_seq().contains(self.output().last()))
    }

    /// Consistency between this request and the allocator `a` that
    /// backs it: the mapped block ids are distinct and all currently
    /// allocated; a waiting request holds no blocks and no output; a
    /// running request holds exactly the blocks its token count needs;
    /// a finished request holds no blocks at all.
    pub open spec fn valid_with(self, a: BlockAllocator) -> bool {
        &&& forall|i: int, j: int|
            0 <= i < j < self.mapped().len() ==> self.mapped()[i] != self.mapped()[j]
        &&& forall|i: int|
            0 <= i < self.mapped().len() ==> a.allocated().contains(#[trigger] self.mapped()[i])
        &&& (self.spec_status() is WaitingPrefill || self.spec_status() is WaitingDecode) ==> (
        self.mapped().len() == 0 && self.output().len() == 0)
        &&& self.spec_status() is Running ==> self.mapped().len() == blocks_needed(
            self.total_tokens(),
            a.spec_block_size() as nat,
        )
        &&& self.spec_status() is Finished ==> self.mapped().len() == 0
    }

    /// Creates a request waiting for prefill, with no generated tokens
    /// and no blocks held.
    pub fn new(request_id: u32, prompt_token_ids: Vec<u32>, max_tokens: u32, end_tokens: Vec<u32>)
        -> (r: Request)
        ensures
            r.spec_status() is WaitingPrefill,
            r.spec_request_id() == request_id,
            r.prompt() == prompt_token_ids@,
            r.output() == Seq::<u32>::empty(),
            r.mapped() == Seq::<u32>::empty(),
            r.spec_max_tokens() == max_tokens,
            r.end_tokens_seq() == end_tokens@,
    {
        Request {
            request_id,
            prompt_token_ids,
            output_token_ids: Vec::new(),
            status: Status::WaitingPrefill,
            mmap: Vec::new(),
            max_tokens,
            end_tokens,
        }
    }

    /// How many tokens have been generated so far.
    pub fn len(&self) -> (r: usize)
        ensures
            r == self.output().len(),
    {
        self.output_token_ids.len()
    }

    /// Indicates whether any of the stopping conditions of the request
    /// are met: the generation budget is reached, or the last generated
    /// token is an end token. Pure; acting on the result is the
    /// caller's responsibility.
    pub fn should_end(&self) -> (r: bool)
        ensures
            r == self.spec_should_end(),
    {
        if self.output_token_ids.len() >= self.max_tokens as usize {
            return true;
        }
        let n = self.output_token_ids.len();
        if n > 0 {
            let last_token = self.output_token_ids[n - 1];
            if contains_token(&self.end_tokens, last_token) {
                return true;
            }
        }
        false
    }

    /// The block map, for the layer that must locate the physical
    /// storage behind a logical position.
    pub fn mapped_blocks(&self) -> (r: &Vec<u32>)
        ensures
            r@ == self.mapped(),
    {
        &self.mmap
    }

    /// Admits a waiting request into a batch step: acquires the blocks
    /// the prompt needs and transitions to `Running`. Returns `false`,
    /// with the request and the allocator unchanged, when the allocator
    /// cannot cover the prompt — backpressure for the scheduler, not an
    /// error.
    pub fn start(&mut self, allocator: &mut BlockAllocator) -> (ok: bool)
        requires
            old(self).spec_status() is WaitingPrefill || old(self).spec_status() is WaitingDecode,
            old(self).valid_with(*old(allocator)),
            old(allocator).wf(),
        ensures
            final(allocator).wf(),
            final(allocator).spec_num_blocks() == old(allocator).spec_num_blocks(),
            final(allocator).spec_block_size() == old(allocator).spec_block_size(),
            final(self).spec_request_id() == old(self).spec_request_id(),
            final(self).prompt() == old(self).prompt(),
            final(self).output() == old(self).output(),
            final(self).spec_max_tokens() == old(self).spec_max_tokens(),
            final(self).end_tokens_seq() == old(self).end_tokens_seq(),
            ok ==> {
                &&& final(self).spec_status() is Running
                &&& final(self).valid_with(*final(allocator))
                &&& final(self).mapped().len() == blocks_needed(
                    old(self).prompt().len(),
                    old(allocator).spec_block_size() as nat,
                )
                &&& final(allocator).free_stack() == old(allocator).free_stack().take(
                    old(allocator).free_stack().len() - final(self).mapped().len(),
                )
                &&& forall|i: int|
                    0 <= i < final(self).mapped().len() ==> final(self).mapped()[i] == old(
                        allocator,
                    ).free_stack()[old(allocator).free_stack().len() - 1 - i]
                &&& final(allocator).allocated() =~= old(allocator).allocated().union(
                    final(self).mapped().to_set(),
                )
            },
            !ok ==> {
                &&& final(self).spec_status() == old(self).spec_status()
                &&& final(self).mapped() == old(self).mapped()
                &&& final(allocator).free_stack() == old(allocator).free_stack()
                &&& final(allocator).allocated() == old(allocator).allocated()
                &&& old(allocator).free_stack().len() < blocks_needed(
                    old(self).prompt().len(),
                    old(allocator).spec_block_size() as nat,
                )
            },
    {
        let needed = div_ceil_blocks(self.prompt_token_ids.len(), allocator.block_size());
        if allocator.remaining() < needed {
            return false;
        }
        let ghost free0 = allocator.free_stack();
        let ghost alloc0 = allocator.allocated();
        let ghost p0 = self.prompt_token_ids@;
        let ghost o0 = self.output_token_ids@;
        let ghost e0 = self.end_tokens@;
        let ghost mt0 = self.max_tokens;
        let ghost id0 = self.request_id;
        let ghost st0 = self.spec_status();
        let ghost bs0 = allocator.spec_block_size();
        let ghost nb0 = allocator.spec_num_blocks();
        proof {
            assert(free0.take(free0.len() as int) =~= free0);
            assert(alloc0.union(self.mmap@.to_set()) =~= alloc0);
        }
        while self.mmap.len() < needed
            invariant
                allocator.wf(),
                allocator.spec_block_size() == bs0,
                allocator.spec_num_blocks() == nb0,
                self.prompt_token_ids@ == p0,
                self.output_token_ids@ == o0,
                self.end_tokens@ == e0,
                self.max_tokens == mt0,
                self.request_id == id0,
                self.spec_status() == st0,
                self.mmap@.len() <= needed,
                needed <= free0.len(),
                allocator.free_stack() == free0.take(free0.len() - self.mmap@.len()),
                forall|p: int|
                    0 <= p < self.mmap@.len() ==> self.mmap@[p] == free0[free0.len() - 1 - p],
                allocator.allocated() =~= alloc0.union(self.mmap@.to_set()),
            decreases needed - self.mmap@.len(),
        {
            let ghost m_pre = self.mmap@;
            match allocator.allocate() {
                Some(id) => {
                    self.mmap.push(id);
                    proof {
                        assert(self.mmap@ == m_pre.push(id));
                        assert(id == free0[free0.len() - 1 - m_pre.len()]);
                        assert(allocator.free_stack() =~= free0.take(
                            free0.len() - self.mmap@.len(),
                        ));
                        lemma_push_to_set(m_pre, id);
                        assert(allocator.allocated() =~= alloc0.union(self.mmap@.to_set()));
                    }
                },
                None => {
                    // dead branch: the free stack still covers what the loop has left to take
                    proof {
                        assert(false);
                    }
                    return false;
                },
            }
        }
        self.status = Status::Running;
        proof {
            assert forall|i: int, j: int|
                0 <= i < j < self.mmap@.len() implies self.mmap@[i] != self.mmap@[j] by {
                let li = free0.len() - 1 - i;
                let lj = free0.len() - 1 - j;
                assert(self.mmap@[i] == free0[li]);
                assert(self.mmap@[j] == free0[lj]);
                assert(free0[lj] != free0[li]);
            }
            assert forall|i: int|
                0 <= i < self.mmap@.len() implies allocator.allocated().contains(
                #[trigger] self.mmap@[i],
            ) by {
                assert(self.mmap@.to_set().contains(self.mmap@[i]));
            }
        }
        true
    }

    /// Accepts one newly produced token. When the token crosses a
    /// `block_size` boundary not yet covered, one block is requested
    /// from the allocator first and appended to the map. Returns
    /// `false`, with the request and the allocator unchanged, when a
    /// block was needed and none was free — backpressure for the
    /// scheduler, not an error.
    pub fn append_token(&mut self, token: u32, allocator: &mut BlockAllocator) -> (ok: bool)
        requires
            old(self).spec_status() is Running,
            old(self).valid_with(*old(allocator)),
            old(allocator).wf(),
            old(self).total_tokens() + 1 <= usize::MAX,
        ensures
            final(allocator).wf(),
            final(allocator).spec_num_blocks() == old(allocator).spec_num_blocks(),
            final(allocator).spec_block_size() == old(allocator).spec_block_size(),
            final(self).spec_status() is Running,
            final(self).spec_request_id() == old(self).spec_request_id(),
            final(self).prompt() == old(self).prompt(),
            final(self).spec_max_tokens() == old(self).spec_max_tokens(),
            final(self).end_tokens_seq() == old(self).end_tokens_seq(),
            ok ==> {
                &&& final(self).output() == old(self).output().push(token)
                &&& final(self).valid_with(*final(allocator))
            },
            (ok && old(self).total_tokens() % (old(allocator).spec_block_size() as nat) == 0)
                ==> {
                &&& final(self).mapped() == old(self).mapped().push(
                    old(allocator).free_stack().last(),
                )
                &&& allocate_returns(
                    *old(allocator),
                    *final(allocator),
                    old(allocator).free_stack().last(),
                )
            },
            (ok && old(self).total_tokens() % (old(allocator).spec_block_size() as nat) != 0)
                ==> {
                &&& final(self).mapped() == old(self).mapped()
                &&& final(allocator).free_stack() == old(allocator).free_stack()
                &&& final(allocator).allocated() == old(allocator).allocated()
            },
            !ok ==> {
                &&& final(self).output() == old(self).output()
                &&& final(self).mapped() == old(self).mapped()
                &&& final(allocator).free_stack() == old(allocator).free_stack()
                &&& final(allocator).allocated() == old(allocator).allocated()
                &&& old(allocator).free_stack().len() == 0
                &&& old(self).total_tokens() % (old(allocator).spec_block_size() as nat) == 0
            },
    {
        let bs = allocator.block_size();
        let total = self.prompt_token_ids.len() + self.output_token_ids.len();
        proof {
            lemma_blocks_needed_step(total as nat, bs as nat);
        }
        if total % (bs as usize) == 0 {
            match allocator.allocate() {
                Some(id) => {
                    proof {
                        assert forall|p: int|
                            0 <= p < self.mmap@.len() implies self.mmap@[p] != id by {
                            assert(old(self).valid_with(*old(allocator)));
                        }
                    }
                    self.mmap.push(id);
                },
                None => {
                    return false;
                },
            }
        }
        self.output_token_ids.push(token);
        true
    }

    /// Terminates a running request: transitions to `Finished`, returns
    /// every physical block in the map to the allocator — each freed
    /// exactly once — and drains the map, so the request holds no
    /// outstanding resources.
    pub fn finish(&mut self, allocator: &mut BlockAllocator)
        requires
            old(self).spec_status() is Running,
            old(self).valid_with(*old(allocator)),
            old(allocator).wf(),
        ensures
            final(allocator).wf(),
            final(allocator).spec_num_blocks() == old(allocator).spec_num_blocks(),
            final(allocator).spec_block_size() == old(allocator).spec_block_size(),
            final(self).spec_status() is Finished,
            final(self).mapped().len() == 0,
            final(self).valid_with(*final(allocator)),
            final(self).spec_request_id() == old(self).spec_request_id(),
            final(self).prompt() == old(self).prompt(),
            final(self).output() == old(self).output(),
            final(self).spec_max_tokens() == old(self).spec_max_tokens(),
            final(self).end_tokens_seq() == old(self).end_tokens_seq(),
            final(allocator).free_stack() == old(allocator).free_stack() + old(self).mapped(),
            final(allocator).free_set() =~= old(allocator).free_set().union(
                old(self).mapped().to_set(),
            ),
            final(allocator).allocated() =~= old(allocator).allocated().difference(
                old(self).mapped().to_set(),
            ),
    {
        let ghost free0 = allocator.free_stack();
        let ghost alloc0 = allocator.allocated();
        let ghost m0 = self.mmap@;
        let ghost p0 = self.prompt_token_ids@;
        let ghost o0 = self.output_token_ids@;
        let ghost e0 = self.end_tokens@;
        let ghost mt0 = self.max_tokens;
        let ghost id0 = self.request_id;
        let ghost bs0 = allocator.spec_block_size();
        let ghost nb0 = allocator.spec_num_blocks();
        proof {
            assert(free0 + m0.take(0) =~= free0);
            assert(alloc0.difference(m0.take(0).to_set()) =~= alloc0);
        }
        let mut i: usize = 0;
        while i < self.mmap.len()
            invariant
                i <= m0.len(),
                self.mmap@ == m0,
                self.prompt_token_ids@ == p0,
                self.output_token_ids@ == o0,
                self.end_tokens@ == e0,
                self.max_tokens == mt0,
                self.request_id == id0,
                self.spec_status() == old(self).spec_status(),
                allocator.wf(),
                allocator.spec_block_size() == bs0,
                allocator.spec_num_blocks() == nb0,
                forall|p: int, q: int| 0 <= p < q < m0.len() ==> m0[p] != m0[q],
                forall|p: int| 0 <= p < m0.len() ==> alloc0.contains(#[trigger] m0[p]),
                allocator.free_stack() == free0 + m0.take(i as int),
                allocator.allocated() =~= alloc0.difference(m0.take(i as int).to_set()),
            decreases m0.len() - i,
        {
            let id = self.mmap[i];
            proof {
                assert(!m0.take(i as int).to_set().contains(id));
                assert(allocator.allocated().contains(id));
            }
            let _freed = allocator.free(id);
            proof {
                assert(free0 + m0.take(i as int) + seq![id] =~= free0 + m0.take(i + 1));
                lemma_take_to_set_step(m0, i as int);
                assert(allocator.allocated() =~= alloc0.difference(m0.take(i + 1).to_set()));
            }
            i = i + 1;
        }
        self.mmap.clear();
        self.status = Status::Finished;
        proof {
            assert(m0.take(m0.len() as int) =~= m0);
            lemma_concat_to_set(free0, m0);
        }
    }
}

/// Whether `t` occurs among `tokens`.
fn contains_token(tokens: &Vec<u32>, t: u32) -> (r: bool)
    ensures
        r == tokens@.contains(t),
{
    let mut i: usize = 0;
    while i < tokens.len()
        invariant
            i <= tokens@.len(),
            forall|j: int| 0 <= j < i ==> tokens@[j] != t,
        decreases tokens@.len() - i,
    {
        if tokens[i] == t {
            return true;
        }
        i = i + 1;
    }
    false
}

/// Ceiling division for the block count, exact against `blocks_needed`.
fn div_ceil_blocks(total: usize, block_size: u32) -> (r: usize)
    requires
        block_size >= 1,
    ensures
        r == blocks_needed(total as nat, block_size as nat),
{
    let bs = block_size as usize;
    let q = total / bs;
    if total % bs != 0 {
        proof {
            let t = total as int;
            let d = bs as int;
            lemma_fundamental_div_mod(t, d);
            lemma_mod_pos_bound(t, d);
            // a nonzero remainder forces d >= 2, which leaves room for the + 1
            lemma_mul_inequality(2, d, t / d);
        }
        q + 1
    } else {
        q
    }
}

/// Appending one token raises the needed block count by one exactly
/// when the old total sat on a block boundary.
proof fn lemma_blocks_needed_step(total: nat, block_size: nat)
    requires
        block_size > 0,
    ensures
        total % block_size == 0 ==> blocks_needed(total + 1, block_size) == blocks_needed(
            total,
            block_size,
        ) + 1,
        total % block_size != 0 ==> blocks_needed(total + 1, block_size) == blocks_needed(
            total,
            block_size,
        ),
{
    let t = total as int;
    let d = block_size as int;
    let q = t / d;
    let r = t % d;
    lemma_fundamental_div_mod(t, d);
    lemma_mod_pos_bound(t, d);
    if r + 1 < d {
        lemma_fundamental_div_mod_converse(t + 1, d, q, r + 1);
    } else {
        assert((q + 1) * d == q * d + d) by (nonlinear_arith);
        assert(d * q == q * d) by (nonlinear_arith);
        lemma_fundamental_div_mod_converse(t + 1, d, q + 1, 0);
    }
}

/// Pushing an element onto a sequence inserts it into the sequence's
/// set of elements.
proof fn lemma_push_to_set(s: Seq<u32>, x: u32)
    ensures
        s.push(x).to_set() =~= s.to_set().insert(x),
{
    assert forall|b: u32| #[trigger]
        s.push(x).to_set().contains(b) implies s.to_set().insert(x).contains(b) by {
        let j = choose|j: int| 0 <= j < s.push(x).len() && s.push(x)[j] == b;
        if j < s.len() {
            assert(s[j] == b);
        }
    }
    assert forall|b: u32| s.to_set().insert(x).contains(b) implies s.push(x).to_set().contains(
        b,
    ) by {
        if b == x {
            assert(s.push(x)[s.len() as int] == b);
        } else {
            let j = choose|j: int| 0 <= j < s.len() && s[j] == b;
            assert(s.push(x)[j] == b);
        }
    }
}

/// The set of elements of a concatenation is the union of the two
/// sides' sets of elements.
proof fn lemma_concat_to_set(s: Seq<u32>, t: Seq<u32>)
    ensures
        (s + t).to_set() =~= s.to_set().union(t.to_set()),
{
    assert forall|b: u32| #[trigger]
        (s + t).to_set().contains(b) implies s.to_set().union(t.to_set()).contains(b) by {
        let j = choose|j: int| 0 <= j < (s + t).len() && (s + t)[j] == b;
        if j < s.len() {
            assert(s[j] == b);
        } else {
            assert(t[j - s.len()] == b);
        }
    }
    assert forall|b: u32| s.to_set().union(t.to_set()).contains(b) implies (s
        + t).to_set().contains(b) by {
        if s.to_set().contains(b) {
            let j = choose|j: int| 0 <= j < s.len() && s[j] == b;
            assert((s + t)[j] == b);
        } else {
            let j = choose|j: int| 0 <= j < t.len() && t[j] == b;
            assert((s + t)[j + s.len()] == b);
        }
    }
}

/// Taking one more element of a sequence inserts that element into the
/// set of elements taken so far.
proof fn lemma_take_to_set_step(s: Seq<u32>, i: int)
    requires
        0 <= i < s.len(),
    ensures
        s.take(i + 1).to_set() =~= s.take(i).to_set().insert(s[i]),
{
    assert(s.take(i + 1) =~= s.take(i).push(s[i]));
    lemma_push_to_set(s.take(i), s[i]);
}

} // verus!
