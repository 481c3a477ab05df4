//! The pool allocator: a fixed arena of `NUM_BLOCKS` slots of `BLOCK_SIZE`
//! bytes each, a free list of slot indices, and the acquire/release
//! algorithms with their safety checks (oversized requests, exhaustion, and
//! double-release detection).

use vstd::prelude::*;

verus! {

use vstd::set_lib::lemma_int_range;
use vstd::set_lib::lemma_len_subset;
use vstd::set_lib::lemma_set_disjoint_lens;
use vstd::set_lib::set_int_range;

/// Size in bytes of one slot, the fixed unit of allocation.
pub const BLOCK_SIZE: usize = 32;

/// Total number of slots in the arena.
pub const NUM_BLOCKS: usize = 128;

/// Size in bytes of the whole arena.
pub const ARENA_SIZE: usize = BLOCK_SIZE * NUM_BLOCKS;

/// Number of leading bytes of a free slot that carry the free-list link word
/// (the size of a pointer on the machines the pool is meant for).
pub const LINK_BYTES: usize = 8;

/// Byte `t` of the little-endian encoding of `val`.
pub open spec fn le_byte(val: nat, t: nat) -> u8
    decreases t,
{
    if t == 0 {
        (val % 256) as u8
    } else {
        le_byte(val / 256, (t - 1) as nat)
    }
}

/// Every byte of the little-endian encoding of 0 is 0.
proof fn lemma_le_byte_zero(t: nat)
    ensures
        le_byte(0, t) == 0u8,
    decreases t,
{
    if t > 0 {
        lemma_le_byte_zero((t - 1) as nat);
    }
}

/// For values below 2^16 the little-endian bytes are the two low bytes
/// followed by zeros.
proof fn lemma_le_byte_small(val: nat)
    requires
        val < 65536,
    ensures
        le_byte(val, 0) == (val % 256) as u8,
        le_byte(val, 1) == ((val / 256) % 256) as u8,
        forall|t: nat| 2 <= t < LINK_BYTES as nat ==> #[trigger] le_byte(val, t) == 0u8,
{
    let q: nat = val / 256;
    assert(q < 256) by (nonlinear_arith)
        requires
            val < 65536,
            q == val / 256,
    ;
    assert(q / 256 == 0) by (nonlinear_arith)
        requires
            q < 256,
    ;
    assert(le_byte(val, 1) == le_byte(q, 0));
    assert(le_byte(q, 0) == (q % 256) as u8);
    assert forall|t: nat| 2 <= t < LINK_BYTES as nat implies #[trigger] le_byte(val, t) == 0u8 by {
        assert(le_byte(val, t) == le_byte(q, (t - 1) as nat));
        assert(le_byte(q, (t - 1) as nat) == le_byte(0, (t - 2) as nat));
        lemma_le_byte_zero((t - 2) as nat);
    }
}

/// The arena after the `LINK_BYTES`-byte little-endian word `val` is stored
/// at offset `base`.
pub open spec fn store_word(arena: Seq<u8>, base: int, val: nat) -> Seq<u8> {
    Seq::new(
        arena.len(),
        |k: int|
            if base <= k < base + LINK_BYTES as int {
                le_byte(val, (k - base) as nat)
            } else {
                arena[k]
            },
    )
}

/// The `LINK_BYTES` bytes at offset `base` hold the little-endian word `val`.
pub open spec fn word_at_is(arena: Seq<u8>, base: int, val: nat) -> bool {
    forall|t: int| 0 <= t < LINK_BYTES as int ==> #[trigger] arena[base + t] == le_byte(val, t as nat)
}

/// Mathematical model of the pool: the arena bytes, and the free list as a
/// stack of slot indices whose last element is the head of the list.
#[verifier::ext_equal]
pub struct PoolModel {
    pub arena: Seq<u8>,
    pub free: Seq<usize>,
}

impl PoolModel {
    /// The link word belonging in the slot at stack position `p`: the arena
    /// offset of the free slot below it, or 0 at the bottom of the stack
    /// (the end of the free list).
    pub open spec fn link_value(self, p: int) -> nat {
        if p == 0 {
            0
        } else {
            (self.free[p - 1] * BLOCK_SIZE) as nat
        }
    }

    /// Well-formedness: the arena has its fixed size, the free list holds
    /// each slot index at most once with every index in range, and each free
    /// slot's leading bytes hold the link word that threads the list through
    /// the arena.
    pub open spec fn wf(self) -> bool {
        &&& self.arena.len() == ARENA_SIZE as int
        &&& self.free.no_duplicates()
        &&& forall|p: int| 0 <= p < self.free.len() ==> (#[trigger] self.free[p]) < NUM_BLOCKS
        &&& forall|p: int|
            0 <= p < self.free.len() ==> word_at_is(
                self.arena,
                (#[trigger] self.free[p]) as int * BLOCK_SIZE as int,
                self.link_value(p),
            )
    }

    /// Whether the slot with this index is on the free list.
    pub open spec fn slot_is_free(self, slot: usize) -> bool {
        self.free.contains(slot)
    }

    /// The slot at the head of the free list (meaningful when the list is
    /// not empty).
    pub open spec fn head_slot(self) -> usize {
        self.free.last()
    }

    /// The arena offset of the head of the free list.
    pub open spec fn head_addr(self) -> int {
        self.head_slot() as int * BLOCK_SIZE as int
    }

    /// The link word a newly released slot receives: the offset of the
    /// current head, or 0 when the list is empty.
    pub open spec fn head_word(self) -> nat {
        if self.free.len() == 0 {
            0
        } else {
            self.head_addr() as nat
        }
    }

    /// Whether an acquire with this request size succeeds in this state.
    pub open spec fn acquire_ok(self, size: int) -> bool {
        size <= BLOCK_SIZE as int && self.free.len() > 0
    }

    /// The state after a successful acquire: the head slot leaves the free
    /// list and its link word is cleared.
    pub open spec fn after_acquire(self) -> PoolModel {
        PoolModel { arena: store_word(self.arena, self.head_addr(), 0), free: self.free.drop_last() }
    }

    /// Whether a release of the slot at `addr` is accepted: releasing a slot
    /// that is already free is the fatal double-release condition.
    pub open spec fn release_ok(self, addr: usize) -> bool {
        !self.slot_is_free((addr / BLOCK_SIZE) as usize)
    }

    /// The state after a successful release: the slot's leading bytes are
    /// set to point at the old head, and the slot becomes the new head.
    pub open spec fn after_release(self, addr: usize) -> PoolModel {
        PoolModel {
            arena: store_word(self.arena, addr as int, self.head_word()),
            free: self.free.push((addr / BLOCK_SIZE) as usize),
        }
    }
}

/// The free list right after initialization: every slot, in index order, so
/// the highest-index slot is the head.
pub open spec fn init_free_list() -> Seq<usize> {
    Seq::new(NUM_BLOCKS as nat, |i: int| i as usize)
}

/// The link word slot `slot` receives at initialization: the offset of the
/// slot below it, or 0 for slot 0, the end of the list.
pub open spec fn init_link_value(slot: int) -> nat {
    if slot == 0 {
        0
    } else {
        ((slot - 1) * BLOCK_SIZE as int) as nat
    }
}

/// The arena after initialization: every slot's leading bytes hold its link
/// word; all other bytes keep their previous contents.
pub open spec fn init_arena(arena: Seq<u8>) -> Seq<u8> {
    Seq::new(
        arena.len(),
        |k: int|
            if k % (BLOCK_SIZE as int) < LINK_BYTES as int {
                le_byte(init_link_value(k / (BLOCK_SIZE as int)), (k % (BLOCK_SIZE as int)) as nat)
            } else {
                arena[k]
            },
    )
}

impl PoolModel {
    /// The state after initialization, from any prior state.
    pub open spec fn after_init(self) -> PoolModel {
        PoolModel { arena: init_arena(self.arena), free: init_free_list() }
    }
}

impl PoolModel {
    /// The set of slot indices currently free.
    pub open spec fn free_slot_set(self) -> Set<int> {
        Set::new(|i: int| 0 <= i < NUM_BLOCKS as int && self.free.contains(i as usize))
    }

    /// The set of slot indices currently handed out and not yet returned.
    pub open spec fn in_use_slot_set(self) -> Set<int> {
        Set::new(|i: int| 0 <= i < NUM_BLOCKS as int && !self.free.contains(i as usize))
    }
}

/// Law: the free count accounts for every slot.  In a well-formed pool the
/// free-list length — what `free_count` reports — equals the number of free
/// slots, and the free and in-use slots together make up exactly
/// `NUM_BLOCKS`.  Since each successful acquire moves one slot from free to
/// in use and each successful release moves one back, after any sequence of
/// individually successful calls the count reads `NUM_BLOCKS` minus the
/// outstanding acquisitions.
pub proof fn lemma_free_count_accounts_for_all_slots(m: PoolModel)
    requires
        m.wf(),
    ensures
        m.free.len() == m.free_slot_set().len(),
        m.free_slot_set().len() + m.in_use_slot_set().len() == NUM_BLOCKS as int,
{
    let si: Seq<int> = m.free.map_values(|v: usize| v as int);
    assert(si.no_duplicates()) by {
        assert forall|a: int, b: int| 0 <= a < b < si.len() implies si[a] != si[b] by {
            assert(m.free[a] != m.free[b]);
        }
    }
    si.unique_seq_to_set();
    assert(si.to_set() =~= m.free_slot_set()) by {
        assert forall|x: int| si.to_set().contains(x) implies m.free_slot_set().contains(x) by {
            let idx: int = choose|idx: int| 0 <= idx < si.len() && si[idx] == x;
            assert(m.free[idx] < NUM_BLOCKS);
            assert(m.free.contains(x as usize)) by {
                assert(m.free[idx] == x as usize);
            }
        }
        assert forall|x: int| m.free_slot_set().contains(x) implies si.to_set().contains(x) by {
            let idx: int = choose|idx: int| 0 <= idx < m.free.len() && m.free[idx] == x as usize;
            assert(si[idx] == x);
            assert(si.contains(x));
        }
    }
    lemma_int_range(0, NUM_BLOCKS as int);
    assert(m.free_slot_set().subset_of(set_int_range(0, NUM_BLOCKS as int)));
    assert(m.in_use_slot_set().subset_of(set_int_range(0, NUM_BLOCKS as int)));
    lemma_len_subset(m.free_slot_set(), set_int_range(0, NUM_BLOCKS as int));
    lemma_len_subset(m.in_use_slot_set(), set_int_range(0, NUM_BLOCKS as int));
    lemma_set_disjoint_lens(m.free_slot_set(), m.in_use_slot_set());
    assert(m.free_slot_set().disjoint(m.in_use_slot_set()));
    assert(m.free_slot_set() + m.in_use_slot_set() =~= set_int_range(0, NUM_BLOCKS as int));
}

/// One request made of the pool, for stating laws over whole call
/// sequences.
pub enum PoolOp {
    Acquire { size: usize },
    Release { addr: usize },
}

/// Whether one request succeeds in the given state (an acquire that is
/// served, a release that is not a double release).
pub open spec fn op_ok(m: PoolModel, op: PoolOp) -> bool {
    match op {
        PoolOp::Acquire { size } => m.acquire_ok(size as int),
        PoolOp::Release { addr } => addr % BLOCK_SIZE == 0 && addr < ARENA_SIZE && m.release_ok(
            addr,
        ),
    }
}

/// The state after one successful request.
pub open spec fn op_step(m: PoolModel, op: PoolOp) -> PoolModel {
    match op {
        PoolOp::Acquire { .. } => m.after_acquire(),
        PoolOp::Release { addr } => m.after_release(addr),
    }
}

/// Whether every request of the sequence succeeds, each in the state the
/// previous ones left behind.
pub open spec fn run_ok(m: PoolModel, ops: Seq<PoolOp>) -> bool
    decreases ops.len(),
{
    ops.len() == 0 || (op_ok(m, ops.first()) && run_ok(op_step(m, ops.first()), ops.drop_first()))
}

/// The state after the whole sequence of requests.
pub open spec fn run(m: PoolModel, ops: Seq<PoolOp>) -> PoolModel
    decreases ops.len(),
{
    if ops.len() == 0 {
        m
    } else {
        run(op_step(m, ops.first()), ops.drop_first())
    }
}

/// Number of acquires in the sequence.
pub open spec fn count_acquires(ops: Seq<PoolOp>) -> int
    decreases ops.len(),
{
    if ops.len() == 0 {
        0
    } else {
        (if ops.first() is Acquire {
            1int
        } else {
            0int
        }) + count_acquires(ops.drop_first())
    }
}

/// Number of releases in the sequence.
pub open spec fn count_releases(ops: Seq<PoolOp>) -> int
    decreases ops.len(),
{
    if ops.len() == 0 {
        0
    } else {
        (if ops.first() is Release {
            1int
        } else {
            0int
        }) + count_releases(ops.drop_first())
    }
}

/// Law: acquire decrements, release increments.  Over any sequence of
/// individually successful calls, the free count moves by exactly the
/// number of releases minus the number of acquires; a pool that starts full
/// therefore reads `NUM_BLOCKS` minus the outstanding acquisitions.
pub proof fn lemma_count_after_run(m: PoolModel, ops: Seq<PoolOp>)
    requires
        run_ok(m, ops),
    ensures
        run(m, ops).free.len() as int == m.free.len() as int - count_acquires(ops)
            + count_releases(ops),
    decreases ops.len(),
{
    if ops.len() > 0 {
        lemma_count_after_run(op_step(m, ops.first()), ops.drop_first());
    }
}

/// A sequence of acquire requests whose sizes the pool accepts.
pub open spec fn all_acquires_fit(ops: Seq<PoolOp>) -> bool {
    forall|i: int|
        0 <= i < ops.len() ==> ((#[trigger] ops[i]) matches PoolOp::Acquire { size } && size
            <= BLOCK_SIZE)
}

/// A run of acquires with accepted sizes, no longer than the free list,
/// succeeds throughout and leaves exactly the bottom of the free list.
pub proof fn lemma_acquire_run_succeeds(m: PoolModel, ops: Seq<PoolOp>)
    requires
        all_acquires_fit(ops),
        ops.len() <= m.free.len(),
    ensures
        run_ok(m, ops),
        run(m, ops).free == m.free.take(m.free.len() - ops.len()),
    decreases ops.len(),
{
    if ops.len() == 0 {
        assert(m.free.take(m.free.len() as int) =~= m.free);
    } else {
        let m1 = op_step(m, ops.first());
        assert(op_ok(m, ops.first()));
        assert(m1.free =~= m.free.take(m.free.len() - 1));
        assert(all_acquires_fit(ops.drop_first())) by {
            assert forall|i: int| 0 <= i < ops.drop_first().len() implies ((#[trigger] ops
                .drop_first()[i]) matches PoolOp::Acquire { size } && size <= BLOCK_SIZE) by {
                assert(ops.drop_first()[i] == ops[i + 1]);
            }
        }
        lemma_acquire_run_succeeds(m1, ops.drop_first());
        assert(m1.free.take(m1.free.len() - ops.drop_first().len()) =~= m.free.take(
            m.free.len() - ops.len(),
        ));
    }
}

/// Law: saturation.  A full pool serves `NUM_BLOCKS` acquires in a row, all
/// succeeding; afterwards the pool is exhausted, the free count reads 0,
/// and the next acquire, of whatever size, fails.
pub proof fn lemma_saturation(m: PoolModel, ops: Seq<PoolOp>, next_size: usize)
    requires
        m.free.len() == NUM_BLOCKS,
        ops.len() == NUM_BLOCKS,
        all_acquires_fit(ops),
    ensures
        run_ok(m, ops),
        run(m, ops).free.len() == 0,
        !run(m, ops).acquire_ok(next_size as int),
{
    lemma_acquire_run_succeeds(m, ops);
}

/// Law: the addresses a run of acquires hands out are pairwise distinct: no
/// slot is served twice without a release in between.
pub proof fn lemma_acquire_run_distinct_addresses(
    m: PoolModel,
    ops: Seq<PoolOp>,
    i: int,
    j: int,
)
    requires
        m.free.no_duplicates(),
        all_acquires_fit(ops),
        ops.len() <= m.free.len(),
        0 <= i < j < ops.len(),
    ensures
        run(m, ops.take(i)).head_addr() != run(m, ops.take(j)).head_addr(),
{
    let n: int = m.free.len() as int;
    assert(all_acquires_fit(ops.take(i)) && all_acquires_fit(ops.take(j))) by {
        assert(forall|k: int| 0 <= k < i ==> ops.take(i)[k] == ops[k]);
        assert(forall|k: int| 0 <= k < j ==> ops.take(j)[k] == ops[k]);
    }
    lemma_acquire_run_succeeds(m, ops.take(i));
    lemma_acquire_run_succeeds(m, ops.take(j));
    assert(run(m, ops.take(i)).free.last() == m.free[n - 1 - i]);
    assert(run(m, ops.take(j)).free.last() == m.free[n - 1 - j]);
    assert(m.free[n - 1 - i] != m.free[n - 1 - j]);
}

/// Law: LIFO reuse.  Releasing a block and then acquiring again, with any
/// request the pool accepts and nothing in between, succeeds and hands back
/// the very same address.
pub proof fn lemma_release_then_acquire_reuses(m: PoolModel, addr: usize, size: usize)
    requires
        m.wf(),
        addr % BLOCK_SIZE == 0,
        addr < ARENA_SIZE,
        m.release_ok(addr),
        size <= BLOCK_SIZE,
    ensures
        m.after_release(addr).acquire_ok(size as int),
        m.after_release(addr).head_addr() == addr as int,
{
    let j: usize = (addr / BLOCK_SIZE) as usize;
    assert(m.after_release(addr).free.last() == j);
    assert(j as int * (BLOCK_SIZE as int) == addr as int);
}

/// The fatal fault a release can report: the slot is already on the free
/// list.  The embedding environment is expected to halt on it, since going
/// on would corrupt the free list.
#[derive(Clone, Copy, Debug, PartialEq, Eq)]
pub enum DeallocError {
    DoubleRelease,
}

/// The pool allocator.  It owns the arena, the free list, an out-of-band
/// record of each slot's state (the bitmap that makes double-release
/// detection sound), and the free-slot counter.
pub struct SlabAllocator {
    arena: Vec<u8>,
    free_list: Vec<usize>,
    slot_free: Vec<bool>,
    free_count: usize,
}

impl View for SlabAllocator {
    type V = PoolModel;

    closed spec fn view(&self) -> PoolModel {
        PoolModel { arena: self.arena@, free: self.free_list@ }
    }
}

impl SlabAllocator {
    /// Internal invariant: the model is well formed, the counter equals the
    /// free-list length, and the slot-state bitmap agrees with free-list
    /// membership.
    pub closed spec fn inv(self) -> bool {
        &&& self@.wf()
        &&& self.free_count as int == self.free_list@.len()
        &&& self.slot_free@.len() == NUM_BLOCKS as int
        &&& forall|i: int|
            0 <= i < NUM_BLOCKS as int ==> ((#[trigger] self.slot_free@[i]) <==> self.free_list@.contains(i as usize))
    }

    /// Creates the pool with an empty free list and a zeroed arena.  No slot
    /// can be acquired before `init` links them in.
    pub fn new() -> (r: SlabAllocator)
        ensures
            r.inv(),
            r@.wf(),
            r@.free.len() == 0,
            forall|k: int| 0 <= k < ARENA_SIZE as int ==> r@.arena[k] == 0u8,
    {
        let mut arena: Vec<u8> = Vec::new();
        let mut k: usize = 0;
        while k < ARENA_SIZE
            invariant
                k <= ARENA_SIZE,
                arena@.len() == k as int,
                forall|j: int| 0 <= j < k as int ==> arena@[j] == 0u8,
            decreases ARENA_SIZE - k,
        {
            arena.push(0u8);
            k = k + 1;
        }
        let mut slot_free: Vec<bool> = Vec::new();
        let mut i: usize = 0;
        while i < NUM_BLOCKS
            invariant
                i <= NUM_BLOCKS,
                slot_free@.len() == i as int,
                forall|j: int| 0 <= j < i as int ==> !(#[trigger] slot_free@[j]),
            decreases NUM_BLOCKS - i,
        {
            slot_free.push(false);
            i = i + 1;
        }
        SlabAllocator { arena, free_list: Vec::new(), slot_free, free_count: 0 }
    }

    /// Stores the little-endian link word `val` into the `LINK_BYTES` bytes
    /// at arena offset `base`.  Only values below 2^16 ever arise (the arena
    /// is far smaller), so the upper bytes are always zero.
    fn store_link_word(&mut self, base: usize, val: usize)
        requires
            old(self).arena@.len() == ARENA_SIZE as int,
            base + LINK_BYTES <= ARENA_SIZE,
            val < 65536,
        ensures
            final(self).arena@ == store_word(old(self).arena@, base as int, val as nat),
            final(self).free_list@ == old(self).free_list@,
            final(self).slot_free@ == old(self).slot_free@,
            final(self).free_count == old(self).free_count,
    {
        let lo: u8 = (val % 256) as u8;
        let hi: u8 = ((val / 256) % 256) as u8;
        self.arena[base] = lo;
        self.arena[base + 1] = hi;
        self.arena[base + 2] = 0;
        self.arena[base + 3] = 0;
        self.arena[base + 4] = 0;
        self.arena[base + 5] = 0;
        self.arena[base + 6] = 0;
        self.arena[base + 7] = 0;
        proof {
            lemma_le_byte_small(val as nat);
            assert(self.arena@ =~= store_word(old(self).arena@, base as int, val as nat));
        }
    }

    /// Partitions the arena into `NUM_BLOCKS` slots and links every slot
    /// into the free list in index order, writing each free slot's link word
    /// into its leading bytes; sets the free count to `NUM_BLOCKS`.  Must be
    /// called before the first acquire.  Calling it again silently discards
    /// any outstanding allocation bookkeeping, which is a caller error.
    pub fn init(&mut self)
        requires
            old(self).inv(),
        ensures
            final(self).inv(),
            final(self)@.wf(),
            final(self)@ == old(self)@.after_init(),
            final(self)@.free.len() == NUM_BLOCKS as int,
    {
        self.free_list.clear();
        let ghost arena0: Seq<u8> = self.arena@;
        let mut j: usize = 0;
        while j < NUM_BLOCKS
            invariant
                j <= NUM_BLOCKS,
                self.arena@.len() == ARENA_SIZE as int,
                self.slot_free@.len() == NUM_BLOCKS as int,
                self.free_list@ == Seq::new(j as nat, |i: int| i as usize),
                forall|i: int| 0 <= i < j as int ==> #[trigger] self.slot_free@[i],
                forall|k: int|
                    0 <= k < ARENA_SIZE as int && (k / (BLOCK_SIZE as int) >= j as int || k % (
                    BLOCK_SIZE as int) >= LINK_BYTES as int) ==> #[trigger] self.arena@[k]
                        == arena0[k],
                forall|p: int|
                    0 <= p < j as int ==> word_at_is(
                        self.arena@,
                        p * (BLOCK_SIZE as int),
                        init_link_value(p),
                    ),
            decreases NUM_BLOCKS - j,
        {
            self.free_list.push(j);
            proof {
                assert(self.free_list@ =~= Seq::new((j + 1) as nat, |i: int| i as usize));
            }
            self.slot_free[j] = true;
            let link: usize = if j == 0 {
                0
            } else {
                (j - 1) * BLOCK_SIZE
            };
            let ghost arena_before: Seq<u8> = self.arena@;
            self.store_link_word(j * BLOCK_SIZE, link);
            proof {
                assert(link as nat == init_link_value(j as int));
                assert forall|p: int| 0 <= p < (j + 1) as int implies word_at_is(
                    self.arena@,
                    p * (BLOCK_SIZE as int),
                    init_link_value(p),
                ) by {
                    if p < j as int {
                        assert forall|t: int| 0 <= t < LINK_BYTES as int implies #[trigger] self
                            .arena@[p * (BLOCK_SIZE as int) + t] == le_byte(
                            init_link_value(p),
                            t as nat,
                        ) by {
                            assert(p * (BLOCK_SIZE as int) + t < j as int * (BLOCK_SIZE as int));
                            assert(self.arena@[p * (BLOCK_SIZE as int) + t] == arena_before[p * (
                            BLOCK_SIZE as int) + t]);
                        }
                    } else {
                        assert forall|t: int| 0 <= t < LINK_BYTES as int implies #[trigger] self
                            .arena@[p * (BLOCK_SIZE as int) + t] == le_byte(
                            init_link_value(p),
                            t as nat,
                        ) by {
                            assert(self.arena@[j as int * (BLOCK_SIZE as int) + t] == le_byte(
                                link as nat,
                                t as nat,
                            ));
                        }
                    }
                }
            }
            j = j + 1;
        }
        self.free_count = NUM_BLOCKS;
        proof {
            assert(self.free_list@ == init_free_list());
            assert forall|k: int| 0 <= k < ARENA_SIZE as int implies self.arena@[k] == init_arena(
                arena0,
            )[k] by {
                let p: int = k / (BLOCK_SIZE as int);
                let t: int = k % (BLOCK_SIZE as int);
                if t < LINK_BYTES as int {
                    assert(word_at_is(self.arena@, p * (BLOCK_SIZE as int), init_link_value(p)));
                    assert(self.arena@[p * (BLOCK_SIZE as int) + t] == le_byte(
                        init_link_value(p),
                        t as nat,
                    ));
                    assert(k == p * (BLOCK_SIZE as int) + t);
                }
            }
            assert(self@.arena =~= init_arena(arena0));
            assert(self@ =~= old(self)@.after_init());
            assert(self@.free.no_duplicates()) by {
                assert(forall|a: int, b: int|
                    0 <= a < b < NUM_BLOCKS as int ==> init_free_list()[a]
                        != init_free_list()[b]);
            }
            assert forall|i: int| 0 <= i < NUM_BLOCKS as int implies ((#[trigger] self
                .slot_free@[i]) <==> self.free_list@.contains(i as usize)) by {
                assert(self.free_list@[i] == i as usize);
                assert(self.free_list@.contains(i as usize));
            }
            assert forall|p: int| 0 <= p < self@.free.len() implies word_at_is(
                self@.arena,
                (#[trigger] self@.free[p]) as int * BLOCK_SIZE as int,
                self@.link_value(p),
            ) by {
                assert(self@.free[p] == p as usize);
                assert(self@.link_value(p) == init_link_value(p));
                assert(word_at_is(self@.arena, p * (BLOCK_SIZE as int), init_link_value(p)));
            }
        }
    }

    /// Acquires one slot: returns the arena offset of a block of at least
    /// `size` bytes drawn from the head of the free list, or `None` if the
    /// request exceeds `BLOCK_SIZE` or the pool is exhausted.  The block's
    /// contents are not zeroed beyond its stale link word.  `align` is
    /// accepted but not validated: the arena's static alignment is the
    /// caller's responsibility, and a request the arena does not satisfy is
    /// not rejected by this layer.
    pub fn acquire(&mut self, size: usize, align: usize) -> (r: Option<usize>)
        requires
            old(self).inv(),
        ensures
            final(self).inv(),
            final(self)@.wf(),
            r is Some <==> old(self)@.acquire_ok(size as int),
            r is None ==> final(self)@ == old(self)@,
            r is Some ==> final(self)@ == old(self)@.after_acquire() && final(self)@.free.len()
                == old(self)@.free.len() - 1,
            r matches Some(addr) ==> addr as int == old(self)@.head_addr() && addr % BLOCK_SIZE
                == 0 && addr + BLOCK_SIZE <= ARENA_SIZE && old(self)@.slot_is_free(
                (addr / BLOCK_SIZE) as usize,
            ) && !final(self)@.slot_is_free((addr / BLOCK_SIZE) as usize),
    {
        let _ = align;
        if size > BLOCK_SIZE {
            return None;
        }
        if self.free_count == 0 {
            return None;
        }
        let ghost m0: PoolModel = self@;
        let j: usize = self.free_list.pop().unwrap();
        proof {
            assert(m0.free[m0.free.len() - 1] < NUM_BLOCKS);
            assert(self.free_list@ =~= m0.free.drop_last());
        }
        self.store_link_word(j * BLOCK_SIZE, 0);
        self.slot_free[j] = false;
        self.free_count = self.free_count - 1;
        proof {
            let newfree: Seq<usize> = self.free_list@;
            assert(j == m0.head_slot());
            // The popped slot is gone from the list: it occurred only at the top.
            assert(!newfree.contains(j)) by {
                if newfree.contains(j) {
                    let idx: int = choose|idx: int|
                        0 <= idx < newfree.len() && newfree[idx] == j;
                    assert(m0.free[idx] == m0.free[m0.free.len() - 1]);
                }
            }
            // Every other slot keeps its membership.
            assert forall|i: usize| i != j implies ((#[trigger] m0.free.contains(i))
                <==> newfree.contains(i)) by {
                if m0.free.contains(i) {
                    let idx: int = choose|idx: int| 0 <= idx < m0.free.len() && m0.free[idx] == i;
                    assert(idx != m0.free.len() - 1);
                    assert(newfree[idx] == i);
                }
                if newfree.contains(i) {
                    let idx: int = choose|idx: int| 0 <= idx < newfree.len() && newfree[idx] == i;
                    assert(m0.free[idx] == i);
                }
            }
            // Link words of the remaining free slots are untouched: their
            // windows are disjoint from the cleared window of slot `j`.
            assert forall|p: int| 0 <= p < newfree.len() implies word_at_is(
                self.arena@,
                (#[trigger] newfree[p]) as int * BLOCK_SIZE as int,
                self@.link_value(p),
            ) by {
                let s: int = newfree[p] as int;
                assert(m0.free[p] == newfree[p]);
                assert(s != j as int);
                assert(self@.link_value(p) == m0.link_value(p));
                assert forall|t: int| 0 <= t < LINK_BYTES as int implies #[trigger] self.arena@[s
                    * (BLOCK_SIZE as int) + t] == le_byte(m0.link_value(p), t as nat) by {
                    assert(word_at_is(m0.arena, s * (BLOCK_SIZE as int), m0.link_value(p)));
                    if s < j as int {
                        assert(s * (BLOCK_SIZE as int) + t < j as int * (BLOCK_SIZE as int));
                    } else {
                        assert(s * (BLOCK_SIZE as int) >= j as int * (BLOCK_SIZE as int)
                            + BLOCK_SIZE as int);
                    }
                    assert(self.arena@[s * (BLOCK_SIZE as int) + t] == m0.arena[s * (
                    BLOCK_SIZE as int) + t]);
                }
            }
            assert(self@ =~= m0.after_acquire());
            assert(m0.free.contains(j)) by {
                assert(m0.free[m0.free.len() - 1] == j);
            }
        }
        Some(j * BLOCK_SIZE)
    }

    /// Releases the previously acquired slot at `addr` back to the free
    /// list: writes the current head's offset into the slot's leading bytes,
    /// makes the slot the new head, and increments the free count.  If the
    /// slot is already free, the fatal double-release fault is reported
    /// instead and nothing changes; the caller is expected to halt on it.
    /// `addr` must be an offset previously returned by `acquire` on this
    /// pool (in particular slot-aligned and inside the arena).
    pub fn release(&mut self, addr: usize) -> (r: Result<(), DeallocError>)
        requires
            old(self).inv(),
            addr % BLOCK_SIZE == 0,
            addr < ARENA_SIZE,
        ensures
            final(self).inv(),
            final(self)@.wf(),
            r is Ok <==> old(self)@.release_ok(addr),
            r is Err ==> final(self)@ == old(self)@ && r == Err::<(), DeallocError>(
                DeallocError::DoubleRelease,
            ),
            r is Ok ==> final(self)@ == old(self)@.after_release(addr) && final(self)@.free.len()
                == old(self)@.free.len() + 1 && final(self)@.slot_is_free(
                (addr / BLOCK_SIZE) as usize,
            ),
    {
        let j: usize = addr / BLOCK_SIZE;
        if self.slot_free[j] {
            return Err(DeallocError::DoubleRelease);
        }
        let ghost m0: PoolModel = self@;
        proof {
            lemma_free_count_accounts_for_all_slots(m0);
            assert(!m0.free.contains(j));
            if m0.free.len() > 0 {
                assert(m0.free[m0.free.len() - 1] < NUM_BLOCKS);
            }
        }
        let link: usize = if self.free_count == 0 {
            0
        } else {
            self.free_list[self.free_count - 1] * BLOCK_SIZE
        };
        self.store_link_word(addr, link);
        self.free_list.push(j);
        self.slot_free[j] = true;
        self.free_count = self.free_count + 1;
        proof {
            let newfree: Seq<usize> = self.free_list@;
            assert(newfree[newfree.len() - 1] == j);
            assert(newfree.no_duplicates()) by {
                assert forall|a: int, b: int| 0 <= a < b < newfree.len() implies newfree[a]
                    != newfree[b] by {
                    if b < newfree.len() - 1 {
                        assert(m0.free[a] != m0.free[b]);
                    } else {
                        assert(newfree[a] == m0.free[a]);
                        if newfree[a] == j {
                            assert(m0.free.contains(j));
                        }
                    }
                }
            }
            assert forall|i: usize| i != j implies ((#[trigger] m0.free.contains(i))
                <==> newfree.contains(i)) by {
                if m0.free.contains(i) {
                    let idx: int = choose|idx: int| 0 <= idx < m0.free.len() && m0.free[idx] == i;
                    assert(newfree[idx] == i);
                }
                if newfree.contains(i) {
                    let idx: int = choose|idx: int| 0 <= idx < newfree.len() && newfree[idx] == i;
                    assert(idx != newfree.len() - 1);
                    assert(m0.free[idx] == i);
                }
            }
            assert(newfree.contains(j)) by {
                assert(newfree[newfree.len() - 1] == j);
            }
            // The written slot's window holds the old head's offset; every
            // other free slot's window is untouched.
            assert(addr as int == j as int * (BLOCK_SIZE as int));
            assert forall|p: int| 0 <= p < newfree.len() implies word_at_is(
                self.arena@,
                (#[trigger] newfree[p]) as int * BLOCK_SIZE as int,
                self@.link_value(p),
            ) by {
                if p < newfree.len() - 1 {
                    let s: int = newfree[p] as int;
                    assert(m0.free[p] == newfree[p]);
                    assert(s != j as int);
                    assert(self@.link_value(p) == m0.link_value(p));
                    assert forall|t: int| 0 <= t < LINK_BYTES as int implies #[trigger] self
                        .arena@[s * (BLOCK_SIZE as int) + t] == le_byte(
                        m0.link_value(p),
                        t as nat,
                    ) by {
                        assert(word_at_is(m0.arena, s * (BLOCK_SIZE as int), m0.link_value(p)));
                        if s < j as int {
                            assert(s * (BLOCK_SIZE as int) + t < j as int * (BLOCK_SIZE as int));
                        } else {
                            assert(s * (BLOCK_SIZE as int) >= j as int * (BLOCK_SIZE as int)
                                + BLOCK_SIZE as int);
                        }
                        assert(self.arena@[s * (BLOCK_SIZE as int) + t] == m0.arena[s * (
                        BLOCK_SIZE as int) + t]);
                    }
                } else {
                    assert(self@.link_value(p) == link as nat);
                    assert forall|t: int| 0 <= t < LINK_BYTES as int implies #[trigger] self
                        .arena@[j as int * (BLOCK_SIZE as int) + t] == le_byte(
                        link as nat,
                        t as nat,
                    ) by {
                        assert(self.arena@[addr as int + t] == le_byte(link as nat, t as nat));
                    }
                }
            }
            assert(link as nat == m0.head_word());
            assert(self@ =~= m0.after_release(addr));
        }
        Ok(())
    }

    /// Reads the arena byte at `addr`.  Nothing restricts the read to a slot
    /// currently handed out: reading a free slot observes its link bytes,
    /// exactly as a caller holding a stale offset would.
    pub fn read_byte(&self, addr: usize) -> (r: u8)
        requires
            self.inv(),
            addr < ARENA_SIZE,
        ensures
            r == self@.arena[addr as int],
    {
        self.arena[addr]
    }

    /// Writes one byte of payload into a slot currently handed out.  The
    /// free list is untouched: a block's bytes belong to its holder between
    /// acquire and release.
    pub fn write_byte(&mut self, addr: usize, value: u8)
        requires
            old(self).inv(),
            addr < ARENA_SIZE,
            !old(self)@.slot_is_free((addr / BLOCK_SIZE) as usize),
        ensures
            final(self).inv(),
            final(self)@.wf(),
            final(self)@.free == old(self)@.free,
            final(self)@.arena == old(self)@.arena.update(addr as int, value),
    {
        let ghost m0: PoolModel = self@;
        self.arena[addr] = value;
        proof {
            let j: int = addr as int / (BLOCK_SIZE as int);
            assert forall|p: int| 0 <= p < m0.free.len() implies word_at_is(
                self.arena@,
                (#[trigger] m0.free[p]) as int * BLOCK_SIZE as int,
                m0.link_value(p),
            ) by {
                let s: int = m0.free[p] as int;
                assert(!m0.free.contains((addr / BLOCK_SIZE) as usize));
                assert(s != j);
                assert forall|t: int| 0 <= t < LINK_BYTES as int implies #[trigger] self.arena@[s
                    * (BLOCK_SIZE as int) + t] == le_byte(m0.link_value(p), t as nat) by {
                    assert(word_at_is(m0.arena, s * (BLOCK_SIZE as int), m0.link_value(p)));
                    if s < j {
                        assert(s * (BLOCK_SIZE as int) + t < j * (BLOCK_SIZE as int));
                        assert(j * (BLOCK_SIZE as int) <= addr as int);
                    } else {
                        assert(s * (BLOCK_SIZE as int) >= (j + 1) * (BLOCK_SIZE as int));
                        assert((addr as int) < (j + 1) * (BLOCK_SIZE as int));
                    }
                    assert(self.arena@[s * (BLOCK_SIZE as int) + t] == m0.arena[s * (
                    BLOCK_SIZE as int) + t]);
                }
            }
        }
    }

    /// Returns the number of slots currently free: the length of the free
    /// list.
    pub fn free_count(&self) -> (r: usize)
        requires
            self.inv(),
        ensures
            r as int == self@.free.len(),
    {
        self.free_count
    }
}

} // verus!
