//! Benchmarks across shards: what is written for an entity on each shard, who owns it, and
//! how it moves.

use std::collections::HashMap;

use vstd::prelude::*;

use crate::client::CommitOutput;
use crate::outside::random_below;
use crate::text::append_padded_decimal;

verus! {

broadcast use vstd::std_specs::hash::group_hash_axioms;

/// The number that four bytes write, least significant first.
pub open spec fn le_u32(b: Seq<u8>) -> int {
    b[0] + b[1] * 0x100 + b[2] * 0x1_0000 + b[3] * 0x100_0000
}

/// The four bytes of a number, least significant first.
pub open spec fn le_bytes(n: u32) -> Seq<u8> {
    seq![
        (n % 0x100) as u8,
        ((n / 0x100) % 0x100) as u8,
        ((n / 0x1_0000) % 0x100) as u8,
        (n / 0x100_0000) as u8,
    ]
}

/// What stands on the shard that owns an entity: a tag, and the index of the shard.
pub open spec fn owned_payload(shard_idx: u32) -> Seq<u8> {
    seq![1u8] + le_bytes(shard_idx)
}

/// What stands on a shard that an entity has moved away from.
pub open spec fn tombstone_payload() -> Seq<u8> {
    seq![0u8, 0u8, 0u8, 0u8, 0u8]
}

/// Whether a payload marks its entity as owned, and the shard index that it holds. A page
/// that was never written is empty, and is neither owned nor a tombstone.
pub open spec fn payload_meaning(payload: Seq<u8>) -> Option<(bool, u32)> {
    if payload.len() == 5 {
        Some((payload[0] == 1, le_u32(payload.subrange(1, 5)) as u32))
    } else {
        None
    }
}

/// A payload says that its entity is owned here.
pub open spec fn marks_owned(payload: Seq<u8>) -> bool {
    payload_meaning(payload) matches Some((owned, _)) && owned
}

/// What to write on the shard that owns an entity.
pub fn encode_owned(shard_idx: u32) -> (r: Vec<u8>)
    ensures
        r@ == owned_payload(shard_idx),
{
    let mut v: Vec<u8> = Vec::new();
    v.push(1);
    v.push((shard_idx % 0x100) as u8);
    v.push(((shard_idx / 0x100) % 0x100) as u8);
    v.push(((shard_idx / 0x1_0000) % 0x100) as u8);
    v.push((shard_idx / 0x100_0000) as u8);
    assert(v@ =~= owned_payload(shard_idx));
    v
}

/// What to write on a shard that an entity moves away from.
pub fn encode_tombstone() -> (r: Vec<u8>)
    ensures
        r@ == tombstone_payload(),
{
    let mut v: Vec<u8> = Vec::new();
    v.push(0);
    v.push(0);
    v.push(0);
    v.push(0);
    v.push(0);
    assert(v@ =~= tombstone_payload());
    v
}

/// What a payload means.
pub fn decode(payload: &[u8]) -> (r: Option<(bool, u32)>)
    ensures
        r == payload_meaning(payload@),
{
    if payload.len() != 5 {
        return None;
    }
    let owned = payload[0] == 1;
    let idx: u32 = payload[1] as u32 + payload[2] as u32 * 0x100 + payload[3] as u32 * 0x1_0000
        + payload[4] as u32 * 0x100_0000;
    assert(le_u32(payload@.subrange(1, 5)) == idx);
    Some((owned, idx))
}

/// A payload is read back as it was written, and the three states of a page on a shard are
/// told apart: owned, moved away, and never written.
pub proof fn payloads_are_unambiguous(shard_idx: u32)
    ensures
        payload_meaning(owned_payload(shard_idx)) == Some((true, shard_idx)),
        payload_meaning(tombstone_payload()) == Some((false, 0u32)),
        payload_meaning(Seq::empty()) is None,
{
    assert(owned_payload(shard_idx).subrange(1, 5) =~= le_bytes(shard_idx));
    assert(tombstone_payload().subrange(1, 5) =~= seq![0u8, 0u8, 0u8, 0u8]);
}

/// How many operations were timed, and how long they took together.
#[derive(Debug, Clone, Copy, PartialEq, Eq, Structural)]
pub struct LatencyStats {
    pub count: u64,
    pub total_us: u64,
}

/// The statistics after one more operation. Both counters wrap around.
pub open spec fn after_sample(stats: LatencyStats, micros: u128) -> LatencyStats {
    LatencyStats {
        count: ((stats.count + 1) % 0x1_0000_0000_0000_0000) as u64,
        total_us: ((stats.total_us + micros) % 0x1_0000_0000_0000_0000) as u64,
    }
}

/// The statistics after some operations.
pub open spec fn after_samples(stats: LatencyStats, micros: Seq<u128>) -> LatencyStats
    decreases micros.len(),
{
    if micros.len() == 0 {
        stats
    } else {
        after_sample(after_samples(stats, micros.drop_last()), micros.last())
    }
}

/// How long some operations took together.
pub open spec fn sample_sum(micros: Seq<u128>) -> nat
    decreases micros.len(),
{
    if micros.len() == 0 {
        0
    } else {
        sample_sum(micros.drop_last()) + micros.last() as nat
    }
}

impl LatencyStats {
    /// Statistics of no operation.
    pub fn new() -> (r: Self)
        ensures
            r == (LatencyStats { count: 0, total_us: 0 }),
    {
        LatencyStats { count: 0, total_us: 0 }
    }

    /// Takes in an operation that took `micros` microseconds.
    pub fn record(&mut self, micros: u128)
        ensures
            *final(self) == after_sample(*old(self), micros),
    {
        let low: u64 = (micros % 0x1_0000_0000_0000_0000) as u64;
        self.count = self.count.wrapping_add(1);
        self.total_us = self.total_us.wrapping_add(low);
        assert((old(self).total_us + low) % 0x1_0000_0000_0000_0000 == (old(self).total_us
            + micros) % 0x1_0000_0000_0000_0000);
    }

    /// How many operations were timed, and how long one took on average, in microseconds.
    pub fn report(&self) -> (r: (u64, u64))
        ensures
            r.0 == self.count,
            r.1 == if self.count > 0 {
                self.total_us / self.count
            } else {
                0
            },
    {
        let avg_us: u64 = if self.count > 0 {
            self.total_us / self.count
        } else {
            0
        };
        (self.count, avg_us)
    }
}

/// As long as the counters do not wrap around, they hold the number of operations and the
/// time that they took, so that the average reported is the mean, rounded down.
pub proof fn average_is_the_mean(micros: Seq<u128>)
    requires
        micros.len() < 0x1_0000_0000_0000_0000,
        sample_sum(micros) < 0x1_0000_0000_0000_0000,
    ensures
        after_samples(LatencyStats { count: 0, total_us: 0 }, micros) == (LatencyStats {
            count: micros.len() as u64,
            total_us: sample_sum(micros) as u64,
        }),
    decreases micros.len(),
{
    if micros.len() > 0 {
        average_is_the_mean(micros.drop_last());
    }
}

/// Which shard owns which entity. The entities are numbered from zero.
pub struct Ownership {
    owner: HashMap<u32, u32>,
    num_shards: u32,
}

/// An entity whose first write did not go through.
#[derive(Debug, Clone, Copy, PartialEq, Eq, Structural)]
pub enum SetupFailure {
    Conflict,
    Empty,
}

impl SetupFailure {
    /// The text of the failure.
    pub fn message(&self) -> (r: String)
        ensures
            r@ == match *self {
                SetupFailure::Conflict => "Conflict"@,
                SetupFailure::Empty => "Empty"@,
            },
    {
        match self {
            SetupFailure::Conflict => "Conflict".to_owned(),
            SetupFailure::Empty => "Empty".to_owned(),
        }
    }
}

impl View for Ownership {
    type V = Map<u32, u32>;

    closed spec fn view(&self) -> Map<u32, u32> {
        self.owner@
    }
}

impl Ownership {
    /// How many shards there are.
    pub closed spec fn shards(&self) -> u32 {
        self.num_shards
    }

    /// The entities are numbered without gaps, and each is owned by one of the shards.
    pub open spec fn wf(&self) -> bool {
        &&& self@.len() <= u32::MAX
        &&& forall|e: u32| #[trigger] self@.contains_key(e) <==> e < self@.len()
        &&& forall|e: u32| #[trigger] self@.contains_key(e) ==> self@[e] < self.shards()
    }

    /// No entity, on some shards.
    pub fn new(num_shards: u32) -> (r: Self)
        ensures
            r@ == Map::<u32, u32>::empty(),
            r.shards() == num_shards,
            r.wf(),
    {
        let r = Ownership { owner: HashMap::new(), num_shards };
        assert(r@ =~= Map::<u32, u32>::empty());
        r
    }

    /// Draws the shard on which a new entity is set up.
    pub fn draw_home(&self) -> (r: u32)
        requires
            self.shards() > 0,
        ensures
            r < self.shards(),
    {
        random_below(0, self.num_shards as u64) as u32
    }

    /// Takes in the outcome of the first write of the next entity, on the shard `home`.
    pub fn setup_entity(&mut self, home: u32, outcome: &CommitOutput) -> (r: Result<
        u32,
        SetupFailure,
    >)
        requires
            old(self).wf(),
            home < old(self).shards(),
            old(self)@.len() < u32::MAX,
        ensures
            final(self).wf(),
            final(self).shards() == old(self).shards(),
            match *outcome {
                CommitOutput::Committed(_) => {
                    &&& r == Ok::<u32, SetupFailure>(old(self)@.len() as u32)
                    &&& final(self)@ == old(self)@.insert(old(self)@.len() as u32, home)
                },
                CommitOutput::Conflict => {
                    &&& r == Err::<u32, SetupFailure>(SetupFailure::Conflict)
                    &&& final(self)@ == old(self)@
                },
                CommitOutput::Empty => {
                    &&& r == Err::<u32, SetupFailure>(SetupFailure::Empty)
                    &&& final(self)@ == old(self)@
                },
            },
    {
        match outcome {
            CommitOutput::Committed(_) => {
                let entity_id: u32 = self.owner.len() as u32;
                assert(!self@.contains_key(entity_id));
                self.owner.insert(entity_id, home);
                Ok(entity_id)
            },
            CommitOutput::Conflict => Err(SetupFailure::Conflict),
            CommitOutput::Empty => Err(SetupFailure::Empty),
        }
    }

    /// Draws an entity, and tells which shard should own it.
    pub fn draw_entity(&self) -> (r: (u32, u32))
        requires
            self.wf(),
            self@.len() > 0,
        ensures
            self@.contains_key(r.0),
            r.1 == self@[r.0],
    {
        let entity_id: u32 = random_below(0, self.owner.len() as u64) as u32;
        (entity_id, self.owner_of(entity_id))
    }

    /// The shard that owns an entity.
    pub fn owner_of(&self, entity_id: u32) -> (r: u32)
        requires
            self@.contains_key(entity_id),
        ensures
            r == self@[entity_id],
    {
        match self.owner.get(&entity_id) {
            Some(home) => *home,
            None => {
                assert(false);
                0
            },
        }
    }

    /// Draws the shard that an entity moves to: any shard but its owner, as far as there is
    /// another one.
    pub fn draw_target(&self, current: u32) -> (r: u32)
        requires
            current < self.shards(),
        ensures
            r < self.shards(),
            self.shards() > 1 ==> r != current,
    {
        if self.num_shards == 1 {
            return 0;
        }
        let drawn: u32 = random_below(0, (self.num_shards - 1) as u64) as u32;
        other_shard(drawn, current)
    }

    /// Takes in the outcome of a commit that moves an entity to the shard `target`: the entity
    /// has moved exactly if the commit went through.
    pub fn settle_transfer(
        &mut self,
        entity_id: u32,
        target: u32,
        outcome: &TransferOutcome,
        conflicts: &mut u64,
    )
        requires
            old(self).wf(),
            old(self)@.contains_key(entity_id),
            target < old(self).shards(),
        ensures
            final(self).wf(),
            final(self).shards() == old(self).shards(),
            final(self)@ == if *outcome == TransferOutcome::Committed {
                old(self)@.insert(entity_id, target)
            } else {
                old(self)@
            },
            *final(conflicts) == if *outcome == TransferOutcome::Conflict {
                ((*old(conflicts) + 1) % 0x1_0000_0000_0000_0000) as u64
            } else {
                *old(conflicts)
            },
    {
        match outcome {
            TransferOutcome::Committed => {
                self.owner.insert(entity_id, target);
            },
            TransferOutcome::Conflict => {
                *conflicts = conflicts.wrapping_add(1);
            },
            TransferOutcome::Other => {},
        }
    }
}

/// What became of a commit that moves an entity.
#[derive(Debug, Clone, Copy, PartialEq, Eq, Structural)]
pub enum TransferOutcome {
    Committed,
    Conflict,
    /// There was nothing to commit, or the commit failed.
    Other,
}

/// The shard with the number `drawn` among all shards but `current`.
pub fn other_shard(drawn: u32, current: u32) -> (r: u32)
    requires
        drawn < u32::MAX,
    ensures
        r != current,
        r == if drawn < current {
            drawn as int
        } else {
            drawn + 1
        },
{
    if drawn < current {
        drawn
    } else {
        drawn + 1
    }
}

/// What one shard has answered to the read of an entity: nothing if the read failed, and
/// otherwise the pages that were read.
pub type ShardReply = Option<Vec<Vec<u8>>>;

/// A shard has answered that it owns the entity.
pub open spec fn claims(reply: ShardReply) -> bool {
    reply matches Some(pages) && pages@.len() > 0 && marks_owned(pages@[0]@)
}

/// The shards among the first `n` that claim the entity, in order.
pub open spec fn claimants(replies: Seq<ShardReply>, n: int) -> Seq<usize>
    decreases n,
{
    if n <= 0 {
        Seq::empty()
    } else if claims(replies[n - 1]) {
        claimants(replies, n - 1).push((n - 1) as usize)
    } else {
        claimants(replies, n - 1)
    }
}

/// The shards that claim an entity.
pub fn owned_shards(replies: &[ShardReply]) -> (r: Vec<usize>)
    ensures
        r@ == claimants(replies@, replies@.len() as int),
{
    let mut owned_here: Vec<usize> = Vec::new();
    let mut i: usize = 0;
    while i < replies.len()
        invariant
            i <= replies@.len(),
            owned_here@ == claimants(replies@, i as int),
        decreases replies@.len() - i,
    {
        match &replies[i] {
            Some(pages) => if pages.len() > 0 {
                match decode(pages[0].as_slice()) {
                    Some((owned, _)) => if owned {
                        owned_here.push(i);
                    },
                    None => {},
                }
            },
            None => {},
        }
        i = i + 1;
    }
    owned_here
}

/// Whether exactly the shard `expected_home` claims an entity.
pub fn ownership_matches(replies: &[ShardReply], expected_home: u32) -> (r: bool)
    ensures
        r <==> expected_home < replies@.len() && forall|i: int|
            0 <= i < replies@.len() ==> (claims(#[trigger] replies@[i]) <==> i == expected_home),
{
    let owned_here = owned_shards(replies);
    proof {
        let n: int = replies.len() as int;
        lemma_claimants(replies@, n);
        let all = claimants(replies@, n);
        if expected_home < n && forall|i: int|
            0 <= i < n ==> (claims(#[trigger] replies@[i]) <==> i == expected_home) {
            assert(claims(replies@[expected_home as int]));
            assert(all.contains(expected_home as usize));
            assert forall|k: int| 0 <= k < all.len() implies all[k] == expected_home by {
                assert(claims(replies@[all[k] as int]));
            }
            assert(all.len() == 1) by {
                if all.len() > 1 {
                    assert(all[0] < all[1]);
                }
            }
        } else if all.len() == 1 && all[0] == expected_home {
            assert(claims(replies@[all[0] as int]));
            assert forall|i: int| 0 <= i < n implies (claims(#[trigger] replies@[i]) <==> i
                == expected_home) by {
                if claims(replies@[i]) {
                    assert(all.contains(i as usize));
                }
            }
        }
    }
    owned_here.len() == 1 && owned_here[0] == expected_home as usize
}

proof fn lemma_claimants(replies: Seq<ShardReply>, n: int)
    requires
        0 <= n <= replies.len(),
        replies.len() <= usize::MAX,
    ensures
        forall|k: int|
            0 <= k < claimants(replies, n).len() ==> {
                &&& (#[trigger] claimants(replies, n)[k]) < n
                &&& claims(replies[claimants(replies, n)[k] as int])
            },
        forall|j: int, k: int|
            0 <= j < k < claimants(replies, n).len() ==> (#[trigger] claimants(replies, n)[j]) < (
            #[trigger] claimants(replies, n)[k]),
        forall|i: int|
            0 <= i < n && claims(#[trigger] replies[i]) ==> claimants(replies, n).contains(
                i as usize,
            ),
    decreases n,
{
    if n > 0 {
        lemma_claimants(replies, n - 1);
        let before = claimants(replies, n - 1);
        let after = claimants(replies, n);
        assert forall|i: int| 0 <= i < n && claims(#[trigger] replies[i]) implies after.contains(
            i as usize,
        ) by {
            if i < n - 1 {
                assert(before.contains(i as usize));
                let k: int = choose|k: int| 0 <= k < before.len() && before[k] == i as usize;
                assert(after[k] == i as usize);
            } else {
                assert(after.last() == i as usize);
            }
        }
    }
}

/// How many entities a worker moves about. With more workers than entities, those that come
/// first have one each, and the others none.
pub open spec fn slice_size(num_entities: u32, concurrency: u32, worker_id: u32) -> int {
    if concurrency <= num_entities {
        (num_entities / concurrency) as int
    } else if worker_id < num_entities {
        1
    } else {
        0
    }
}

/// The entity at `offset` in the slice of a worker.
pub open spec fn slice_entity(concurrency: u32, worker_id: u32, offset: int) -> int {
    offset * concurrency + worker_id
}

/// The entity at `offset` in the slice of a worker.
pub fn transfer_entity(num_entities: u32, concurrency: u32, worker_id: u32, offset: u32) -> (r: u32)
    requires
        worker_id < concurrency,
        offset < slice_size(num_entities, concurrency, worker_id),
    ensures
        r == slice_entity(concurrency, worker_id, offset as int),
        r < num_entities,
{
    proof {
        lemma_slice_fits(num_entities, concurrency, worker_id, offset as int);
    }
    offset * concurrency + worker_id
}

/// Draws an entity from the slice of a worker. There is none to draw if the slice is empty.
pub fn draw_transfer_entity(num_entities: u32, concurrency: u32, worker_id: u32) -> (r: Option<u32>)
    requires
        num_entities > 0,
        worker_id < concurrency,
    ensures
        match r {
            Some(entity) => {
                &&& entity < num_entities
                &&& exists|offset: int|
                    {
                        &&& 0 <= offset < slice_size(num_entities, concurrency, worker_id)
                        &&& entity == #[trigger] slice_entity(concurrency, worker_id, offset)
                    }
            },
            None => slice_size(num_entities, concurrency, worker_id) == 0,
        },
{
    let size: u32 = if concurrency <= num_entities {
        num_entities / concurrency
    } else if worker_id < num_entities {
        1
    } else {
        0
    };
    if size == 0 {
        return None;
    }
    let offset: u32 = random_below(0, size as u64) as u32;
    Some(transfer_entity(num_entities, concurrency, worker_id, offset))
}

proof fn lemma_slice_fits(num_entities: u32, concurrency: u32, worker_id: u32, offset: int)
    requires
        worker_id < concurrency,
        0 <= offset < slice_size(num_entities, concurrency, worker_id),
    ensures
        0 <= offset * concurrency,
        slice_entity(concurrency, worker_id, offset) < num_entities,
{
    let n: int = num_entities as int;
    let c: int = concurrency as int;
    assert(0 <= offset * c) by (nonlinear_arith)
        requires
            0 <= offset,
            0 < c,
    ;
    if c <= n {
        assert(offset * c + c == (offset + 1) * c) by (nonlinear_arith);
        assert((offset + 1) * c <= (n / c) * c) by (nonlinear_arith)
            requires
                offset + 1 <= n / c,
                0 < c,
        ;
        assert((n / c) * c <= n) by (nonlinear_arith)
            requires
                0 < c,
                0 <= n,
        ;
    } else {
        assert(offset * c == 0) by (nonlinear_arith)
            requires
                offset == 0,
        ;
    }
}

/// No two workers ever move the same entity.
pub proof fn workers_have_disjoint_slices(
    num_entities: u32,
    concurrency: u32,
    a: u32,
    b: u32,
    i: int,
    j: int,
)
    requires
        a < concurrency,
        b < concurrency,
        0 <= i < slice_size(num_entities, concurrency, a),
        0 <= j < slice_size(num_entities, concurrency, b),
        slice_entity(concurrency, a, i) == slice_entity(concurrency, b, j),
    ensures
        a == b,
        i == j,
{
    let c: int = concurrency as int;
    assert(i == j && a == b) by (nonlinear_arith)
        requires
            i * c + a == j * c + b,
            0 <= a < c,
            0 <= b < c,
    ;
}

/// `home` is the only one of some shards whose page marks the entity as owned.
pub open spec fn owned_only_by(payloads: Seq<Seq<u8>>, home: int) -> bool {
    &&& 0 <= home < payloads.len()
    &&& forall|i: int|
        0 <= i < payloads.len() ==> (marks_owned(#[trigger] payloads[i]) <==> i == home)
}

/// Moving an entity to another shard leaves it owned by exactly one shard, its new home.
pub proof fn transfer_keeps_one_owner(payloads: Seq<Seq<u8>>, current: u32, target: u32)
    requires
        owned_only_by(payloads, current as int),
        target < payloads.len(),
        target != current,
    ensures
        owned_only_by(
            payloads.update(current as int, tombstone_payload()).update(
                target as int,
                owned_payload(target),
            ),
            target as int,
        ),
{
    payloads_are_unambiguous(target);
    let after = payloads.update(current as int, tombstone_payload()).update(
        target as int,
        owned_payload(target),
    );
    assert forall|i: int| 0 <= i < after.len() implies (marks_owned(#[trigger] after[i]) <==> i
        == target) by {
        if i != current && i != target {
            assert(after[i] == payloads[i]);
        }
    }
}

/// Setting an entity up on one shard, where no shard has a page for it yet, leaves it owned
/// by exactly that shard.
pub proof fn setup_makes_one_owner(num_shards: nat, home: u32)
    requires
        home < num_shards,
    ensures
        owned_only_by(
            Seq::new(num_shards, |i: int| Seq::<u8>::empty()).update(
                home as int,
                owned_payload(home),
            ),
            home as int,
        ),
{
    payloads_are_unambiguous(home);
}

/// An entity on its way from one shard to another.
#[derive(Debug, Clone, Copy, PartialEq, Eq, Structural)]
pub struct Move {
    pub entity_id: u32,
    pub source: u32,
    pub target: u32,
}

/// What became of an attempt to move an entity.
#[derive(Debug, Clone, Copy, PartialEq, Eq, Structural)]
pub enum MoveOutcome {
    /// A transaction on one of the two shards could not be opened, or a page could not be
    /// written.
    NotWritten,
    /// The commit over both shards was attempted, and took some microseconds.
    Settled { outcome: TransferOutcome, micros: u128 },
}

/// The state that all workers of a benchmark share which moves entities between shards.
pub struct TransferBench {
    pub owner: Ownership,
    pub stats: LatencyStats,
    pub conflicts: u64,
    /// How many moves were committed and yet did not leave the entity on exactly one shard.
    pub violations: u64,
    pub num_entities: u32,
    pub concurrency: u32,
}

impl TransferBench {
    /// Every entity was set up.
    pub open spec fn wf(&self) -> bool {
        &&& self.owner.wf()
        &&& self.owner@.len() == self.num_entities
    }

    /// A benchmark on entities that were all set up.
    pub fn new(owner: Ownership, num_entities: u32, concurrency: u32) -> (r: Self)
        requires
            owner.wf(),
            owner@.len() == num_entities,
        ensures
            r.wf(),
            r.owner == owner,
            r.stats == (LatencyStats { count: 0, total_us: 0 }),
            r.conflicts == 0,
            r.violations == 0,
            r.num_entities == num_entities,
            r.concurrency == concurrency,
    {
        TransferBench {
            owner,
            stats: LatencyStats::new(),
            conflicts: 0,
            violations: 0,
            num_entities,
            concurrency,
        }
    }

    /// Draws the next move of a worker: an entity of its slice, from its owner to another
    /// shard. A worker whose slice is empty has no move to make.
    pub fn next_move(&self, worker_id: u32) -> (r: Option<Move>)
        requires
            self.wf(),
            self.num_entities > 0,
            worker_id < self.concurrency,
        ensures
            match r {
                Some(mv) => {
                    &&& exists|offset: int|
                        {
                            &&& 0 <= offset < slice_size(
                                self.num_entities,
                                self.concurrency,
                                worker_id,
                            )
                            &&& mv.entity_id == #[trigger] slice_entity(
                                self.concurrency,
                                worker_id,
                                offset,
                            )
                        }
                    &&& self.owner@.contains_key(mv.entity_id)
                    &&& mv.source == self.owner@[mv.entity_id]
                    &&& mv.target < self.owner.shards()
                    &&& self.owner.shards() > 1 ==> mv.target != mv.source
                },
                None => slice_size(self.num_entities, self.concurrency, worker_id) == 0,
            },
    {
        match draw_transfer_entity(self.num_entities, self.concurrency, worker_id) {
            Some(entity_id) => {
                assert(self.owner@.contains_key(entity_id));
                let source: u32 = self.owner.owner_of(entity_id);
                let target: u32 = self.owner.draw_target(source);
                Some(Move { entity_id, source, target })
            },
            None => None,
        }
    }

    /// What to write on the two shards of a move, first on the source.
    pub fn move_payloads(&self, mv: &Move) -> (r: (Vec<u8>, Vec<u8>))
        ensures
            r.0@ == tombstone_payload(),
            r.1@ == owned_payload(mv.target),
    {
        (encode_tombstone(), encode_owned(mv.target))
    }

    /// Takes in what became of a move. One that got as far as its commit is timed, whatever
    /// the commit came to; the entity has a new owner exactly if the commit went through.
    pub fn settle_move(&mut self, mv: &Move, outcome: &MoveOutcome)
        requires
            old(self).wf(),
            old(self).owner@.contains_key(mv.entity_id),
            mv.target < old(self).owner.shards(),
        ensures
            final(self).wf(),
            final(self).owner.shards() == old(self).owner.shards(),
            final(self).num_entities == old(self).num_entities,
            final(self).concurrency == old(self).concurrency,
            final(self).violations == old(self).violations,
            match *outcome {
                MoveOutcome::NotWritten => {
                    &&& final(self).owner@ == old(self).owner@
                    &&& final(self).stats == old(self).stats
                    &&& final(self).conflicts == old(self).conflicts
                },
                MoveOutcome::Settled { outcome, micros } => {
                    &&& final(self).owner@ == if outcome == TransferOutcome::Committed {
                        old(self).owner@.insert(mv.entity_id, mv.target)
                    } else {
                        old(self).owner@
                    }
                    &&& final(self).stats == after_sample(old(self).stats, micros)
                    &&& final(self).conflicts == if outcome == TransferOutcome::Conflict {
                        ((old(self).conflicts + 1) % 0x1_0000_0000_0000_0000) as u64
                    } else {
                        old(self).conflicts
                    }
                },
            },
    {
        match outcome {
            MoveOutcome::NotWritten => {},
            MoveOutcome::Settled { outcome, micros } => {
                self.owner.settle_transfer(mv.entity_id, mv.target, outcome, &mut self.conflicts);
                self.stats.record(*micros);
            },
        }
    }
}

impl MoveOutcome {
    /// Whether it has to be verified that the entity landed where it should: it does if the
    /// move was committed.
    pub fn is_committed(&self) -> (r: bool)
        ensures
            r <==> (*self matches MoveOutcome::Settled { outcome, .. } && outcome
                == TransferOutcome::Committed),
    {
        match self {
            MoveOutcome::NotWritten => false,
            MoveOutcome::Settled { outcome, .. } => match outcome {
                TransferOutcome::Committed => true,
                TransferOutcome::Conflict => false,
                TransferOutcome::Other => false,
            },
        }
    }
}

impl TransferBench {
    /// Verifies, from what all shards answer after a move was committed, that the entity has
    /// landed in exactly one shard, its target. If it has not, that is a violation.
    pub fn verify_move(&mut self, mv: &Move, replies: &[ShardReply]) -> (landed: bool)
        ensures
            landed <==> mv.target < replies@.len() && forall|i: int|
                0 <= i < replies@.len() ==> (claims(#[trigger] replies@[i]) <==> i == mv.target),
            final(self).violations == if landed {
                old(self).violations
            } else {
                ((old(self).violations + 1) % 0x1_0000_0000_0000_0000) as u64
            },
            final(self).owner == old(self).owner,
            final(self).stats == old(self).stats,
            final(self).conflicts == old(self).conflicts,
            final(self).num_entities == old(self).num_entities,
            final(self).concurrency == old(self).concurrency,
    {
        let landed = ownership_matches(replies, mv.target);
        if !landed {
            self.violations = self.violations.wrapping_add(1);
        }
        landed
    }
}

/// A move that does what it says passes the verification: where only the source owned the
/// entity before, and then both its pages were written, all shards answer as they should.
pub proof fn faithful_move_is_no_violation(
    payloads: Seq<Seq<u8>>,
    mv: Move,
    replies: Seq<ShardReply>,
)
    requires
        owned_only_by(payloads, mv.source as int),
        mv.target < payloads.len(),
        mv.target != mv.source,
        replies.len() == payloads.len(),
        forall|i: int|
            0 <= i < replies.len() ==> {
                &&& (#[trigger] replies[i]) matches Some(pages)
                &&& pages@.len() == 1
                &&& pages@[0]@ == payloads.update(mv.source as int, tombstone_payload()).update(
                    mv.target as int,
                    owned_payload(mv.target),
                )[i]
            },
    ensures
        forall|i: int|
            0 <= i < replies.len() ==> (claims(#[trigger] replies[i]) <==> i == mv.target),
{
    transfer_keeps_one_owner(payloads, mv.source, mv.target);
    let after = payloads.update(mv.source as int, tombstone_payload()).update(
        mv.target as int,
        owned_payload(mv.target),
    );
    assert forall|i: int| 0 <= i < replies.len() implies (claims(#[trigger] replies[i]) <==> i
        == mv.target) by {
        assert(marks_owned(after[i]) <==> i == mv.target);
    }
}

/// The state that all workers of a benchmark share which reads entities from all shards at
/// once.
pub struct ScatterGatherBench {
    pub owner: Ownership,
    pub stats: LatencyStats,
    pub mismatches: u64,
}

impl ScatterGatherBench {
    /// A benchmark on entities that were set up.
    pub fn new(owner: Ownership) -> (r: Self)
        ensures
            r.owner == owner,
            r.stats == (LatencyStats { count: 0, total_us: 0 }),
            r.mismatches == 0,
    {
        ScatterGatherBench { owner, stats: LatencyStats::new(), mismatches: 0 }
    }

    /// Draws an entity to read from all shards, and tells which shard should own it.
    pub fn next_read(&self) -> (r: (u32, u32))
        requires
            self.owner.wf(),
            self.owner@.len() > 0,
        ensures
            self.owner@.contains_key(r.0),
            r.1 == self.owner@[r.0],
    {
        self.owner.draw_entity()
    }

    /// Takes in what all shards have answered, after some microseconds. It is a mismatch
    /// unless exactly the shard `expected_home` claims the entity.
    pub fn settle_read(&mut self, expected_home: u32, replies: &[ShardReply], micros: u128)
        ensures
            final(self).owner == old(self).owner,
            final(self).stats == after_sample(old(self).stats, micros),
            final(self).mismatches == if expected_home < replies@.len() && (forall|i: int|
                0 <= i < replies@.len() ==> (claims(#[trigger] replies@[i]) <==> i
                    == expected_home)) {
                old(self).mismatches
            } else {
                ((old(self).mismatches + 1) % 0x1_0000_0000_0000_0000) as u64
            },
    {
        self.stats.record(micros);
        if !ownership_matches(replies, expected_home) {
            self.mismatches = self.mismatches.wrapping_add(1);
        }
    }
}

/// How many of all workers each shard gets, at least one.
pub fn concurrency_per_shard(concurrency: usize, num_shards: usize) -> (r: usize)
    requires
        num_shards > 0,
    ensures
        r == if concurrency / num_shards > 1 {
            concurrency / num_shards
        } else {
            1
        },
{
    let share: usize = concurrency / num_shards;
    if share > 1 {
        share
    } else {
        1
    }
}

/// Which of the servers a shard is pinned to.
pub fn shard_server(shard: u32, num_servers: usize) -> (r: usize)
    requires
        num_servers > 0,
    ensures
        r as int == shard as int % num_servers as int,
        r < num_servers,
{
    shard as usize % num_servers
}

/// The key of a shard's namespace.
pub open spec fn shard_key(ns_prefix: Seq<char>, shard: u32) -> Seq<char> {
    ns_prefix.push('_') + crate::text::padded_decimal(shard as nat, 4)
}

/// The key of a shard's namespace: the prefix and the number of the shard, in four digits or
/// more.
pub fn shard_ns_key(ns_prefix: &str, shard: u32) -> (r: String)
    ensures
        r@ == shard_key(ns_prefix@, shard),
{
    let mut key = ns_prefix.to_owned();
    proof {
        reveal_strlit("_");
    }
    key.append("_");
    append_padded_decimal(&mut key, shard as u64, 4);
    assert(key@ =~= shard_key(ns_prefix@, shard));
    key
}

/// Different shards have different namespaces.
pub proof fn shards_have_distinct_keys(ns_prefix: Seq<char>, a: u32, b: u32)
    requires
        shard_key(ns_prefix, a) == shard_key(ns_prefix, b),
    ensures
        a == b,
{
    let n: int = ns_prefix.len() as int + 1;
    let x = shard_key(ns_prefix, a);
    let y = shard_key(ns_prefix, b);
    assert(x.subrange(n, x.len() as int) =~= crate::text::padded_decimal(a as nat, 4));
    assert(y.subrange(n, y.len() as int) =~= crate::text::padded_decimal(b as nat, 4));
    crate::text::padded_decimal_reads_back(a as nat, 4);
    crate::text::padded_decimal_reads_back(b as nat, 4);
}

/// What is written on the shard that owns an entity is read back as owned, with the index of the
/// shard; a tombstone is read back as not owned. Only five bytes mean anything: the entity is
/// owned exactly if the first is one, and the others are the index, the least significant first.
pub proof fn payloads_are_read_back(
    shard_idx: u32,
    owned: Vec<u8>,
    tombstone: Vec<u8>,
    payload: &[u8],
    r: Option<(bool, u32)>,
)
    requires
        call_ensures(encode_owned, (shard_idx,), owned),
        call_ensures(encode_tombstone, (), tombstone),
        call_ensures(decode, (payload,), r),
    ensures
        payload@ == owned@ ==> r == Some((true, shard_idx)),
        payload@ == tombstone@ ==> r == Some((false, 0u32)),
        owned@.len() == 5,
        tombstone@.len() == 5,
        r is Some <==> payload@.len() == 5,
        r matches Some((is_owned, idx)) ==> {
            &&& is_owned <==> payload@[0] == 1
            &&& idx as int == payload@[1] + payload@[2] * 0x100 + payload@[3] * 0x1_0000
                + payload@[4] * 0x100_0000
        },
{
    payloads_are_unambiguous(shard_idx);
}

/// Each operation is counted once, and its time is added. The report is the count, and the whole
/// microseconds that one took on average.
pub proof fn operations_are_counted_and_averaged(
    fresh: LatencyStats,
    stats: &mut LatencyStats,
    micros: u128,
    r: (u64, u64),
)
    requires
        call_ensures(LatencyStats::new, (), fresh),
        call_ensures(LatencyStats::record, (stats, micros), ()),
        call_ensures(LatencyStats::report, (&*final(stats),), r),
    ensures
        fresh.count == 0,
        fresh.total_us == 0,
        old(stats).count < u64::MAX ==> final(stats).count == old(stats).count + 1,
        old(stats).count == u64::MAX ==> final(stats).count == 0,
        old(stats).total_us + micros <= u64::MAX ==> final(stats).total_us == old(stats).total_us
            + micros,
        (old(stats).total_us + micros - final(stats).total_us) % 0x1_0000_0000_0000_0000 == 0,
        r.0 == final(stats).count,
        r.0 == 0 ==> r.1 == 0,
        r.0 > 0 ==> r.0 * r.1 <= final(stats).total_us < r.0 * (r.1 + 1),
{
    let (n, total, avg) = (r.0 as int, final(stats).total_us as int, r.1 as int);
    if n > 0 {
        assert(n * avg <= total < n * (avg + 1)) by (nonlinear_arith)
            requires
                n > 0,
                avg == total / n,
        ;
    }
}

/// A new ownership has no entity. An entity that was set up gets the next number and is owned by
/// its home; one whose first write did not go through is not there. No other entity changes its
/// owner.
pub proof fn entity_is_owned_where_it_was_set_up(
    fresh: Ownership,
    num_shards: u32,
    owner: &mut Ownership,
    home: u32,
    outcome: &CommitOutput,
    r: Result<u32, SetupFailure>,
    entity: u32,
    owners: (u32, u32),
)
    requires
        call_ensures(Ownership::new, (num_shards,), fresh),
        old(owner).wf(),
        home < old(owner).shards(),
        old(owner)@.len() < u32::MAX,
        call_ensures(Ownership::setup_entity, (owner, home, outcome), r),
        old(owner)@.contains_key(entity) ==> call_ensures(
            Ownership::owner_of,
            (&*old(owner), entity),
            owners.0,
        ),
        final(owner)@.contains_key(entity) ==> call_ensures(
            Ownership::owner_of,
            (&*final(owner), entity),
            owners.1,
        ),
    ensures
        forall|e: u32| !#[trigger] fresh@.contains_key(e),
        fresh.shards() == num_shards,
        r is Ok <==> outcome is Committed,
        r matches Err(e) ==> (e == SetupFailure::Conflict <==> outcome is Conflict),
        r matches Err(e) ==> (e == SetupFailure::Empty <==> outcome is Empty),
        r matches Ok(e) ==> !old(owner)@.contains_key(e) && (forall|d: u32|
            d < e <==> #[trigger] old(owner)@.contains_key(d)),
        final(owner)@.contains_key(entity) <==> old(owner)@.contains_key(entity) || r == Ok::<
            u32,
            SetupFailure,
        >(entity),
        old(owner)@.contains_key(entity) ==> owners.0 == owners.1,
        r == Ok::<u32, SetupFailure>(entity) ==> owners.1 == home,
        final(owner).shards() == old(owner).shards(),
{
}

/// An entity changes its owner exactly if its move was committed, and then to the target; no
/// other entity does. A conflict is counted, and nothing else is.
pub proof fn only_a_committed_move_changes_the_owner(
    owner: &mut Ownership,
    entity: u32,
    target: u32,
    outcome: &TransferOutcome,
    conflicts: &mut u64,
    other: u32,
    owners: (u32, u32),
)
    requires
        old(owner).wf(),
        old(owner)@.contains_key(entity),
        target < old(owner).shards(),
        call_ensures(Ownership::settle_transfer, (owner, entity, target, outcome, conflicts), ()),
        old(owner)@.contains_key(other),
        call_ensures(Ownership::owner_of, (&*old(owner), other), owners.0),
        call_ensures(Ownership::owner_of, (&*final(owner), other), owners.1),
    ensures
        owners.1 == if other == entity && *outcome == TransferOutcome::Committed {
            target
        } else {
            owners.0
        },
        forall|e: u32| #[trigger] final(owner)@.contains_key(e) <==> old(owner)@.contains_key(e),
        final(owner).shards() == old(owner).shards(),
        *outcome != TransferOutcome::Conflict ==> *final(conflicts) == *old(conflicts),
        *outcome == TransferOutcome::Conflict && *old(conflicts) < u64::MAX ==> *final(conflicts)
            == *old(conflicts) + 1,
        *outcome == TransferOutcome::Conflict && *old(conflicts) == u64::MAX ==> *final(conflicts)
            == 0,
{
}

/// Whatever is drawn, an entity is set up on a shard that there is, and moves to one that there
/// is, which is another one as far as there is another one. Each of the other shards can come up,
/// for exactly one number.
pub proof fn entities_move_to_other_shards(
    owner: &Ownership,
    home: u32,
    current: u32,
    target: u32,
    drawn: (u32, u32),
    others: (u32, u32),
)
    requires
        call_ensures(Ownership::draw_home, (owner,), home),
        current < owner.shards(),
        call_ensures(Ownership::draw_target, (owner, current), target),
        drawn.0 < drawn.1 < u32::MAX,
        call_ensures(other_shard, (drawn.0, current), others.0),
        call_ensures(other_shard, (drawn.1, current), others.1),
    ensures
        home < owner.shards(),
        target < owner.shards(),
        owner.shards() > 1 ==> target != current,
        others.0 < others.1,
        others.0 != current,
        others.1 != current,
        drawn.1 + 1 < owner.shards() ==> others.1 < owner.shards(),
{
}

/// An entity that is drawn is one that there is, and comes with its owner.
pub proof fn drawn_entity_comes_with_its_owner(
    owner: &Ownership,
    bench: &ScatterGatherBench,
    r: (u32, u32),
    s: (u32, u32),
)
    requires
        call_ensures(Ownership::draw_entity, (owner,), r),
        call_ensures(ScatterGatherBench::next_read, (bench,), s),
    ensures
        owner@.contains_key(r.0),
        owner@[r.0] == r.1,
        bench.owner@.contains_key(s.0),
        bench.owner@[s.0] == s.1,
{
}

/// The shards that claim an entity are those, in order, whose first page has five bytes of which
/// the first is one. The owner is as expected exactly if it is the only one of them.
pub proof fn only_marked_shards_claim_an_entity(
    replies: &[ShardReply],
    claiming: Vec<usize>,
    expected_home: u32,
    matches: bool,
)
    requires
        call_ensures(owned_shards, (replies,), claiming),
        call_ensures(ownership_matches, (replies, expected_home), matches),
    ensures
        ({
            let marked = |i: int|
                replies@[i] matches Some(pages) && pages@.len() > 0 && pages@[0]@.len() == 5
                    && pages@[0]@[0] == 1;
            &&& forall|k: int|
                0 <= k < claiming@.len() ==> (#[trigger] claiming@[k]) < replies@.len() && marked(
                    claiming@[k] as int,
                )
            &&& forall|j: int, k: int|
                0 <= j < k < claiming@.len() ==> (#[trigger] claiming@[j]) < (
                #[trigger] claiming@[k])
            &&& forall|i: int|
                0 <= i < replies@.len() && #[trigger] marked(i) ==> claiming@.contains(i as usize)
            &&& matches <==> expected_home < replies@.len() && forall|i: int|
                0 <= i < replies@.len() ==> (#[trigger] marked(i) <==> i == expected_home)
        }),
{
    let marked = |i: int|
        replies@[i] matches Some(pages) && pages@.len() > 0 && pages@[0]@.len() == 5
            && pages@[0]@[0] == 1;
    assert forall|i: int| 0 <= i < replies@.len() implies (#[trigger] marked(i) <==> claims(
        replies@[i],
    )) by {}
    assert(replies@.len() <= usize::MAX) by {
        assert(replies@.len() == replies.len());
    }
    lemma_claimants(replies@, replies@.len() as int);
    if matches {
        assert forall|i: int| 0 <= i < replies@.len() implies (#[trigger] marked(i) <==> i
            == expected_home) by {
            assert(claims(replies@[i]) <==> i == expected_home);
        }
    }
    if expected_home < replies@.len() && forall|i: int|
        0 <= i < replies@.len() ==> (#[trigger] marked(i) <==> i == expected_home) {
        assert forall|i: int| 0 <= i < replies@.len() implies (claims(#[trigger] replies@[i])
            <==> i == expected_home) by {
            assert(marked(i) <==> i == expected_home);
        }
    }
}

/// The entities of a worker are those, below the number of all entities, that leave its number
/// when divided by that of the workers, each at the offset that the division gives. Entities at
/// different offsets or of different workers differ.
pub proof fn worker_moves_its_own_entities(
    num_entities: u32,
    concurrency: u32,
    workers: (u32, u32),
    offsets: (u32, u32),
    r: (u32, u32),
)
    requires
        offsets.0 < slice_size(num_entities, concurrency, workers.0),
        offsets.1 < slice_size(num_entities, concurrency, workers.1),
        call_ensures(transfer_entity, (num_entities, concurrency, workers.0, offsets.0), r.0),
        call_ensures(transfer_entity, (num_entities, concurrency, workers.1, offsets.1), r.1),
        workers.0 < concurrency,
        workers.1 < concurrency,
    ensures
        r.0 < num_entities,
        r.0 % concurrency == workers.0,
        r.0 / concurrency == offsets.0,
        r.0 == r.1 ==> workers.0 == workers.1 && offsets.0 == offsets.1,
{
    let c: int = concurrency as int;
    let (e, w, o) = (r.0 as int, workers.0 as int, offsets.0 as int);
    assert(e % c == w && e / c == o) by (nonlinear_arith)
        requires
            e == o * c + w,
            0 <= w < c,
            0 <= o,
    ;
    let (f, v, p) = (r.1 as int, workers.1 as int, offsets.1 as int);
    assert(f % c == v && f / c == p) by (nonlinear_arith)
        requires
            f == p * c + v,
            0 <= v < c,
            0 <= p,
    ;
}

/// No two workers are ever given the same entity to move, whatever is drawn, and each is given one
/// of its own, as long as there is one for it: a worker goes without exactly if there are no more
/// entities than workers before it.
pub proof fn no_two_workers_draw_one_entity(
    num_entities: u32,
    concurrency: u32,
    workers: (u32, u32),
    r: (Option<u32>, Option<u32>),
)
    requires
        num_entities > 0,
        workers.0 < concurrency,
        workers.1 < concurrency,
        call_ensures(draw_transfer_entity, (num_entities, concurrency, workers.0), r.0),
        call_ensures(draw_transfer_entity, (num_entities, concurrency, workers.1), r.1),
    ensures
        r.0 is None <==> num_entities <= workers.0,
        r.0 matches Some(entity) ==> entity < num_entities && entity % concurrency == workers.0,
        r.0 is Some && r.0 == r.1 ==> workers.0 == workers.1,
{
    let c: int = concurrency as int;
    let n: int = num_entities as int;
    if c <= n {
        assert(n / c >= 1) by (nonlinear_arith)
            requires
                0 < c <= n,
        ;
    }
    if r.0 is Some {
        let offset: int = choose|offset: int|
            {
                &&& 0 <= offset < slice_size(num_entities, concurrency, workers.0)
                &&& r.0->0 == #[trigger] slice_entity(concurrency, workers.0, offset)
            };
        let (e, w) = (r.0->0 as int, workers.0 as int);
        assert(e % c == w) by (nonlinear_arith)
            requires
                e == offset * c + w,
                0 <= w < c,
                0 <= offset,
        ;
    }
    if r.1 is Some {
        let offset: int = choose|offset: int|
            {
                &&& 0 <= offset < slice_size(num_entities, concurrency, workers.1)
                &&& r.1->0 == #[trigger] slice_entity(concurrency, workers.1, offset)
            };
        let (e, w) = (r.1->0 as int, workers.1 as int);
        assert(e % c == w) by (nonlinear_arith)
            requires
                e == offset * c + w,
                0 <= w < c,
                0 <= offset,
        ;
    }
}

/// A benchmark starts with nothing counted. The next move of a worker takes one of its entities
/// from its owner to another shard, as far as there is another one; and what is written for it
/// marks the entity as owned on the target and not on the source.
pub proof fn move_starts_at_the_owner(
    owner: Ownership,
    num_entities: u32,
    concurrency: u32,
    bench: TransferBench,
    worker_id: u32,
    r: Option<Move>,
    home: u32,
    written: (Vec<u8>, Vec<u8>),
    payloads: (&[u8], &[u8]),
    meanings: (Option<(bool, u32)>, Option<(bool, u32)>),
)
    requires
        owner.wf(),
        owner@.len() == num_entities,
        call_ensures(TransferBench::new, (owner, num_entities, concurrency), bench),
        num_entities > 0,
        worker_id < concurrency,
        call_ensures(TransferBench::next_move, (&bench, worker_id), r),
        r matches Some(mv) ==> {
            &&& call_ensures(Ownership::owner_of, (&owner, mv.entity_id), home)
            &&& call_ensures(TransferBench::move_payloads, (&bench, &mv), written)
            &&& payloads.0@ == written.0@
            &&& payloads.1@ == written.1@
            &&& call_ensures(decode, (payloads.0,), meanings.0)
            &&& call_ensures(decode, (payloads.1,), meanings.1)
        },
    ensures
        bench.owner@ == owner@,
        bench.stats.count == 0,
        bench.stats.total_us == 0,
        bench.conflicts == 0,
        bench.violations == 0,
        bench.num_entities == num_entities,
        bench.concurrency == concurrency,
        r is None <==> num_entities <= worker_id,
        r matches Some(mv) ==> {
            &&& mv.entity_id < num_entities
            &&& mv.entity_id % concurrency == worker_id
            &&& mv.source == home
            &&& mv.target < owner.shards()
            &&& owner.shards() > 1 ==> mv.target != mv.source
            &&& meanings.0 matches Some((owned, _)) && !owned
            &&& meanings.1 == Some((true, mv.target))
        },
{
    let c: int = concurrency as int;
    let n: int = num_entities as int;
    if c <= n {
        assert(n / c >= 1) by (nonlinear_arith)
            requires
                0 < c <= n,
        ;
    }
    if r is Some {
        let mv = r->0;
        payloads_are_unambiguous(mv.target);
        assert(owner@.contains_key(mv.entity_id));
        let offset: int = choose|offset: int|
            {
                &&& 0 <= offset < slice_size(num_entities, concurrency, worker_id)
                &&& mv.entity_id == #[trigger] slice_entity(concurrency, worker_id, offset)
            };
        let (e, w) = (mv.entity_id as int, worker_id as int);
        assert(e % c == w) by (nonlinear_arith)
            requires
                e == offset * c + w,
                0 <= w < c,
                0 <= offset,
        ;
    }
}

/// A move that was not written changes nothing. One that got as far as its commit is timed; its
/// entity has a new owner, its target, exactly if the commit went through, and is then to be
/// verified; and a conflict is counted.
pub proof fn move_is_settled_by_its_commit(
    bench: &mut TransferBench,
    mv: &Move,
    outcome: &MoveOutcome,
    committed: bool,
)
    requires
        old(bench).wf(),
        old(bench).owner@.contains_key(mv.entity_id),
        mv.target < old(bench).owner.shards(),
        call_ensures(TransferBench::settle_move, (bench, mv, outcome), ()),
        call_ensures(MoveOutcome::is_committed, (outcome,), committed),
    ensures
        committed <==> (*outcome matches MoveOutcome::Settled { outcome: o, .. } && o
            == TransferOutcome::Committed),
        forall|e: u32|
            {
                &&& #[trigger] final(bench).owner@.contains_key(e)
                    <==> old(bench).owner@.contains_key(e)
                &&& old(bench).owner@.contains_key(e) ==> final(bench).owner@[e] == if committed
                    && e == mv.entity_id {
                    mv.target
                } else {
                    old(bench).owner@[e]
                }
            },
        *outcome is NotWritten ==> final(bench).stats == old(bench).stats,
        *outcome matches MoveOutcome::Settled { micros, .. } ==> {
            &&& (final(bench).stats.count - old(bench).stats.count - 1) % 0x1_0000_0000_0000_0000
                == 0
            &&& (final(bench).stats.total_us - old(bench).stats.total_us - micros)
                % 0x1_0000_0000_0000_0000 == 0
        },
        (final(bench).conflicts - old(bench).conflicts - if (
        *outcome matches MoveOutcome::Settled { outcome: o, .. } && o
            == TransferOutcome::Conflict) {
            1int
        } else {
            0
        }) % 0x1_0000_0000_0000_0000 == 0,
        final(bench).violations == old(bench).violations,
        final(bench).num_entities == old(bench).num_entities,
        final(bench).concurrency == old(bench).concurrency,
        final(bench).owner.shards() == old(bench).owner.shards(),
{
}

/// A committed move is verified to have landed exactly if its target is the only shard that
/// claims the entity, and is counted as a violation otherwise. A read is a mismatch unless the
/// expected shard is the only one. Both go by the same comparison, and change nothing else.
pub proof fn only_one_owner_passes_verification(
    bench: &mut TransferBench,
    mv: &Move,
    reading: &mut ScatterGatherBench,
    replies: &[ShardReply],
    micros: u128,
    landed: bool,
    matches: bool,
    owner: Ownership,
    fresh: ScatterGatherBench,
)
    requires
        call_ensures(TransferBench::verify_move, (bench, mv, replies), landed),
        call_ensures(ScatterGatherBench::settle_read, (reading, mv.target, replies, micros), ()),
        call_ensures(ownership_matches, (replies, mv.target), matches),
        call_ensures(ScatterGatherBench::new, (owner,), fresh),
    ensures
        landed == matches,
        landed ==> final(bench).violations == old(bench).violations,
        !landed ==> (final(bench).violations - old(bench).violations - 1)
            % 0x1_0000_0000_0000_0000 == 0,
        final(bench).owner@ == old(bench).owner@,
        final(bench).stats == old(bench).stats,
        final(bench).conflicts == old(bench).conflicts,
        final(bench).num_entities == old(bench).num_entities,
        final(bench).concurrency == old(bench).concurrency,
        matches ==> final(reading).mismatches == old(reading).mismatches,
        !matches ==> (final(reading).mismatches - old(reading).mismatches - 1)
            % 0x1_0000_0000_0000_0000 == 0,
        final(reading).owner@ == old(reading).owner@,
        (final(reading).stats.count - old(reading).stats.count - 1) % 0x1_0000_0000_0000_0000 == 0,
        (final(reading).stats.total_us - old(reading).stats.total_us - micros)
            % 0x1_0000_0000_0000_0000 == 0,
        fresh.owner@ == owner@,
        fresh.stats.count == 0,
        fresh.stats.total_us == 0,
        fresh.mismatches == 0,
{
}

/// All shards together have no more workers than there are, but for the one that each has at
/// least; and no more workers could be shared out evenly.
pub proof fn workers_are_shared_out_evenly(concurrency: usize, num_shards: usize, r: usize)
    requires
        num_shards > 0,
        call_ensures(concurrency_per_shard, (concurrency, num_shards), r),
    ensures
        r >= 1,
        r > 1 ==> r * num_shards <= concurrency,
        (r + 1) * num_shards > concurrency,
{
    let (c, n) = (concurrency as int, num_shards as int);
    assert((c / n) * n <= c < (c / n + 1) * n) by (nonlinear_arith)
        requires
            n > 0,
            c >= 0,
    ;
    if c / n < 1 {
        assert((r + 1) * n > c) by (nonlinear_arith)
            requires
                r == 1,
                c < (c / n + 1) * n,
                c / n < 1,
                n > 0,
        ;
    }
}

/// Shards go to the servers in turn.
pub proof fn shards_go_to_servers_in_turn(shard: u32, num_servers: usize, r: (usize, usize))
    requires
        num_servers > 0,
        shard < u32::MAX,
        call_ensures(shard_server, (shard, num_servers), r.0),
        call_ensures(shard_server, ((shard + 1) as u32, num_servers), r.1),
    ensures
        r.0 < num_servers,
        shard < num_servers ==> r.0 == shard,
        r.1 == if r.0 + 1 == num_servers {
            0
        } else {
            r.0 + 1
        },
{
    let (s, n) = (shard as int, num_servers as int);
    let m: int = s % n;
    let q: int = s / n;
    vstd::arithmetic::div_mod::lemma_fundamental_div_mod(s, n);
    if s < n {
        vstd::arithmetic::div_mod::lemma_small_mod(s as nat, n as nat);
    }
    assert(n * q == q * n && n * (q + 1) == q * n + n) by (nonlinear_arith);
    if m + 1 == n {
        vstd::arithmetic::div_mod::lemma_fundamental_div_mod_converse(s + 1, n, q + 1, 0);
    } else {
        vstd::arithmetic::div_mod::lemma_fundamental_div_mod_converse(s + 1, n, q, m + 1);
    }
}

/// The key of a shard's namespace is the prefix, an underscore, and the number of the shard in
/// decimal digits, at least four.
pub proof fn shard_key_ends_in_the_number(
    ns_prefix: &str,
    shard: u32,
    key: String,
    text: &mut String,
)
    requires
        call_ensures(shard_ns_key, (ns_prefix, shard), key),
        old(text)@ == ns_prefix@.push('_'),
        call_ensures(append_padded_decimal, (text, shard as u64, 4), ()),
    ensures
        key@ == final(text)@,
        key@.len() >= ns_prefix@.len() + 5,
        key@[ns_prefix@.len() as int] == '_',
{
    crate::text::number_is_written_in_decimal_digits(text, shard as u64, 4);
}

} // verus!
