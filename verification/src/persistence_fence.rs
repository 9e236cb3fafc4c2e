//! The fence between the staged pipeline and engine persistence: engine
//! persistence may own the next blocks only when every stage that writes the
//! same tables stands exactly at the durable watermark.

use vstd::prelude::*;

use crate::hash;
use crate::hash::{hex_b256, to_array};
use crate::primitives;
use crate::primitives::{BlockNumHash, B256};
use crate::text;
use crate::text::decimal;

verus! {

/// The pipeline's stages.
#[derive(Clone, Copy, Debug, PartialEq, Eq, Structural)]
pub enum StageId {
    Era,
    Headers,
    Bodies,
    SenderRecovery,
    Execution,
    PruneSenderRecovery,
    MerkleUnwind,
    AccountHashing,
    StorageHashing,
    MerkleExecute,
    TransactionLookup,
    IndexStorageHistory,
    IndexAccountHistory,
    Prune,
    Finish,
}

/// The stage's name.
pub open spec fn stage_name_of(stage: StageId) -> Seq<char> {
    match stage {
        StageId::Era => "Era"@,
        StageId::Headers => "Headers"@,
        StageId::Bodies => "Bodies"@,
        StageId::SenderRecovery => "SenderRecovery"@,
        StageId::Execution => "Execution"@,
        StageId::PruneSenderRecovery => "PruneSenderRecovery"@,
        StageId::MerkleUnwind => "MerkleUnwind"@,
        StageId::AccountHashing => "AccountHashing"@,
        StageId::StorageHashing => "StorageHashing"@,
        StageId::MerkleExecute => "MerkleExecute"@,
        StageId::TransactionLookup => "TransactionLookup"@,
        StageId::IndexStorageHistory => "IndexStorageHistory"@,
        StageId::IndexAccountHistory => "IndexAccountHistory"@,
        StageId::Prune => "Prune"@,
        StageId::Finish => "Finish"@,
    }
}

/// The stage's name.
pub fn stage_name(stage: StageId) -> (r: &'static str)
    ensures
        r@ == stage_name_of(stage),
{
    match stage {
        StageId::Era => "Era",
        StageId::Headers => "Headers",
        StageId::Bodies => "Bodies",
        StageId::SenderRecovery => "SenderRecovery",
        StageId::Execution => "Execution",
        StageId::PruneSenderRecovery => "PruneSenderRecovery",
        StageId::MerkleUnwind => "MerkleUnwind",
        StageId::AccountHashing => "AccountHashing",
        StageId::StorageHashing => "StorageHashing",
        StageId::MerkleExecute => "MerkleExecute",
        StageId::TransactionLookup => "TransactionLookup",
        StageId::IndexStorageHistory => "IndexStorageHistory",
        StageId::IndexAccountHistory => "IndexAccountHistory",
        StageId::Prune => "Prune",
        StageId::Finish => "Finish",
    }
}

/// The stages whose tables overlap with full engine persistence. `Era` is not
/// among them, an independent optional import cursor; nor is `Finish`, the
/// durable watermark that every one of them is compared with.
pub open spec fn engine_persistence_owner_stages() -> Seq<StageId> {
    seq![
        StageId::Headers,
        StageId::Bodies,
        StageId::SenderRecovery,
        StageId::Execution,
        StageId::PruneSenderRecovery,
        StageId::MerkleUnwind,
        StageId::AccountHashing,
        StageId::StorageHashing,
        StageId::MerkleExecute,
        StageId::TransactionLookup,
        StageId::IndexStorageHistory,
        StageId::IndexAccountHistory,
        StageId::Prune,
    ]
}

/// The stages whose tables overlap with full engine persistence.
pub fn owner_stages() -> (r: Vec<StageId>)
    ensures
        r@ == engine_persistence_owner_stages(),
{
    let r: Vec<StageId> = vec![
        StageId::Headers,
        StageId::Bodies,
        StageId::SenderRecovery,
        StageId::Execution,
        StageId::PruneSenderRecovery,
        StageId::MerkleUnwind,
        StageId::AccountHashing,
        StageId::StorageHashing,
        StageId::MerkleExecute,
        StageId::TransactionLookup,
        StageId::IndexStorageHistory,
        StageId::IndexAccountHistory,
        StageId::Prune,
    ];
    assert(r@ =~= engine_persistence_owner_stages());
    r
}

/// What one transaction of the store says of its checkpoints, and which blocks
/// are canonical.
#[derive(Debug)]
pub struct StoreView {
    /// The checkpoints, by stage.
    pub checkpoints: Vec<(StageId, u64)>,
    /// The canonical blocks' hashes, by number.
    pub canonical: Vec<(u64, B256)>,
    /// Whether pruning of recovered senders is configured.
    pub sender_recovery: bool,
}

/// The checkpoint of `stage`, if it has one.
pub open spec fn checkpoint_of(checkpoints: Seq<(StageId, u64)>, stage: StageId) -> Option<u64>
    decreases checkpoints.len(),
{
    if checkpoints.len() == 0 {
        None
    } else if checkpoints.last().0 == stage {
        Some(checkpoints.last().1)
    } else {
        checkpoint_of(checkpoints.drop_last(), stage)
    }
}

/// The hash of the canonical block `number`, if there is one.
pub open spec fn hash_of(canonical: Seq<(u64, B256)>, number: u64) -> Option<B256>
    decreases canonical.len(),
{
    if canonical.len() == 0 {
        None
    } else if canonical.last().0 == number {
        Some(canonical.last().1)
    } else {
        hash_of(canonical.drop_last(), number)
    }
}

impl StoreView {
    /// The checkpoint of `stage`, if it has one.
    pub fn get_stage_checkpoint(&self, stage: StageId) -> (r: Option<u64>)
        ensures
            r == checkpoint_of(self.checkpoints@, stage),
    {
        let mut i: usize = self.checkpoints.len();
        assert(self.checkpoints@.take(i as int) =~= self.checkpoints@);
        while i > 0
            invariant
                i <= self.checkpoints@.len(),
                checkpoint_of(self.checkpoints@, stage) == checkpoint_of(
                    self.checkpoints@.take(i as int),
                    stage,
                ),
            decreases i,
        {
            assert(self.checkpoints@.take(i as int).drop_last() =~= self.checkpoints@.take(i - 1));
            if self.checkpoints[i - 1].0 == stage {
                return Some(self.checkpoints[i - 1].1);
            }
            i = i - 1;
        }
        None
    }

    /// The hash of the canonical block `number`, if there is one.
    pub fn block_hash(&self, number: u64) -> (r: Option<B256>)
        ensures
            r == hash_of(self.canonical@, number),
    {
        let mut i: usize = self.canonical.len();
        assert(self.canonical@.take(i as int) =~= self.canonical@);
        while i > 0
            invariant
                i <= self.canonical@.len(),
                hash_of(self.canonical@, number) == hash_of(
                    self.canonical@.take(i as int),
                    number,
                ),
            decreases i,
        {
            assert(self.canonical@.take(i as int).drop_last() =~= self.canonical@.take(i - 1));
            if self.canonical[i - 1].0 == number {
                return Some(self.canonical[i - 1].1);
            }
            i = i - 1;
        }
        None
    }
}

/// The checkpoint of one stage.
#[derive(Clone, Copy, Debug, PartialEq, Eq, Structural)]
pub struct PersistenceOwnerCheckpoint {
    pub stage: StageId,
    pub checkpoint: Option<u64>,
}

/// One view of the checkpoints and the durable block that matter to engine
/// persistence.
#[derive(Debug)]
pub struct PersistenceCheckpointSnapshot {
    pub finish: Option<u64>,
    pub finish_hash: Option<B256>,
    pub owners: Vec<PersistenceOwnerCheckpoint>,
}

/// `stage` is one whose checkpoint counts in this store. A checkpoint that is
/// left of sender pruning under another configuration counts for nothing: no
/// pipeline without that stage could mend it.
pub open spec fn counts(view: StoreView, stage: StageId) -> bool {
    stage != StageId::PruneSenderRecovery || view.sender_recovery
}

/// The checkpoints that count, of these stages.
pub open spec fn owners_in(view: StoreView, stages: Seq<StageId>) -> Seq<
    PersistenceOwnerCheckpoint,
>
    decreases stages.len(),
{
    if stages.len() == 0 {
        Seq::empty()
    } else {
        let earlier = owners_in(view, stages.drop_last());
        let stage = stages.last();
        if counts(view, stage) {
            earlier.push(
                PersistenceOwnerCheckpoint {
                    stage,
                    checkpoint: checkpoint_of(view.checkpoints@, stage),
                },
            )
        } else {
            earlier
        }
    }
}

/// `s` is what the store shows.
pub open spec fn shows(view: StoreView, s: PersistenceCheckpointSnapshot) -> bool {
    &&& s.finish == checkpoint_of(view.checkpoints@, StageId::Finish)
    &&& s.finish_hash == (match s.finish {
        Some(n) => hash_of(view.canonical@, n),
        None => None,
    })
    &&& s.owners@ == owners_in(view, engine_persistence_owner_stages())
}

/// Why engine persistence may not own the next range of blocks.
#[derive(Clone, Copy, Debug, PartialEq, Eq, Structural)]
pub enum PersistenceFenceError {
    /// The durable watermark is absent.
    MissingFinish,
    /// The store and the tree disagree about the last durable block's number.
    FinishDoesNotMatchLastPersisted { finish: u64, last_persisted: u64 },
    /// There is no canonical block at the watermark.
    MissingFinishBlockHash { finish: u64 },
    /// The store and the tree disagree about the durable block at one height.
    FinishHashDoesNotMatchLastPersisted { finish: BlockNumHash, last_persisted: BlockNumHash },
    /// An overlapping stage has no checkpoint.
    MissingOwnerStage { stage: StageId, finish: u64 },
    /// An overlapping stage is ahead of or behind the watermark.
    OwnerStageDoesNotMatchFinish { stage: StageId, checkpoint: u64, finish: u64 },
    /// The batch overlaps or skips the durable frontier.
    FirstBlockDoesNotExtendFinish { first_block: u64, finish: u64 },
    /// The batch's first block is on another branch than the frontier.
    FirstBlockParentDoesNotMatchFinish {
        first_block: BlockNumHash,
        parent_hash: B256,
        finish: BlockNumHash,
    },
    /// A later block of the batch overlaps or skips its predecessor.
    BatchBlockDoesNotExtendPrevious { previous: BlockNumHash, block: BlockNumHash },
    /// A later block of the batch is on another branch than its predecessor.
    BatchBlockParentDoesNotMatchPrevious {
        previous: BlockNumHash,
        block: BlockNumHash,
        parent_hash: B256,
    },
}

/// The first owner that does not stand at `finish`, as an error.
pub open spec fn owner_fault(
    owners: Seq<PersistenceOwnerCheckpoint>,
    finish: u64,
) -> Option<PersistenceFenceError>
    decreases owners.len(),
{
    if owners.len() == 0 {
        None
    } else {
        match owner_fault(owners.drop_last(), finish) {
            Some(e) => Some(e),
            None => match owners.last().checkpoint {
                None => Some(
                    PersistenceFenceError::MissingOwnerStage { stage: owners.last().stage, finish },
                ),
                Some(checkpoint) => if checkpoint != finish {
                    Some(
                        PersistenceFenceError::OwnerStageDoesNotMatchFinish {
                            stage: owners.last().stage,
                            checkpoint,
                            finish,
                        },
                    )
                } else {
                    None
                },
            },
        }
    }
}

/// What the fence says of a tree whose last durable block is `expected`.
pub open spec fn verdict(
    finish: Option<u64>,
    finish_hash: Option<B256>,
    owners: Seq<PersistenceOwnerCheckpoint>,
    expected: BlockNumHash,
) -> Result<BlockNumHash, PersistenceFenceError> {
    match finish {
        None => Err(PersistenceFenceError::MissingFinish),
        Some(n) => if n != expected.number {
            Err(
                PersistenceFenceError::FinishDoesNotMatchLastPersisted {
                    finish: n,
                    last_persisted: expected.number,
                },
            )
        } else {
            match finish_hash {
                None => Err(PersistenceFenceError::MissingFinishBlockHash { finish: n }),
                Some(h) => if h != expected.hash {
                    Err(
                        PersistenceFenceError::FinishHashDoesNotMatchLastPersisted {
                            finish: BlockNumHash { number: n, hash: h },
                            last_persisted: expected,
                        },
                    )
                } else {
                    match owner_fault(owners, n) {
                        Some(e) => Err(e),
                        None => Ok(BlockNumHash { number: n, hash: h }),
                    }
                },
            }
        },
    }
}

/// What is wrong with `first` as the block after the watermark.
pub open spec fn first_fault(
    finish: BlockNumHash,
    first: BlockNumHash,
    parent_hash: B256,
) -> Option<PersistenceFenceError> {
    if finish.number + 1 != first.number {
        Some(
            PersistenceFenceError::FirstBlockDoesNotExtendFinish {
                first_block: first.number,
                finish: finish.number,
            },
        )
    } else if parent_hash != finish.hash {
        Some(
            PersistenceFenceError::FirstBlockParentDoesNotMatchFinish {
                first_block: first,
                parent_hash,
                finish,
            },
        )
    } else {
        None
    }
}

/// What is wrong with `next` as the block after `previous`.
pub open spec fn next_fault(
    previous: BlockNumHash,
    next: BlockNumHash,
    parent_hash: B256,
) -> Option<PersistenceFenceError> {
    if previous.number + 1 != next.number {
        Some(PersistenceFenceError::BatchBlockDoesNotExtendPrevious { previous, block: next })
    } else if parent_hash != previous.hash {
        Some(
            PersistenceFenceError::BatchBlockParentDoesNotMatchPrevious {
                previous,
                block: next,
                parent_hash,
            },
        )
    } else {
        None
    }
}

/// The greatest of the checkpoints, or `least` if none is greater.
pub open spec fn highest(owners: Seq<PersistenceOwnerCheckpoint>, least: u64) -> u64
    decreases owners.len(),
{
    if owners.len() == 0 {
        least
    } else {
        let earlier = highest(owners.drop_last(), least);
        match owners.last().checkpoint {
            Some(c) => if c > earlier {
                c
            } else {
                earlier
            },
            None => earlier,
        }
    }
}

impl PersistenceCheckpointSnapshot {
    /// Reads the checkpoints that count and the watermark's block hash, all
    /// from one transaction.
    pub fn read(provider: &StoreView) -> (r: Self)
        ensures
            shows(*provider, r),
    {
        let finish: Option<u64> = provider.get_stage_checkpoint(StageId::Finish);
        let finish_hash: Option<B256> = match finish {
            Some(n) => provider.block_hash(n),
            None => None,
        };
        let stages: Vec<StageId> = owner_stages();
        let mut owners: Vec<PersistenceOwnerCheckpoint> = Vec::new();
        let mut i: usize = 0;
        while i < stages.len()
            invariant
                i <= stages@.len(),
                owners@ == owners_in(*provider, stages@.take(i as int)),
            decreases stages@.len() - i,
        {
            let stage: StageId = stages[i];
            assert(stages@.take(i + 1).drop_last() =~= stages@.take(i as int));
            if stage != StageId::PruneSenderRecovery || provider.sender_recovery {
                owners.push(
                    PersistenceOwnerCheckpoint {
                        stage,
                        checkpoint: provider.get_stage_checkpoint(stage),
                    },
                );
            }
            i = i + 1;
        }
        assert(stages@.take(i as int) =~= stages@);
        PersistenceCheckpointSnapshot { finish, finish_hash, owners }
    }

    /// Requires the watermark to be the tree's last durable block, and every
    /// overlapping stage to stand exactly at it.
    pub fn validate(&self, expected_last_persisted: BlockNumHash) -> (r: Result<
        BlockNumHash,
        PersistenceFenceError,
    >)
        ensures
            r == verdict(self.finish, self.finish_hash, self.owners@, expected_last_persisted),
    {
        let finish: u64 = match self.finish {
            Some(n) => n,
            None => {
                return Err(PersistenceFenceError::MissingFinish);
            },
        };
        if finish != expected_last_persisted.number {
            return Err(
                PersistenceFenceError::FinishDoesNotMatchLastPersisted {
                    finish,
                    last_persisted: expected_last_persisted.number,
                },
            );
        }
        let finish_hash: B256 = match self.finish_hash {
            Some(h) => h,
            None => {
                return Err(PersistenceFenceError::MissingFinishBlockHash { finish });
            },
        };
        let finish_num_hash = BlockNumHash { number: finish, hash: finish_hash };
        if finish_hash != expected_last_persisted.hash {
            return Err(
                PersistenceFenceError::FinishHashDoesNotMatchLastPersisted {
                    finish: finish_num_hash,
                    last_persisted: expected_last_persisted,
                },
            );
        }
        let mut i: usize = 0;
        while i < self.owners.len()
            invariant
                i <= self.owners@.len(),
                owner_fault(self.owners@.take(i as int), finish) is None,
                self.finish == Some(finish),
                self.finish_hash == Some(finish_hash),
                finish == expected_last_persisted.number,
                finish_hash == expected_last_persisted.hash,
            decreases self.owners@.len() - i,
        {
            let owner: PersistenceOwnerCheckpoint = self.owners[i];
            assert(self.owners@.take(i + 1).drop_last() =~= self.owners@.take(i as int));
            match owner.checkpoint {
                None => {
                    let e = PersistenceFenceError::MissingOwnerStage { stage: owner.stage, finish };
                    proof {
                        lemma_first_owner_fault(self.owners@, i + 1, finish, e);
                    }
                    return Err(e);
                },
                Some(checkpoint) => {
                    if checkpoint != finish {
                        let e = PersistenceFenceError::OwnerStageDoesNotMatchFinish {
                            stage: owner.stage,
                            checkpoint,
                            finish,
                        };
                        proof {
                            lemma_first_owner_fault(self.owners@, i + 1, finish, e);
                        }
                        return Err(e);
                    }
                },
            }
            i = i + 1;
        }
        assert(self.owners@.take(i as int) =~= self.owners@);
        Ok(finish_num_hash)
    }

    /// Requires the first block of a batch to extend the durable block,
    /// without a gap, an overlap or a fork.
    pub fn validate_first_block(
        finish: BlockNumHash,
        first_block: BlockNumHash,
        first_parent_hash: B256,
    ) -> (r: Result<(), PersistenceFenceError>)
        ensures
            r == (match first_fault(finish, first_block, first_parent_hash) {
                Some(e) => Err(e),
                None => Ok(()),
            }),
    {
        if finish.number.checked_add(1) != Some(first_block.number) {
            return Err(
                PersistenceFenceError::FirstBlockDoesNotExtendFinish {
                    first_block: first_block.number,
                    finish: finish.number,
                },
            );
        }
        if first_parent_hash != finish.hash {
            return Err(
                PersistenceFenceError::FirstBlockParentDoesNotMatchFinish {
                    first_block,
                    parent_hash: first_parent_hash,
                    finish,
                },
            );
        }
        Ok(())
    }

    /// Requires a later block of a batch to extend the one before it.
    pub fn validate_next_block(
        previous: BlockNumHash,
        next: BlockNumHash,
        next_parent_hash: B256,
    ) -> (r: Result<(), PersistenceFenceError>)
        ensures
            r == (match next_fault(previous, next, next_parent_hash) {
                Some(e) => Err(e),
                None => Ok(()),
            }),
    {
        if previous.number.checked_add(1) != Some(next.number) {
            return Err(
                PersistenceFenceError::BatchBlockDoesNotExtendPrevious { previous, block: next },
            );
        }
        if next_parent_hash != previous.hash {
            return Err(
                PersistenceFenceError::BatchBlockParentDoesNotMatchPrevious {
                    previous,
                    block: next,
                    parent_hash: next_parent_hash,
                },
            );
        }
        Ok(())
    }

    /// The highest checkpoint that a converging pipeline must cover.
    pub fn highest_checkpoint(&self, last_persisted: u64) -> (r: u64)
        ensures
            r == (match self.finish {
                Some(f) if f > highest(self.owners@, last_persisted) => f,
                _ => highest(self.owners@, last_persisted),
            }),
    {
        let mut top: u64 = last_persisted;
        let mut i: usize = 0;
        while i < self.owners.len()
            invariant
                i <= self.owners@.len(),
                top == highest(self.owners@.take(i as int), last_persisted),
            decreases self.owners@.len() - i,
        {
            assert(self.owners@.take(i + 1).drop_last() =~= self.owners@.take(i as int));
            if let Some(c) = self.owners[i].checkpoint {
                if c > top {
                    top = c;
                }
            }
            i = i + 1;
        }
        assert(self.owners@.take(i as int) =~= self.owners@);
        match self.finish {
            Some(f) => if f > top {
                f
            } else {
                top
            },
            None => top,
        }
    }
}

proof fn lemma_first_owner_fault(
    owners: Seq<PersistenceOwnerCheckpoint>,
    k: int,
    finish: u64,
    e: PersistenceFenceError,
)
    requires
        0 <= k <= owners.len(),
        owner_fault(owners.take(k), finish) == Some(e),
    ensures
        owner_fault(owners, finish) == Some(e),
    decreases owners.len(),
{
    if k == owners.len() {
        assert(owners.take(k) =~= owners);
    } else {
        assert(owners.drop_last().take(k) =~= owners.take(k));
        lemma_first_owner_fault(owners.drop_last(), k, finish, e);
    }
}

/// No owner is at fault exactly when every one of them stands at `finish`.
pub proof fn lemma_owners_aligned(owners: Seq<PersistenceOwnerCheckpoint>, finish: u64)
    ensures
        owner_fault(owners, finish) is None <==> forall|i: int|
            0 <= i < owners.len() ==> (#[trigger] owners[i]).checkpoint == Some(finish),
    decreases owners.len(),
{
    if owners.len() > 0 {
        let p = owners.drop_last();
        let n = owners.len() - 1;
        lemma_owners_aligned(p, finish);
        if owner_fault(owners, finish) is None {
            assert forall|i: int| 0 <= i < owners.len() implies (#[trigger] owners[i]).checkpoint
                == Some(finish) by {
                if i < n {
                    assert(p[i].checkpoint == Some(finish));
                }
            }
        }
        if forall|i: int|
            0 <= i < owners.len() ==> (#[trigger] owners[i]).checkpoint == Some(finish) {
            assert forall|i: int| 0 <= i < p.len() implies (#[trigger] p[i]).checkpoint == Some(
                finish,
            ) by {
                assert(owners[i].checkpoint == Some(finish));
            }
            assert(owners[n].checkpoint == Some(finish));
        }
    }
}

/// The fence opens exactly when the watermark is the tree's last durable block
/// and every owner stands at it.
pub proof fn lemma_fence_opens(
    finish: Option<u64>,
    finish_hash: Option<B256>,
    owners: Seq<PersistenceOwnerCheckpoint>,
    expected: BlockNumHash,
)
    ensures
        verdict(finish, finish_hash, owners, expected) is Ok <==> {
            &&& finish == Some(expected.number)
            &&& finish_hash == Some(expected.hash)
            &&& forall|i: int|
                0 <= i < owners.len() ==> (#[trigger] owners[i]).checkpoint == Some(
                    expected.number,
                )
        },
        verdict(finish, finish_hash, owners, expected) matches Ok(b) ==> b == expected,
{
    lemma_owners_aligned(owners, expected.number);
}

/// The highest checkpoint is none below any checkpoint, nor below the last
/// durable block, and is one of them.
pub proof fn lemma_highest(owners: Seq<PersistenceOwnerCheckpoint>, least: u64)
    ensures
        highest(owners, least) >= least,
        forall|i: int|
            0 <= i < owners.len() ==> ((#[trigger] owners[i]).checkpoint matches Some(c)
                ==> c <= highest(owners, least)),
        highest(owners, least) == least || exists|i: int|
            0 <= i < owners.len() && (#[trigger] owners[i]).checkpoint == Some(
                highest(owners, least),
            ),
    decreases owners.len(),
{
    if owners.len() > 0 {
        let p = owners.drop_last();
        let n = owners.len() - 1;
        let top = highest(owners, least);
        lemma_highest(p, least);
        assert forall|i: int| 0 <= i < owners.len() implies ((
        #[trigger] owners[i]).checkpoint matches Some(c) ==> c <= top) by {
            if i < n {
                assert(p[i] == owners[i]);
            }
        }
        if top != least {
            if top == highest(p, least) {
                let i = choose|i: int|
                    0 <= i < p.len() && (#[trigger] p[i]).checkpoint == Some(highest(p, least));
                assert(owners[i].checkpoint == Some(top));
            } else {
                assert(owners[n].checkpoint == Some(top));
            }
        }
    }
}

// ----------------------------------------------------------------- messages

/// A number and the bytes of a hash, as `alloy_eips` writes them.
pub open spec fn num_hash_text(number: u64, hash: Seq<u8>) -> Seq<char> {
    "NumHash { number: "@ + text::decimal_digits(number as nat) + ", hash: "@ + hash::prefixed(
        text::hex_digits(hash),
    ) + " }"@
}

/// `Debug` of `alloy_eips::NumHash`: the name of the type, then both fields by
/// name, the number in decimal and the hash with all of its digits.
#[verifier::external_body]
fn num_hash_debug(number: u64, hash: [u8; 32]) -> (s: String)
    ensures
        s@ == num_hash_text(number, hash@),
{
    format!("{:?}", alloy_eips::NumHash { number, hash: alloy_primitives::FixedBytes(hash) })
}

/// A block's number and hash, as they are written in messages.
pub open spec fn identity_text(b: BlockNumHash) -> Seq<char> {
    num_hash_text(b.number, b.hash.bytes())
}

/// A block's number and hash, as they are written in messages.
pub fn identity(b: &BlockNumHash) -> (r: String)
    ensures
        r@ == identity_text(*b),
{
    let bytes = b.hash.to_bytes();
    proof {
        primitives::lemma_b256_order(b.hash, b.hash);
    }
    num_hash_debug(b.number, to_array::<32>(bytes.as_slice()))
}

/// Five texts, one after the other.
pub open spec fn five(
    a: Seq<char>,
    b: Seq<char>,
    c: Seq<char>,
    d: Seq<char>,
    e: Seq<char>,
) -> Seq<char> {
    a + b + c + d + e
}

/// Five texts, one after the other.
pub fn join_five(a: &str, b: &str, c: &str, d: &str, e: &str) -> (r: String)
    ensures
        r@ == five(a@, b@, c@, d@, e@),
{
    let mut s: String = a.to_owned();
    s.append(b);
    s.append(c);
    s.append(d);
    s.append(e);
    s
}

/// What is said of the error.
pub open spec fn fence_message_of(e: PersistenceFenceError) -> Seq<char> {
    match e {
        PersistenceFenceError::MissingFinish => "Finish checkpoint is missing"@,
        PersistenceFenceError::FinishDoesNotMatchLastPersisted { finish, last_persisted } => five(
            "Finish checkpoint "@,
            text::decimal_digits(finish as nat),
            " does not match last persisted block "@,
            text::decimal_digits(last_persisted as nat),
            ""@,
        ),
        PersistenceFenceError::MissingFinishBlockHash { finish } => five(
            "canonical block hash for Finish checkpoint "@,
            text::decimal_digits(finish as nat),
            " is missing"@,
            ""@,
            ""@,
        ),
        PersistenceFenceError::FinishHashDoesNotMatchLastPersisted {
            finish,
            last_persisted,
        } => five(
            "Finish block "@,
            identity_text(finish),
            " does not match last persisted block "@,
            identity_text(last_persisted),
            ""@,
        ),
        PersistenceFenceError::MissingOwnerStage { stage, finish } => five(
            "owner stage "@,
            stage_name_of(stage),
            " is missing while Finish is "@,
            text::decimal_digits(finish as nat),
            ""@,
        ),
        PersistenceFenceError::OwnerStageDoesNotMatchFinish {
            stage,
            checkpoint,
            finish,
        } => five(
            "owner stage "@,
            stage_name_of(stage),
            " checkpoint "@,
            text::decimal_digits(checkpoint as nat),
            " does not match Finish "@,
        ) + text::decimal_digits(finish as nat),
        PersistenceFenceError::FirstBlockDoesNotExtendFinish { first_block, finish } => five(
            "first Engine persistence block "@,
            text::decimal_digits(first_block as nat),
            " does not extend Finish "@,
            text::decimal_digits(finish as nat),
            ""@,
        ),
        PersistenceFenceError::FirstBlockParentDoesNotMatchFinish {
            first_block,
            parent_hash,
            finish,
        } => five(
            "first Engine persistence block "@,
            identity_text(first_block),
            " has parent "@,
            hash::b256_text(parent_hash),
            ", not Finish "@,
        ) + identity_text(finish),
        PersistenceFenceError::BatchBlockDoesNotExtendPrevious { previous, block } => five(
            "Engine persistence batch block "@,
            identity_text(block),
            " does not extend previous block "@,
            identity_text(previous),
            ""@,
        ),
        PersistenceFenceError::BatchBlockParentDoesNotMatchPrevious {
            previous,
            block,
            parent_hash,
        } => five(
            "Engine persistence batch block "@,
            identity_text(block),
            " has parent "@,
            hash::b256_text(parent_hash),
            ", not previous block "@,
        ) + identity_text(previous),
    }
}

/// The stage that the error is about.
pub open spec fn fence_stage_of(e: PersistenceFenceError) -> StageId {
    match e {
        PersistenceFenceError::MissingOwnerStage { stage, .. } => stage,
        PersistenceFenceError::OwnerStageDoesNotMatchFinish { stage, .. } => stage,
        _ => StageId::Finish,
    }
}

/// The label that the error is counted under.
pub open spec fn fence_reason_of(e: PersistenceFenceError) -> Seq<char> {
    match e {
        PersistenceFenceError::MissingFinish => "missing_finish"@,
        PersistenceFenceError::FinishDoesNotMatchLastPersisted {
            ..
        } => "finish_last_persisted_mismatch"@,
        PersistenceFenceError::MissingFinishBlockHash { .. } => "missing_finish_hash"@,
        PersistenceFenceError::FinishHashDoesNotMatchLastPersisted {
            ..
        } => "finish_hash_mismatch"@,
        PersistenceFenceError::MissingOwnerStage { .. } => "missing_owner"@,
        PersistenceFenceError::OwnerStageDoesNotMatchFinish { .. } => "owner_finish_mismatch"@,
        PersistenceFenceError::FirstBlockDoesNotExtendFinish { .. } => "non_contiguous_batch"@,
        PersistenceFenceError::FirstBlockParentDoesNotMatchFinish { .. } => "wrong_parent"@,
        PersistenceFenceError::BatchBlockDoesNotExtendPrevious { .. } => "non_contiguous_batch"@,
        PersistenceFenceError::BatchBlockParentDoesNotMatchPrevious { .. } => "wrong_parent"@,
    }
}

impl PersistenceFenceError {
    /// The stage that the error is about.
    pub fn stage(&self) -> (r: StageId)
        ensures
            r == fence_stage_of(*self),
    {
        match self {
            PersistenceFenceError::MissingOwnerStage { stage, .. } => *stage,
            PersistenceFenceError::OwnerStageDoesNotMatchFinish { stage, .. } => *stage,
            _ => StageId::Finish,
        }
    }

    /// The label that the error is counted under.
    pub fn reason(&self) -> (r: &'static str)
        ensures
            r@ == fence_reason_of(*self),
    {
        match self {
            PersistenceFenceError::MissingFinish => "missing_finish",
            PersistenceFenceError::FinishDoesNotMatchLastPersisted {
                ..
            } => "finish_last_persisted_mismatch",
            PersistenceFenceError::MissingFinishBlockHash { .. } => "missing_finish_hash",
            PersistenceFenceError::FinishHashDoesNotMatchLastPersisted {
                ..
            } => "finish_hash_mismatch",
            PersistenceFenceError::MissingOwnerStage { .. } => "missing_owner",
            PersistenceFenceError::OwnerStageDoesNotMatchFinish { .. } => "owner_finish_mismatch",
            PersistenceFenceError::FirstBlockDoesNotExtendFinish { .. } => "non_contiguous_batch",
            PersistenceFenceError::FirstBlockParentDoesNotMatchFinish { .. } => "wrong_parent",
            PersistenceFenceError::BatchBlockDoesNotExtendPrevious { .. } => "non_contiguous_batch",
            PersistenceFenceError::BatchBlockParentDoesNotMatchPrevious { .. } => "wrong_parent",
        }
    }

    /// What is said of the error.
    pub fn message(&self) -> (r: String)
        ensures
            r@ == fence_message_of(*self),
    {
        match self {
            PersistenceFenceError::MissingFinish => "Finish checkpoint is missing".to_owned(),
            PersistenceFenceError::FinishDoesNotMatchLastPersisted {
                finish,
                last_persisted,
            } => join_five(
                "Finish checkpoint ",
                decimal(*finish).as_str(),
                " does not match last persisted block ",
                decimal(*last_persisted).as_str(),
                "",
            ),
            PersistenceFenceError::MissingFinishBlockHash { finish } => join_five(
                "canonical block hash for Finish checkpoint ",
                decimal(*finish).as_str(),
                " is missing",
                "",
                "",
            ),
            PersistenceFenceError::FinishHashDoesNotMatchLastPersisted {
                finish,
                last_persisted,
            } => join_five(
                "Finish block ",
                identity(finish).as_str(),
                " does not match last persisted block ",
                identity(last_persisted).as_str(),
                "",
            ),
            PersistenceFenceError::MissingOwnerStage { stage, finish } => join_five(
                "owner stage ",
                stage_name(*stage),
                " is missing while Finish is ",
                decimal(*finish).as_str(),
                "",
            ),
            PersistenceFenceError::OwnerStageDoesNotMatchFinish { stage, checkpoint, finish } => {
                let mut s = join_five(
                    "owner stage ",
                    stage_name(*stage),
                    " checkpoint ",
                    decimal(*checkpoint).as_str(),
                    " does not match Finish ",
                );
                s.append(decimal(*finish).as_str());
                s
            },
            PersistenceFenceError::FirstBlockDoesNotExtendFinish {
                first_block,
                finish,
            } => join_five(
                "first Engine persistence block ",
                decimal(*first_block).as_str(),
                " does not extend Finish ",
                decimal(*finish).as_str(),
                "",
            ),
            PersistenceFenceError::FirstBlockParentDoesNotMatchFinish {
                first_block,
                parent_hash,
                finish,
            } => {
                let mut s = join_five(
                    "first Engine persistence block ",
                    identity(first_block).as_str(),
                    " has parent ",
                    hex_b256(parent_hash).as_str(),
                    ", not Finish ",
                );
                s.append(identity(finish).as_str());
                s
            },
            PersistenceFenceError::BatchBlockDoesNotExtendPrevious {
                previous,
                block,
            } => join_five(
                "Engine persistence batch block ",
                identity(block).as_str(),
                " does not extend previous block ",
                identity(previous).as_str(),
                "",
            ),
            PersistenceFenceError::BatchBlockParentDoesNotMatchPrevious {
                previous,
                block,
                parent_hash,
            } => {
                let mut s = join_five(
                    "Engine persistence batch block ",
                    identity(block).as_str(),
                    " has parent ",
                    hex_b256(parent_hash).as_str(),
                    ", not previous block ",
                );
                s.append(identity(previous).as_str());
                s
            },
        }
    }
}

} // verus!
