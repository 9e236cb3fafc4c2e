//! What may become durable, and what then does: the promises of the fence and of
//! the persistence service, in terms of what the store shows and of the blocks.

use vstd::prelude::*;

use crate::persistence;
use crate::persistence::{
    ExecutedBlock, JobView, Link, PersistenceActionResult, PersistenceError, PersistenceService,
    ServiceStep, ServiceView, StoreCall, StoreReply,
};
use crate::persistence_fence;
use crate::persistence_fence::{
    PersistenceCheckpointSnapshot, PersistenceFenceError, PersistenceOwnerCheckpoint, StageId,
    StoreView,
};
use crate::primitives::{BlockNumHash, B256};

verus! {

// --------------------------------------------------------------------- store

/// The last checkpoint that is recorded for `stage` is `n`.
pub open spec fn stands_at(view: StoreView, stage: StageId, n: u64) -> bool {
    exists|k: int|
        {
            &&& 0 <= k < view.checkpoints@.len()
            &&& #[trigger] view.checkpoints@[k] == (stage, n)
            &&& forall|j: int|
                k < j < view.checkpoints@.len() ==> (#[trigger] view.checkpoints@[j]).0 != stage
        }
}

/// No checkpoint is recorded for `stage`.
pub open spec fn stands_nowhere(view: StoreView, stage: StageId) -> bool {
    forall|k: int|
        0 <= k < view.checkpoints@.len() ==> (#[trigger] view.checkpoints@[k]).0 != stage
}

/// The last hash that is recorded for block `n` is `h`.
pub open spec fn has_block(view: StoreView, n: u64, h: B256) -> bool {
    exists|k: int|
        {
            &&& 0 <= k < view.canonical@.len()
            &&& #[trigger] view.canonical@[k] == (n, h)
            &&& forall|j: int|
                k < j < view.canonical@.len() ==> (#[trigger] view.canonical@[j]).0 != n
        }
}

/// No hash is recorded for block `n`.
pub open spec fn lacks_block(view: StoreView, n: u64) -> bool {
    forall|k: int| 0 <= k < view.canonical@.len() ==> (#[trigger] view.canonical@[k]).0 != n
}

proof fn lemma_checkpoint_of(pairs: Seq<(StageId, u64)>, stage: StageId)
    ensures
        match persistence_fence::checkpoint_of(pairs, stage) {
            Some(n) => exists|k: int|
                {
                    &&& 0 <= k < pairs.len()
                    &&& #[trigger] pairs[k] == (stage, n)
                    &&& forall|j: int| k < j < pairs.len() ==> (#[trigger] pairs[j]).0 != stage
                },
            None => forall|k: int| 0 <= k < pairs.len() ==> (#[trigger] pairs[k]).0 != stage,
        },
    decreases pairs.len(),
{
    if pairs.len() > 0 {
        let p = pairs.drop_last();
        lemma_checkpoint_of(p, stage);
        if pairs.last().0 == stage {
            assert(pairs[pairs.len() - 1] == (stage, pairs.last().1));
        } else if let Some(n) = persistence_fence::checkpoint_of(p, stage) {
            let k = choose|k: int|
                {
                    &&& 0 <= k < p.len()
                    &&& #[trigger] p[k] == (stage, n)
                    &&& forall|j: int| k < j < p.len() ==> (#[trigger] p[j]).0 != stage
                };
            assert(pairs[k] == (stage, n));
            assert forall|j: int| k < j < pairs.len() implies (#[trigger] pairs[j]).0 != stage by {
                if j < p.len() {
                    assert(p[j] == pairs[j]);
                }
            }
        } else {
            assert forall|j: int| 0 <= j < pairs.len() implies (#[trigger] pairs[j]).0 != stage by {
                if j < p.len() {
                    assert(p[j] == pairs[j]);
                }
            }
        }
    }
}

proof fn lemma_hash_of(pairs: Seq<(u64, B256)>, n: u64)
    ensures
        match persistence_fence::hash_of(pairs, n) {
            Some(h) => exists|k: int|
                {
                    &&& 0 <= k < pairs.len()
                    &&& #[trigger] pairs[k] == (n, h)
                    &&& forall|j: int| k < j < pairs.len() ==> (#[trigger] pairs[j]).0 != n
                },
            None => forall|k: int| 0 <= k < pairs.len() ==> (#[trigger] pairs[k]).0 != n,
        },
    decreases pairs.len(),
{
    if pairs.len() > 0 {
        let p = pairs.drop_last();
        lemma_hash_of(p, n);
        if pairs.last().0 == n {
            assert(pairs[pairs.len() - 1] == (n, pairs.last().1));
        } else if let Some(h) = persistence_fence::hash_of(p, n) {
            let k = choose|k: int|
                {
                    &&& 0 <= k < p.len()
                    &&& #[trigger] p[k] == (n, h)
                    &&& forall|j: int| k < j < p.len() ==> (#[trigger] p[j]).0 != n
                };
            assert(pairs[k] == (n, h));
            assert forall|j: int| k < j < pairs.len() implies (#[trigger] pairs[j]).0 != n by {
                if j < p.len() {
                    assert(p[j] == pairs[j]);
                }
            }
        } else {
            assert forall|j: int| 0 <= j < pairs.len() implies (#[trigger] pairs[j]).0 != n by {
                if j < p.len() {
                    assert(p[j] == pairs[j]);
                }
            }
        }
    }
}

/// A store gives, for a stage, the last checkpoint that is recorded for it, and
/// none only where none is.
pub proof fn lemma_store_checkpoint(view: StoreView, stage: StageId, r: Option<u64>)
    requires
        call_ensures(StoreView::get_stage_checkpoint, (&view, stage), r),
    ensures
        r matches Some(n) ==> stands_at(view, stage, n),
        r is None ==> stands_nowhere(view, stage),
{
    lemma_checkpoint_of(view.checkpoints@, stage);
}

/// A store gives, for a block's number, the last hash that is recorded for it,
/// and none only where none is.
pub proof fn lemma_store_hash(view: StoreView, n: u64, r: Option<B256>)
    requires
        call_ensures(StoreView::block_hash, (&view, n), r),
    ensures
        r matches Some(h) ==> has_block(view, n, h),
        r is None ==> lacks_block(view, n),
{
    lemma_hash_of(view.canonical@, n);
}

proof fn lemma_one_checkpoint(view: StoreView, stage: StageId)
    ensures
        forall|n: u64|
            #[trigger] stands_at(view, stage, n) <==> persistence_fence::checkpoint_of(
                view.checkpoints@,
                stage,
            ) == Some(n),
        stands_nowhere(view, stage) <==> persistence_fence::checkpoint_of(
            view.checkpoints@,
            stage,
        ) is None,
{
    lemma_checkpoint_of(view.checkpoints@, stage);
    let c = view.checkpoints@;
    assert forall|n: u64|
        #[trigger] stands_at(view, stage, n) implies persistence_fence::checkpoint_of(c, stage)
        == Some(n) by {
        let k = choose|k: int|
            {
                &&& 0 <= k < c.len()
                &&& #[trigger] c[k] == (stage, n)
                &&& forall|j: int| k < j < c.len() ==> (#[trigger] c[j]).0 != stage
            };
        assert(c[k].0 == stage);
        if let Some(m) = persistence_fence::checkpoint_of(c, stage) {
            let l = choose|l: int|
                {
                    &&& 0 <= l < c.len()
                    &&& #[trigger] c[l] == (stage, m)
                    &&& forall|j: int| l < j < c.len() ==> (#[trigger] c[j]).0 != stage
                };
            assert(c[l].0 == stage);
        }
    }
}

proof fn lemma_one_hash(view: StoreView, n: u64)
    ensures
        forall|h: B256|
            #[trigger] has_block(view, n, h) <==> persistence_fence::hash_of(view.canonical@, n)
                == Some(h),
        lacks_block(view, n) <==> persistence_fence::hash_of(view.canonical@, n) is None,
{
    lemma_hash_of(view.canonical@, n);
    let c = view.canonical@;
    assert forall|h: B256| #[trigger] has_block(view, n, h) implies persistence_fence::hash_of(
        c,
        n,
    ) == Some(h) by {
        let k = choose|k: int|
            {
                &&& 0 <= k < c.len()
                &&& #[trigger] c[k] == (n, h)
                &&& forall|j: int| k < j < c.len() ==> (#[trigger] c[j]).0 != n
            };
        assert(c[k].0 == n);
        if let Some(g) = persistence_fence::hash_of(c, n) {
            let l = choose|l: int|
                {
                    &&& 0 <= l < c.len()
                    &&& #[trigger] c[l] == (n, g)
                    &&& forall|j: int| l < j < c.len() ==> (#[trigger] c[j]).0 != n
                };
            assert(c[l].0 == n);
        }
    }
}

// --------------------------------------------------------------------- fence

/// The place of a stage in the pipeline.
pub open spec fn place(stage: StageId) -> int {
    match stage {
        StageId::Era => 0,
        StageId::Headers => 1,
        StageId::Bodies => 2,
        StageId::SenderRecovery => 3,
        StageId::Execution => 4,
        StageId::PruneSenderRecovery => 5,
        StageId::MerkleUnwind => 6,
        StageId::AccountHashing => 7,
        StageId::StorageHashing => 8,
        StageId::MerkleExecute => 9,
        StageId::TransactionLookup => 10,
        StageId::IndexStorageHistory => 11,
        StageId::IndexAccountHistory => 12,
        StageId::Prune => 13,
        StageId::Finish => 14,
    }
}

/// The stage writes what persistence writes: every stage of the pipeline does but
/// the import, which is a cursor of its own, and the watermark itself; pruning of
/// recovered senders only where it is configured.
pub open spec fn overlaps(view: StoreView, stage: StageId) -> bool {
    &&& stage != StageId::Era
    &&& stage != StageId::Finish
    &&& stage == StageId::PruneSenderRecovery ==> view.sender_recovery
}

proof fn lemma_listed(stage: StageId)
    ensures
        persistence_fence::engine_persistence_owner_stages().len() == 13,
        stage != StageId::Era && stage != StageId::Finish
            ==> persistence_fence::engine_persistence_owner_stages()[place(stage) - 1] == stage,
        forall|i: int|
            0 <= i < 13 ==> place(
                #[trigger] persistence_fence::engine_persistence_owner_stages()[i],
            ) == i + 1,
{
    let all = persistence_fence::engine_persistence_owner_stages();
    assert(place(all[0]) == 1 && place(all[1]) == 2 && place(all[2]) == 3 && place(all[3]) == 4);
    assert(place(all[4]) == 5 && place(all[5]) == 6 && place(all[6]) == 7 && place(all[7]) == 8);
    assert(place(all[8]) == 9 && place(all[9]) == 10 && place(all[10]) == 11);
    assert(place(all[11]) == 12 && place(all[12]) == 13);
}

/// The stages whose tables overlap are these thirteen, and in this order.
pub proof fn lemma_owner_stages(r: Vec<StageId>)
    requires
        call_ensures(persistence_fence::owner_stages, (), r),
    ensures
        r@.len() == 13,
        forall|i: int| 0 <= i < 13 ==> place(#[trigger] r@[i]) == i + 1,
{
    lemma_listed(StageId::Headers);
}

proof fn lemma_owners_in(view: StoreView, n: int)
    requires
        0 <= n <= 13,
    ensures
        ({
            let all = persistence_fence::engine_persistence_owner_stages();
            let owners = persistence_fence::owners_in(view, all.take(n));
            &&& forall|i: int|
                0 <= i < owners.len() ==> {
                    let o = #[trigger] owners[i];
                    &&& overlaps(view, o.stage)
                    &&& 1 <= place(o.stage) <= n
                    &&& o.checkpoint == persistence_fence::checkpoint_of(
                        view.checkpoints@,
                        o.stage,
                    )
                }
            &&& forall|i: int, j: int|
                0 <= i < j < owners.len() ==> place((#[trigger] owners[i]).stage) < place(
                    (#[trigger] owners[j]).stage,
                )
            &&& forall|stage: StageId|
                #[trigger] overlaps(view, stage) && place(stage) <= n ==> exists|i: int|
                    0 <= i < owners.len() && (#[trigger] owners[i]).stage == stage
        }),
    decreases n,
{
    let all = persistence_fence::engine_persistence_owner_stages();
    lemma_listed(StageId::Headers);
    let s = all.take(n);
    let owners = persistence_fence::owners_in(view, s);
    if n > 0 {
        lemma_owners_in(view, n - 1);
        assert(s.drop_last() =~= all.take(n - 1));
        let e = persistence_fence::owners_in(view, all.take(n - 1));
        assert(place(all[n - 1]) == n);
        assert(s.last() == all[n - 1]);
        assert forall|stage: StageId|
            #[trigger] overlaps(view, stage) && place(stage) <= n implies exists|i: int|
            0 <= i < owners.len() && (#[trigger] owners[i]).stage == stage by {
            lemma_listed(stage);
            if place(stage) < n {
                let i = choose|i: int| 0 <= i < e.len() && (#[trigger] e[i]).stage == stage;
                assert(owners[i].stage == stage);
            } else {
                assert(stage == all[n - 1]);
                assert(owners[owners.len() - 1].stage == stage);
            }
        }
        assert forall|i: int, j: int| 0 <= i < j < owners.len() implies place(
            (#[trigger] owners[i]).stage,
        ) < place((#[trigger] owners[j]).stage) by {
            assert(owners[i] == e[i]);
            if j < e.len() {
                assert(owners[j] == e[j]);
            }
        }
        assert forall|i: int| 0 <= i < owners.len() implies {
            let o = #[trigger] owners[i];
            &&& overlaps(view, o.stage)
            &&& 1 <= place(o.stage) <= n
            &&& o.checkpoint == persistence_fence::checkpoint_of(view.checkpoints@, o.stage)
        } by {
            if i < e.len() {
                assert(owners[i] == e[i]);
            }
        }
    } else {
        assert forall|stage: StageId|
            #[trigger] overlaps(view, stage) && place(stage) <= n implies exists|i: int|
            0 <= i < owners.len() && (#[trigger] owners[i]).stage == stage by {
            lemma_listed(stage);
        }
    }
}

/// Reading a store takes in the checkpoint of every stage that overlaps, of each
/// once and in the order of the pipeline, and the hash of the block that the
/// watermark names.
pub proof fn lemma_snapshot_reads_every_owner(
    view: StoreView,
    s: PersistenceCheckpointSnapshot,
)
    requires
        call_ensures(PersistenceCheckpointSnapshot::read, (&view,), s),
    ensures
        s.finish matches Some(n) ==> stands_at(view, StageId::Finish, n),
        s.finish is None ==> stands_nowhere(view, StageId::Finish) && s.finish_hash is None,
        s.finish matches Some(n) ==> {
            &&& s.finish_hash matches Some(h) ==> has_block(view, n, h)
            &&& s.finish_hash is None ==> lacks_block(view, n)
        },
        forall|stage: StageId|
            #[trigger] overlaps(view, stage) ==> exists|i: int|
                0 <= i < s.owners@.len() && (#[trigger] s.owners@[i]).stage == stage,
        forall|i: int|
            0 <= i < s.owners@.len() ==> {
                let o = #[trigger] s.owners@[i];
                &&& overlaps(view, o.stage)
                &&& o.checkpoint matches Some(n) ==> stands_at(view, o.stage, n)
                &&& o.checkpoint is None ==> stands_nowhere(view, o.stage)
            },
        forall|i: int, j: int|
            0 <= i < j < s.owners@.len() ==> place((#[trigger] s.owners@[i]).stage) < place(
                (#[trigger] s.owners@[j]).stage,
            ),
{
    let all = persistence_fence::engine_persistence_owner_stages();
    lemma_listed(StageId::Headers);
    lemma_owners_in(view, 13);
    assert(all.take(13) =~= all);
    lemma_one_checkpoint(view, StageId::Finish);
    if let Some(n) = s.finish {
        lemma_one_hash(view, n);
    }
    assert forall|stage: StageId| #[trigger] overlaps(view, stage) implies exists|i: int|
        0 <= i < s.owners@.len() && (#[trigger] s.owners@[i]).stage == stage by {
        lemma_listed(stage);
        assert(place(stage) <= 13);
    }
    assert forall|i: int| 0 <= i < s.owners@.len() implies {
        let o = #[trigger] s.owners@[i];
        &&& overlaps(view, o.stage)
        &&& o.checkpoint matches Some(n) ==> stands_at(view, o.stage, n)
        &&& o.checkpoint is None ==> stands_nowhere(view, o.stage)
    } by {
        lemma_one_checkpoint(view, s.owners@[i].stage);
    }
}

/// Every stage that overlaps stands at `n`.
pub open spec fn all_stand_at(view: StoreView, n: u64) -> bool {
    forall|stage: StageId| #[trigger] overlaps(view, stage) ==> stands_at(view, stage, n)
}

/// The blocks are one chain behind `finish`: no gap, no overlap, each on the one
/// before it.
pub open spec fn one_chain(finish: BlockNumHash, links: Seq<Link>) -> bool {
    &&& links.len() > 0 ==> links[0].block.number == finish.number + 1 && links[0].parent
        == finish.hash
    &&& forall|i: int, j: int|
        0 <= i && j == i + 1 && j < links.len() ==> (#[trigger] links[j]).block.number == (
        #[trigger] links[i]).block.number + 1 && links[j].parent == links[i].block.hash
}

proof fn lemma_aligned(view: StoreView, n: u64)
    ensures
        ({
            let owners = persistence_fence::owners_in(
                view,
                persistence_fence::engine_persistence_owner_stages(),
            );
            all_stand_at(view, n) <==> forall|i: int|
                0 <= i < owners.len() ==> (#[trigger] owners[i]).checkpoint == Some(n)
        }),
{
    let all = persistence_fence::engine_persistence_owner_stages();
    lemma_listed(StageId::Headers);
    lemma_owners_in(view, 13);
    assert(all.take(13) =~= all);
    let owners = persistence_fence::owners_in(view, all);
    if all_stand_at(view, n) {
        assert forall|i: int| 0 <= i < owners.len() implies (#[trigger] owners[i]).checkpoint
            == Some(n) by {
            lemma_one_checkpoint(view, owners[i].stage);
            assert(overlaps(view, owners[i].stage));
            assert(stands_at(view, owners[i].stage, n));
        }
    }
    if forall|i: int| 0 <= i < owners.len() ==> (#[trigger] owners[i]).checkpoint == Some(n) {
        assert forall|stage: StageId| #[trigger] overlaps(view, stage) implies stands_at(
            view,
            stage,
            n,
        ) by {
            lemma_listed(stage);
            let i = choose|i: int| 0 <= i < owners.len() && (#[trigger] owners[i]).stage == stage;
            assert(owners[i].checkpoint == Some(n));
            lemma_one_checkpoint(view, stage);
        }
    }
}

/// A batch is admitted exactly where the watermark and every stage that overlaps
/// stand at the tree's last durable block, the store has that very block, and the
/// batch is one chain behind it.
pub proof fn lemma_batch_admitted(
    view: StoreView,
    expected: BlockNumHash,
    links: Vec<Link>,
    r: Result<(), PersistenceFenceError>,
)
    requires
        links@.len() > 0,
        call_ensures(persistence::check_batch, (&view, expected, &links), r),
    ensures
        r is Ok <==> {
            &&& stands_at(view, StageId::Finish, expected.number)
            &&& has_block(view, expected.number, expected.hash)
            &&& all_stand_at(view, expected.number)
            &&& one_chain(expected, links@)
        },
{
    lemma_admitted(view, expected, links@);
}

proof fn lemma_admitted(view: StoreView, expected: BlockNumHash, links: Seq<Link>)
    requires
        links.len() > 0,
    ensures
        persistence::admission(view, expected, links) is None <==> {
            &&& stands_at(view, StageId::Finish, expected.number)
            &&& has_block(view, expected.number, expected.hash)
            &&& all_stand_at(view, expected.number)
            &&& one_chain(expected, links)
        },
{
    persistence::lemma_admission(view, expected, links);
    lemma_one_checkpoint(view, StageId::Finish);
    lemma_one_hash(view, expected.number);
    lemma_aligned(view, expected.number);
    lemma_chain(expected, links);
}

proof fn lemma_chain(finish: BlockNumHash, links: Seq<Link>)
    requires
        links.len() > 0,
    ensures
        persistence::extends(finish, links) <==> one_chain(finish, links),
{
    if one_chain(finish, links) {
        assert forall|i: int| 1 <= i < links.len() implies (#[trigger] links[i]).block.number
            == links[i - 1].block.number + 1 && links[i].parent == links[i - 1].block.hash by {
            assert(links[i - 1].block == links[i - 1].block);
        }
    }
}

/// Each of the thirteen stages, one by one: a batch is admitted only where it
/// stands at the tree's last durable block.
pub proof fn lemma_admitted_only_behind_every_stage(
    view: StoreView,
    expected: BlockNumHash,
    links: Vec<Link>,
)
    requires
        links@.len() > 0,
        call_ensures(
            persistence::check_batch,
            (&view, expected, &links),
            Ok::<(), PersistenceFenceError>(()),
        ),
    ensures
        stands_at(view, StageId::Finish, expected.number),
        stands_at(view, StageId::Headers, expected.number),
        stands_at(view, StageId::Bodies, expected.number),
        stands_at(view, StageId::SenderRecovery, expected.number),
        stands_at(view, StageId::Execution, expected.number),
        view.sender_recovery ==> stands_at(view, StageId::PruneSenderRecovery, expected.number),
        stands_at(view, StageId::MerkleUnwind, expected.number),
        stands_at(view, StageId::AccountHashing, expected.number),
        stands_at(view, StageId::StorageHashing, expected.number),
        stands_at(view, StageId::MerkleExecute, expected.number),
        stands_at(view, StageId::TransactionLookup, expected.number),
        stands_at(view, StageId::IndexStorageHistory, expected.number),
        stands_at(view, StageId::IndexAccountHistory, expected.number),
        stands_at(view, StageId::Prune, expected.number),
{
    lemma_admitted(view, expected, links@);
    assert(overlaps(view, StageId::Headers) && overlaps(view, StageId::Bodies));
    assert(overlaps(view, StageId::SenderRecovery) && overlaps(view, StageId::Execution));
    assert(view.sender_recovery ==> overlaps(view, StageId::PruneSenderRecovery));
    assert(overlaps(view, StageId::MerkleUnwind) && overlaps(view, StageId::AccountHashing));
    assert(overlaps(view, StageId::StorageHashing) && overlaps(view, StageId::MerkleExecute));
    assert(overlaps(view, StageId::TransactionLookup));
    assert(overlaps(view, StageId::IndexStorageHistory));
    assert(overlaps(view, StageId::IndexAccountHistory) && overlaps(view, StageId::Prune));
}

/// The owner at `k` is the first that does not stand at `finish`, and `e` says so.
pub open spec fn owner_wrong(
    owners: Seq<PersistenceOwnerCheckpoint>,
    k: int,
    finish: u64,
    e: PersistenceFenceError,
) -> bool {
    &&& 0 <= k < owners.len()
    &&& forall|i: int| 0 <= i < k ==> (#[trigger] owners[i]).checkpoint == Some(finish)
    &&& match owners[k].checkpoint {
        None => e == (PersistenceFenceError::MissingOwnerStage { stage: owners[k].stage, finish }),
        Some(c) => c != finish && e == (PersistenceFenceError::OwnerStageDoesNotMatchFinish {
            stage: owners[k].stage,
            checkpoint: c,
            finish,
        }),
    }
}

proof fn lemma_owner_fault_at(owners: Seq<PersistenceOwnerCheckpoint>, finish: u64)
    ensures
        persistence_fence::owner_fault(owners, finish) matches Some(e) ==> exists|k: int| #[trigger]
            owner_wrong(owners, k, finish, e),
    decreases owners.len(),
{
    if owners.len() > 0 {
        let p = owners.drop_last();
        lemma_owner_fault_at(p, finish);
        persistence_fence::lemma_owners_aligned(p, finish);
        if let Some(e) = persistence_fence::owner_fault(owners, finish) {
            let k = if persistence_fence::owner_fault(p, finish) is Some {
                choose|k: int| #[trigger] owner_wrong(p, k, finish, e)
            } else {
                owners.len() - 1
            };
            assert forall|i: int| 0 <= i < k implies (#[trigger] owners[i]).checkpoint == Some(
                finish,
            ) by {
                assert(p[i] == owners[i]);
            }
            assert(owner_wrong(owners, k, finish, e));
        }
    }
}

/// `stage` overlaps, every stage before it stands at `n`, and `e` says that it
/// does not.
pub open spec fn stage_refused(
    view: StoreView,
    stage: StageId,
    n: u64,
    e: PersistenceFenceError,
) -> bool {
    &&& overlaps(view, stage)
    &&& forall|earlier: StageId|
        #[trigger] overlaps(view, earlier) && place(earlier) < place(stage) ==> stands_at(
            view,
            earlier,
            n,
        )
    &&& {
        ||| stands_nowhere(view, stage) && e == (PersistenceFenceError::MissingOwnerStage {
            stage,
            finish: n,
        })
        ||| exists|c: u64| #[trigger]
            stands_at(view, stage, c) && c != n && e == (
            PersistenceFenceError::OwnerStageDoesNotMatchFinish { stage, checkpoint: c, finish: n })
    }
}

proof fn lemma_stage_refused(view: StoreView, finish: u64, e: PersistenceFenceError)
    requires
        persistence_fence::owner_fault(
            persistence_fence::owners_in(
                view,
                persistence_fence::engine_persistence_owner_stages(),
            ),
            finish,
        ) == Some(e),
    ensures
        exists|stage: StageId| #[trigger] stage_refused(view, stage, finish, e),
{
    let all = persistence_fence::engine_persistence_owner_stages();
    let owners = persistence_fence::owners_in(view, all);
    lemma_listed(StageId::Headers);
    lemma_owners_in(view, 13);
    assert(all.take(13) =~= all);
    lemma_owner_fault_at(owners, finish);
    let k = choose|k: int| #[trigger] owner_wrong(owners, k, finish, e);
    let stage = owners[k].stage;
    lemma_one_checkpoint(view, stage);
    assert forall|earlier: StageId|
        #[trigger] overlaps(view, earlier) && place(earlier) < place(stage) implies stands_at(
        view,
        earlier,
        finish,
    ) by {
        lemma_listed(earlier);
        let i = choose|i: int| 0 <= i < owners.len() && (#[trigger] owners[i]).stage == earlier;
        if k < i {
            assert(place(owners[k].stage) < place(owners[i].stage));
        }
        assert(owners[i].checkpoint == Some(finish));
        lemma_one_checkpoint(view, earlier);
    }
    if let Some(c) = owners[k].checkpoint {
        assert(stands_at(view, stage, c));
    }
    assert(stage_refused(view, stage, finish, e));
}

/// What a refusal by the fence says is so, and is the first thing that is wrong:
/// the watermark before its block, its block before the stages, the stages in the
/// order of the pipeline, and these before the batch, block by block.
pub proof fn lemma_refusal_is_true(
    view: StoreView,
    expected: BlockNumHash,
    links: Vec<Link>,
    e: PersistenceFenceError,
)
    requires
        links@.len() > 0,
        call_ensures(
            persistence::check_batch,
            (&view, expected, &links),
            Err::<(), PersistenceFenceError>(e),
        ),
    ensures
        stands_nowhere(view, StageId::Finish) ==> e == PersistenceFenceError::MissingFinish,
        forall|n: u64|
            #[trigger] stands_at(view, StageId::Finish, n) && n != expected.number ==> e == (
            PersistenceFenceError::FinishDoesNotMatchLastPersisted {
                finish: n,
                last_persisted: expected.number,
            }),
        stands_at(view, StageId::Finish, expected.number) && lacks_block(view, expected.number)
            ==> e == (PersistenceFenceError::MissingFinishBlockHash { finish: expected.number }),
        stands_at(view, StageId::Finish, expected.number) ==> forall|h: B256|
            #[trigger] has_block(view, expected.number, h) && h != expected.hash ==> e == (
            PersistenceFenceError::FinishHashDoesNotMatchLastPersisted {
                finish: BlockNumHash { number: expected.number, hash: h },
                last_persisted: expected,
            }),
        stands_at(view, StageId::Finish, expected.number) && has_block(
            view,
            expected.number,
            expected.hash,
        ) && !all_stand_at(view, expected.number) ==> exists|stage: StageId| #[trigger]
            stage_refused(view, stage, expected.number, e),
        stands_at(view, StageId::Finish, expected.number) && has_block(
            view,
            expected.number,
            expected.hash,
        ) && all_stand_at(view, expected.number) ==> !one_chain(expected, links@)
            && batch_refused(expected, links@, e),
{
    lemma_one_checkpoint(view, StageId::Finish);
    lemma_one_hash(view, expected.number);
    if persistence_fence::checkpoint_of(view.checkpoints@, StageId::Finish) == Some(
        expected.number,
    ) && persistence_fence::hash_of(view.canonical@, expected.number) == Some(expected.hash) {
        let owners = persistence_fence::owners_in(
            view,
            persistence_fence::engine_persistence_owner_stages(),
        );
        lemma_aligned(view, expected.number);
        persistence_fence::lemma_owners_aligned(owners, expected.number);
        if !all_stand_at(view, expected.number) {
            lemma_stage_refused(view, expected.number, e);
        } else {
            lemma_batch_refused(expected, links@);
            lemma_admitted(view, expected, links@);
        }
    }
}

/// The block at `k` is the first that does not go on where the one before it
/// ended, and `e` says what is wrong with it.
pub open spec fn block_refused(
    finish: BlockNumHash,
    links: Seq<Link>,
    k: int,
    e: PersistenceFenceError,
) -> bool {
    let b = links[k].block;
    let parent_hash = links[k].parent;
    let previous = if k == 0 {
        finish
    } else {
        links[k - 1].block
    };
    &&& 0 <= k < links.len()
    &&& one_chain(finish, links.take(k))
    &&& if b.number != previous.number + 1 {
        if k == 0 {
            e == (PersistenceFenceError::FirstBlockDoesNotExtendFinish {
                first_block: b.number,
                finish: finish.number,
            })
        } else {
            e == (PersistenceFenceError::BatchBlockDoesNotExtendPrevious { previous, block: b })
        }
    } else {
        parent_hash != previous.hash && if k == 0 {
            e == (PersistenceFenceError::FirstBlockParentDoesNotMatchFinish {
                first_block: b,
                parent_hash,
                finish,
            })
        } else {
            e == (PersistenceFenceError::BatchBlockParentDoesNotMatchPrevious {
                previous,
                block: b,
                parent_hash,
            })
        }
    }
}

/// `e` says what is wrong with the first block of the batch that does not go on
/// where the one before it ended.
pub open spec fn batch_refused(
    finish: BlockNumHash,
    links: Seq<Link>,
    e: PersistenceFenceError,
) -> bool {
    exists|k: int| #[trigger] block_refused(finish, links, k, e)
}

proof fn lemma_batch_refused(finish: BlockNumHash, links: Seq<Link>)
    requires
        links.len() > 0,
    ensures
        persistence::batch_fault(finish, links) matches Some(e) ==> batch_refused(
            finish,
            links,
            e,
        ),
        persistence::batch_fault(finish, links) is None ==> one_chain(finish, links),
    decreases links.len(),
{
    let fault = persistence::batch_fault(finish, links);
    if let Some(e) = persistence_fence::first_fault(finish, links[0].block, links[0].parent) {
        assert(one_chain(finish, links.take(0)));
        assert(block_refused(finish, links, 0, e));
    } else if links.len() > 1 {
        let p = links.drop_last();
        lemma_batch_refused(finish, p);
        assert(p[0] == links[0]);
        if let Some(e) = persistence::batch_fault(finish, p) {
            let k = choose|k: int| #[trigger] block_refused(finish, p, k, e);
            assert(links[k] == p[k]);
            assert(links.take(k) =~= p.take(k));
            assert(block_refused(finish, links, k, e));
        } else {
            let n = links.len() - 1;
            assert(links.take(n) =~= p);
            if let Some(e) = fault {
                assert(block_refused(finish, links, n, e));
            } else {
                assert forall|i: int, j: int|
                    0 <= i && j == i + 1 && j < links.len() implies (
                #[trigger] links[j]).block.number == (#[trigger] links[i]).block.number + 1
                    && links[j].parent == links[i].block.hash by {
                    assert(p[i] == links[i]);
                    if j < n {
                        assert(p[j] == links[j]);
                    }
                }
            }
        }
    }
}

/// The highest checkpoint is none below any that was read, nor below the last
/// durable block, and is one of them.
pub proof fn lemma_highest_checkpoint(
    s: PersistenceCheckpointSnapshot,
    last_persisted: u64,
    r: u64,
)
    requires
        call_ensures(PersistenceCheckpointSnapshot::highest_checkpoint, (&s, last_persisted), r),
    ensures
        r >= last_persisted,
        s.finish matches Some(f) ==> r >= f,
        forall|i: int|
            0 <= i < s.owners@.len() ==> ((#[trigger] s.owners@[i]).checkpoint matches Some(c)
                ==> r >= c),
        r == last_persisted || s.finish == Some(r) || exists|i: int|
            0 <= i < s.owners@.len() && (#[trigger] s.owners@[i]).checkpoint == Some(r),
{
    persistence_fence::lemma_highest(s.owners@, last_persisted);
}

// ------------------------------------------------------------------- service

/// The blocks are one chain behind `finish`: no gap, no overlap, each on the one
/// before it.
pub open spec fn blocks_chain<B>(finish: BlockNumHash, blocks: Seq<ExecutedBlock<B>>) -> bool {
    &&& blocks.len() > 0 ==> blocks[0].number == finish.number + 1 && blocks[0].parent_hash
        == finish.hash
    &&& forall|i: int, j: int|
        0 <= i && j == i + 1 && j < blocks.len() ==> (#[trigger] blocks[j]).number == (
        #[trigger] blocks[i]).number + 1 && blocks[j].parent_hash == blocks[i].hash
}

proof fn lemma_blocks_chain<B>(finish: BlockNumHash, blocks: Seq<ExecutedBlock<B>>)
    ensures
        one_chain(finish, persistence::links_of(blocks)) <==> blocks_chain(finish, blocks),
{
    let links = persistence::links_of(blocks);
    if one_chain(finish, links) {
        assert forall|i: int, j: int| 0 <= i && j == i + 1 && j < blocks.len() implies (
        #[trigger] blocks[j]).number == (#[trigger] blocks[i]).number + 1
            && blocks[j].parent_hash == blocks[i].hash by {
            assert(links[j].block.number == links[i].block.number + 1);
        }
    }
    if blocks_chain(finish, blocks) {
        assert forall|i: int, j: int| 0 <= i && j == i + 1 && j < links.len() implies (
        #[trigger] links[j]).block.number == (#[trigger] links[i]).block.number + 1
            && links[j].parent == links[i].block.hash by {
            assert(blocks[j].number == blocks[i].number + 1);
        }
    }
}

/// A request to save blocks is answered at once where there is none; else the
/// store is read first. What is said of the batch is said of these very blocks.
pub proof fn lemma_save_request<B>(
    x: &mut PersistenceService,
    blocks: Vec<ExecutedBlock<B>>,
    expected: BlockNumHash,
    step: ServiceStep,
)
    requires
        call_ensures(PersistenceService::on_save_blocks::<B>, (x, &blocks, expected), step),
    ensures
        (final(x)@, step) == persistence::after_save(
            old(x)@,
            persistence::links_of(blocks@),
            expected,
        ),
        blocks@.len() == 0 ==> {
            &&& final(x).job is Idle
            &&& final(x).pending_finalized_block == old(x).pending_finalized_block
            &&& final(x).pending_safe_block == old(x).pending_safe_block
            &&& step == (ServiceStep::Answer { result: Ok(None), sync_height: None, saved: true })
        },
        blocks@.len() > 0 ==> step == ServiceStep::Call(StoreCall::ReadCheckpoints),
{
}

/// A reply leads where `after_reply` says.
pub proof fn lemma_reply(x: &mut PersistenceService, reply: StoreReply, step: ServiceStep)
    requires
        call_ensures(PersistenceService::on_reply, (x, reply), step),
    ensures
        (final(x)@, step) == persistence::after_reply(old(x)@, reply),
{
}

/// The blocks of a batch are written exactly where the store stands at the tree's
/// last durable block, stage by stage, and they are one chain behind it. Else the
/// request is answered with the fence's error and the service stops, and nothing
/// is written.
pub proof fn lemma_saves_only_behind_the_watermark<B>(
    s: ServiceView,
    blocks: Seq<ExecutedBlock<B>>,
    expected: BlockNumHash,
    view: StoreView,
)
    requires
        s.job == JobView::Idle,
        blocks.len() > 0,
    ensures
        ({
            let s1 = persistence::after_save(s, persistence::links_of(blocks), expected).0;
            let (s2, step) = persistence::after_reply(s1, StoreReply::Checkpoints(view));
            let open = {
                &&& stands_at(view, StageId::Finish, expected.number)
                &&& has_block(view, expected.number, expected.hash)
                &&& all_stand_at(view, expected.number)
                &&& blocks_chain(expected, blocks)
            };
            &&& persistence::replies(s1, StoreReply::Checkpoints(view))
            &&& open ==> step == ServiceStep::Call(StoreCall::SaveBlocks)
            &&& !open ==> s2.job == JobView::Stopped && (step matches ServiceStep::Answer {
                result,
                sync_height,
                saved,
            } && sync_height is None && saved && (result matches Err(e)
                && e is Fence))
        }),
{
    let links = persistence::links_of(blocks);
    lemma_blocks_chain(expected, blocks);
    lemma_admitted(view, expected, links);
}

/// The service has asked for a commit, and what follows is told in order: whether
/// pruning is due at `last`, the pruner if it is, its commit, and the answer, which
/// names `last`. What is pending then is what was to stay so.
pub open spec fn commits(
    s: ServiceView,
    step: ServiceStep,
    last: BlockNumHash,
    finalized: Option<u64>,
    safe: Option<u64>,
) -> bool {
    let (s1, c1) = persistence::after_reply(s, StoreReply::Done);
    let (idle, said) = persistence::after_reply(s1, StoreReply::Needed(false));
    let (s2, c2) = persistence::after_reply(s1, StoreReply::Needed(true));
    let (s3, c3) = persistence::after_reply(s2, StoreReply::Done);
    let (s4, c4) = persistence::after_reply(s3, StoreReply::Done);
    let answer = ServiceStep::Answer {
        result: Ok(Some(last)),
        sync_height: Some(last.number),
        saved: true,
    };
    let done = ServiceView {
        pending_finalized: finalized,
        pending_safe: safe,
        job: JobView::Idle,
    };
    &&& step == ServiceStep::Call(StoreCall::Commit)
    &&& persistence::replies(s, StoreReply::Done)
    &&& c1 == ServiceStep::Call(StoreCall::PruneNeeded(last.number))
    &&& persistence::replies(s1, StoreReply::Needed(false))
    &&& said == answer && idle == done
    &&& c2 == ServiceStep::Call(StoreCall::Prune(last.number))
    &&& persistence::replies(s2, StoreReply::Done)
    &&& c3 == ServiceStep::Call(StoreCall::CommitPrune)
    &&& persistence::replies(s3, StoreReply::Done)
    &&& c4 == answer && s4 == done
}

/// A batch that is let in is told to the store in order: its blocks, the finalized
/// and the safe number where they are pending, then the commit. Each number is
/// written no higher than the batch's last block, and stays pending, as it was,
/// exactly where it is higher.
pub proof fn lemma_batch_is_told_in_order<B>(
    s: ServiceView,
    blocks: Seq<ExecutedBlock<B>>,
    expected: BlockNumHash,
    view: StoreView,
)
    requires
        s.job == JobView::Idle,
        blocks.len() > 0,
        stands_at(view, StageId::Finish, expected.number),
        has_block(view, expected.number, expected.hash),
        all_stand_at(view, expected.number),
        blocks_chain(expected, blocks),
    ensures
        ({
            let end = blocks.last();
            let last = BlockNumHash { number: end.number, hash: end.hash };
            let s1 = persistence::after_save(s, persistence::links_of(blocks), expected).0;
            let s2 = persistence::after_reply(s1, StoreReply::Checkpoints(view)).0;
            let (s3, c3) = persistence::after_reply(s2, StoreReply::Done);
            let (s4, c4) = persistence::after_reply(s3, StoreReply::Done);
            let (s5, c5) = persistence::after_reply(s4, StoreReply::Done);
            let capped = |n: u64|
                if n > end.number {
                    end.number
                } else {
                    n
                };
            let kept = |n: u64|
                if n > end.number {
                    Some(n)
                } else {
                    None
                };
            &&& persistence::replies(s2, StoreReply::Done)
            &&& match (s.pending_finalized, s.pending_safe) {
                (Some(f), Some(n)) => {
                    &&& c3 == ServiceStep::Call(StoreCall::SaveFinalized(capped(f)))
                    &&& persistence::replies(s3, StoreReply::Done)
                    &&& c4 == ServiceStep::Call(StoreCall::SaveSafe(capped(n)))
                    &&& persistence::replies(s4, StoreReply::Done)
                    &&& commits(s5, c5, last, kept(f), kept(n))
                },
                (Some(f), None) => {
                    &&& c3 == ServiceStep::Call(StoreCall::SaveFinalized(capped(f)))
                    &&& persistence::replies(s3, StoreReply::Done)
                    &&& commits(s4, c4, last, kept(f), None)
                },
                (None, Some(n)) => {
                    &&& c3 == ServiceStep::Call(StoreCall::SaveSafe(capped(n)))
                    &&& persistence::replies(s3, StoreReply::Done)
                    &&& commits(s4, c4, last, None, kept(n))
                },
                (None, None) => commits(s3, c3, last, None, None),
            }
        }),
{
    let links = persistence::links_of(blocks);
    lemma_blocks_chain(expected, blocks);
    lemma_admitted(view, expected, links);
    assert(links.last().block == BlockNumHash {
        number: blocks.last().number,
        hash: blocks.last().hash,
    });
}

/// A removal is told to the store in order: the hash of the new tip is read, what
/// stands above it is removed, that is committed, and the answer names the new tip
/// where the store has it. What is pending stays so.
pub proof fn lemma_removal_is_told_in_order(
    x: &mut PersistenceService,
    tip: u64,
    step: ServiceStep,
    hash: Option<B256>,
)
    requires
        call_ensures(PersistenceService::on_remove_blocks_above, (x, tip), step),
    ensures
        step == ServiceStep::Call(StoreCall::BlockHash(tip)),
        ({
            let s = final(x)@;
            let (s1, c1) = persistence::after_reply(s, StoreReply::Hash(hash));
            let (s2, c2) = persistence::after_reply(s1, StoreReply::Done);
            let (s3, c3) = persistence::after_reply(s2, StoreReply::Done);
            &&& persistence::replies(s, StoreReply::Hash(hash))
            &&& c1 == ServiceStep::Call(StoreCall::RemoveAbove(tip))
            &&& persistence::replies(s1, StoreReply::Done)
            &&& c2 == ServiceStep::Call(StoreCall::CommitRemoval)
            &&& persistence::replies(s2, StoreReply::Done)
            &&& c3 == (ServiceStep::Answer {
                result: Ok(
                    match hash {
                        Some(h) => Some(BlockNumHash { number: tip, hash: h }),
                        None => None,
                    },
                ),
                sync_height: Some(tip),
                saved: false,
            })
            &&& s3 == (ServiceView { job: JobView::Idle, ..old(x)@ })
        }),
{
}

/// A call that fails ends the request with what the failure says, by whom it
/// failed, and the service with it; what is pending stays so.
pub proof fn lemma_failed_call(s: ServiceView, reply: StoreReply)
    requires
        persistence::replies(s, reply),
    ensures
        ({
            let (t, step) = persistence::after_reply(s, reply);
            &&& reply matches StoreReply::ProviderFailed(m) ==> step == (ServiceStep::Answer {
                result: Err(PersistenceError::ProviderError(m)),
                sync_height: None,
                saved: s.job is Saving,
            }) && t == (ServiceView { job: JobView::Stopped, ..s })
            &&& reply matches StoreReply::PrunerFailed(m) ==> step == (ServiceStep::Answer {
                result: Err(PersistenceError::PrunerError(m)),
                sync_height: None,
                saved: s.job is Saving,
            }) && t == (ServiceView { job: JobView::Stopped, ..s })
        }),
{
}

/// A finalized and a safe number are kept until the next batch, the last that was
/// told of each, and each without the other.
pub proof fn lemma_numbers_are_kept(
    x: &mut PersistenceService,
    y: &mut PersistenceService,
    n: u64,
)
    requires
        call_ensures(PersistenceService::on_finalized, (x, n), ()),
        call_ensures(PersistenceService::on_safe, (y, n), ()),
    ensures
        final(x).pending_finalized_block == Some(n),
        final(x).pending_safe_block == old(x).pending_safe_block,
        final(x).job@ == old(x).job@,
        final(y).pending_safe_block == Some(n),
        final(y).pending_finalized_block == old(y).pending_finalized_block,
        final(y).job@ == old(y).job@,
{
    assert(final(x)@.job == old(x)@.job);
    assert(final(y)@.job == old(y)@.job);
}

/// What is sent back for a request is what became of it, and how long it took only
/// where blocks were to be saved.
pub proof fn lemma_completion(
    result: Result<Option<BlockNumHash>, PersistenceError>,
    saved: bool,
    took: std::time::Duration,
    r: PersistenceActionResult,
)
    requires
        call_ensures(persistence::completion, (result, saved, took), r),
    ensures
        result matches Ok(last) ==> (r matches Ok(p) && p.last_block == last && (saved
            ==> p.commit_duration == Some(took)) && (!saved ==> p.commit_duration is None)),
        result matches Err(e) ==> (r matches Err(f) && f == e),
{
}

} // verus!
