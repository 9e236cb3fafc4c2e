use std::collections::BTreeMap;
use std::sync::mpsc::{channel, Receiver};
use std::time::Duration;

use chainvisor_state::persistence::{
    completion, ExecutedBlock, PersistenceAction, PersistenceActionResult, PersistenceError,
    PersistenceHandle, PersistenceService, ServiceStep, StoreCall, StoreReply,
};
use chainvisor_state::persistence_fence::{
    identity, owner_stages, stage_name, PersistenceCheckpointSnapshot, PersistenceFenceError,
    PersistenceOwnerCheckpoint, StageId, StoreView,
};
use chainvisor_state::primitives::{BlockNumHash, B256};

fn num_hash(number: u64, hash: B256) -> BlockNumHash {
    BlockNumHash { number, hash }
}

fn aligned(block: BlockNumHash) -> PersistenceCheckpointSnapshot {
    PersistenceCheckpointSnapshot {
        finish: Some(block.number),
        finish_hash: Some(block.hash),
        owners: owner_stages()
            .into_iter()
            .map(|stage| PersistenceOwnerCheckpoint { stage, checkpoint: Some(block.number) })
            .collect(),
    }
}

#[test]
fn every_required_owner_stage_rejects_missing_ahead_and_behind() {
    const FINISH: u64 = 100;
    let expected = num_hash(FINISH, B256::repeat_byte(0x11));
    assert_eq!(owner_stages().len(), 13);
    for owner in owner_stages() {
        for checkpoint in [None, Some(FINISH - 1), Some(FINISH + 1)] {
            let mut snapshot = aligned(expected);
            snapshot
                .owners
                .iter_mut()
                .find(|candidate| candidate.stage == owner)
                .expect("owner stage exists")
                .checkpoint = checkpoint;

            let error = snapshot.validate(expected).expect_err("divergence must be rejected");
            assert_eq!(error.stage(), owner);
            match checkpoint {
                None => {
                    assert!(matches!(error, PersistenceFenceError::MissingOwnerStage { .. }));
                    assert_eq!(error.reason(), "missing_owner");
                }
                Some(_) => {
                    assert!(matches!(
                        error,
                        PersistenceFenceError::OwnerStageDoesNotMatchFinish { .. }
                    ));
                    assert_eq!(error.reason(), "owner_finish_mismatch");
                }
            }
        }
    }
}

fn provider_with_sender_prune_checkpoint(
    sender_recovery: bool,
    checkpoint: Option<u64>,
) -> (StoreView, BlockNumHash) {
    const FINISH: u64 = 100;
    let finish_hash = B256::repeat_byte(0x77);
    let mut checkpoints = vec![(StageId::Finish, FINISH)];
    for owner in owner_stages() {
        if owner != StageId::PruneSenderRecovery {
            checkpoints.push((owner, FINISH));
        }
    }
    if let Some(checkpoint) = checkpoint {
        checkpoints.push((StageId::PruneSenderRecovery, checkpoint));
    }
    let provider =
        StoreView { checkpoints, canonical: vec![(FINISH, finish_hash)], sender_recovery };
    (provider, num_hash(FINISH, finish_hash))
}

#[test]
fn sender_recovery_prune_checkpoint_tracks_configured_pipeline_ownership() {
    for stale_checkpoint in [None, Some(99), Some(101)] {
        let (provider, finish) = provider_with_sender_prune_checkpoint(false, stale_checkpoint);
        let snapshot = PersistenceCheckpointSnapshot::read(&provider);
        assert_eq!(snapshot.validate(finish), Ok(finish));
        assert_eq!(snapshot.highest_checkpoint(finish.number), finish.number);
    }

    for checkpoint in [None, Some(99), Some(101)] {
        let (provider, finish) = provider_with_sender_prune_checkpoint(true, checkpoint);
        let error = PersistenceCheckpointSnapshot::read(&provider)
            .validate(finish)
            .expect_err("configured owner must be aligned");
        if checkpoint.is_none() {
            assert!(matches!(
                error,
                PersistenceFenceError::MissingOwnerStage {
                    stage: StageId::PruneSenderRecovery,
                    ..
                }
            ));
        } else {
            assert!(matches!(
                error,
                PersistenceFenceError::OwnerStageDoesNotMatchFinish {
                    stage: StageId::PruneSenderRecovery,
                    ..
                }
            ));
        }
    }

    let (provider, finish) = provider_with_sender_prune_checkpoint(true, Some(100));
    assert_eq!(PersistenceCheckpointSnapshot::read(&provider).validate(finish), Ok(finish));
}

#[test]
fn finish_must_exist_and_match_full_last_persisted_identity() {
    let expected = num_hash(100, B256::repeat_byte(0x33));
    let mut snapshot = aligned(expected);
    snapshot.finish = None;
    snapshot.finish_hash = None;
    assert_eq!(snapshot.validate(expected), Err(PersistenceFenceError::MissingFinish));

    let snapshot = aligned(expected);
    assert_eq!(
        snapshot.validate(num_hash(99, expected.hash)),
        Err(PersistenceFenceError::FinishDoesNotMatchLastPersisted {
            finish: 100,
            last_persisted: 99,
        })
    );

    let mut snapshot = aligned(expected);
    snapshot.finish_hash = None;
    assert_eq!(
        snapshot.validate(expected),
        Err(PersistenceFenceError::MissingFinishBlockHash { finish: 100 })
    );

    let wrong_hash = num_hash(100, B256::repeat_byte(0x44));
    assert_eq!(
        aligned(expected).validate(wrong_hash),
        Err(PersistenceFenceError::FinishHashDoesNotMatchLastPersisted {
            finish: expected,
            last_persisted: wrong_hash,
        })
    );
}

#[test]
fn first_block_must_be_finish_plus_one_on_the_same_branch() {
    let finish = num_hash(100, B256::repeat_byte(0x55));
    let first = num_hash(101, B256::repeat_byte(0x66));
    assert!(
        PersistenceCheckpointSnapshot::validate_first_block(finish, first, finish.hash).is_ok()
    );
    assert!(PersistenceCheckpointSnapshot::validate_first_block(
        finish,
        num_hash(100, first.hash),
        finish.hash
    )
    .is_err());
    assert!(PersistenceCheckpointSnapshot::validate_first_block(
        finish,
        num_hash(102, first.hash),
        finish.hash
    )
    .is_err());
    assert!(matches!(
        PersistenceCheckpointSnapshot::validate_first_block(
            finish,
            first,
            B256::repeat_byte(0x77)
        ),
        Err(PersistenceFenceError::FirstBlockParentDoesNotMatchFinish { .. })
    ));
    let max = num_hash(u64::MAX, finish.hash);
    assert!(PersistenceCheckpointSnapshot::validate_first_block(max, max, max.hash).is_err());
}

#[test]
fn every_later_batch_block_must_extend_its_immediate_predecessor() {
    let previous = num_hash(101, B256::repeat_byte(0x88));
    let next = num_hash(102, B256::repeat_byte(0x99));
    assert!(
        PersistenceCheckpointSnapshot::validate_next_block(previous, next, previous.hash).is_ok()
    );
    assert!(matches!(
        PersistenceCheckpointSnapshot::validate_next_block(
            previous,
            num_hash(103, next.hash),
            previous.hash
        ),
        Err(PersistenceFenceError::BatchBlockDoesNotExtendPrevious { .. })
    ));
    assert!(matches!(
        PersistenceCheckpointSnapshot::validate_next_block(
            previous,
            next,
            B256::repeat_byte(0xaa)
        ),
        Err(PersistenceFenceError::BatchBlockParentDoesNotMatchPrevious { .. })
    ));
}

#[test]
fn highest_checkpoint_covers_every_owner_and_the_watermark() {
    let mut snapshot = aligned(num_hash(100, B256::repeat_byte(0x01)));
    assert_eq!(snapshot.highest_checkpoint(5), 100);
    assert_eq!(snapshot.highest_checkpoint(500), 500);
    snapshot.owners[3].checkpoint = Some(120);
    snapshot.owners[4].checkpoint = None;
    assert_eq!(snapshot.highest_checkpoint(5), 120);
    snapshot.finish = Some(130);
    assert_eq!(snapshot.highest_checkpoint(5), 130);
}

#[test]
fn fence_errors_say_what_is_wrong() {
    assert_eq!(PersistenceFenceError::MissingFinish.message(), "Finish checkpoint is missing");
    assert_eq!(PersistenceFenceError::MissingFinish.stage(), StageId::Finish);
    assert_eq!(
        PersistenceFenceError::FinishDoesNotMatchLastPersisted { finish: 7, last_persisted: 9 }
            .message(),
        "Finish checkpoint 7 does not match last persisted block 9"
    );
    assert_eq!(
        PersistenceFenceError::MissingFinishBlockHash { finish: 7 }.message(),
        "canonical block hash for Finish checkpoint 7 is missing"
    );
    assert_eq!(
        PersistenceFenceError::OwnerStageDoesNotMatchFinish {
            stage: StageId::Bodies,
            checkpoint: 1,
            finish: 0
        }
        .message(),
        "owner stage Bodies checkpoint 1 does not match Finish 0"
    );
    assert_eq!(
        PersistenceFenceError::MissingOwnerStage { stage: StageId::Prune, finish: 12 }.message(),
        "owner stage Prune is missing while Finish is 12"
    );
    assert_eq!(
        PersistenceFenceError::FirstBlockDoesNotExtendFinish { first_block: 12, finish: 10 }
            .message(),
        "first Engine persistence block 12 does not extend Finish 10"
    );
    let hash = "0x".to_string() + &"22".repeat(32);
    let parent_hash = B256::repeat_byte(0x22);
    let first_block = num_hash(11, parent_hash);
    assert_eq!(
        PersistenceFenceError::FirstBlockParentDoesNotMatchFinish {
            first_block,
            parent_hash,
            finish: num_hash(10, parent_hash),
        }
        .message(),
        format!(
            "first Engine persistence block NumHash {{ number: 11, hash: {hash} }} has parent \
             {hash}, not Finish NumHash {{ number: 10, hash: {hash} }}"
        )
    );
    let real = alloy_eips::BlockNumHash {
        number: 11,
        hash: alloy_primitives::B256::repeat_byte(0x22),
    };
    assert_eq!(identity(&first_block), format!("{real:?}"));
    assert_eq!(hash, real.hash.to_string());
    let unaligned = PersistenceFenceError::BatchBlockParentDoesNotMatchPrevious {
        previous: first_block,
        block: first_block,
        parent_hash,
    };
    assert_eq!(unaligned.reason(), "wrong_parent");
    assert!(unaligned.message().ends_with(&format!("NumHash {{ number: 11, hash: {hash} }}")));
    assert_eq!(
        PersistenceFenceError::BatchBlockDoesNotExtendPrevious {
            previous: first_block,
            block: first_block
        }
        .reason(),
        "non_contiguous_batch"
    );
    assert_eq!(stage_name(StageId::IndexAccountHistory), "IndexAccountHistory");
}

// ------------------------------------------------------------------ service

type Block = ExecutedBlock<&'static str>;

fn block(number: u64, hash: u8, parent_hash: B256) -> Block {
    ExecutedBlock { number, hash: B256::repeat_byte(hash), parent_hash, body: "state" }
}

fn executed_chain(numbers: std::ops::Range<u64>, mut parent_hash: B256) -> Vec<Block> {
    numbers
        .map(|number| {
            let b = block(number, 0x40 + number as u8, parent_hash);
            parent_hash = b.hash;
            b
        })
        .collect()
}

/// A store that keeps what it is told to, transaction by transaction.
#[derive(Default)]
struct Store {
    checkpoints: BTreeMap<&'static str, (StageId, u64)>,
    blocks: BTreeMap<u64, B256>,
    staged: Vec<(u64, B256)>,
    finalized: Option<u64>,
    safe: Option<u64>,
    prune: bool,
    fail: Option<StoreCall>,
    calls: Vec<StoreCall>,
}

impl Store {
    fn seeded(blocks: &[Block]) -> Self {
        let mut store = Store::default();
        for b in blocks {
            store.blocks.insert(b.number, b.hash);
        }
        let tip = blocks.last().unwrap().number;
        store.checkpoint_all(tip);
        store
    }

    fn checkpoint_all(&mut self, tip: u64) {
        for stage in owner_stages() {
            if stage != StageId::PruneSenderRecovery {
                self.checkpoints.insert(stage_name(stage), (stage, tip));
            }
        }
        self.checkpoints.insert("Finish", (StageId::Finish, tip));
    }

    fn set(&mut self, stage: StageId, block: u64) {
        self.checkpoints.insert(stage_name(stage), (stage, block));
    }

    fn finish(&self) -> u64 {
        self.checkpoints["Finish"].1
    }

    fn call(&mut self, call: StoreCall, batch: &[Block]) -> StoreReply {
        self.calls.push(call);
        if self.fail == Some(call) {
            return StoreReply::ProviderFailed("disk on fire".to_string());
        }
        match call {
            StoreCall::ReadCheckpoints => StoreReply::Checkpoints(StoreView {
                checkpoints: self.checkpoints.values().copied().collect(),
                canonical: self.blocks.iter().map(|(n, h)| (*n, *h)).collect(),
                sender_recovery: false,
            }),
            StoreCall::SaveBlocks => {
                self.staged = batch.iter().map(|b| (b.number, b.hash)).collect();
                StoreReply::Done
            }
            StoreCall::SaveFinalized(n) => {
                self.finalized = Some(n);
                StoreReply::Done
            }
            StoreCall::SaveSafe(n) => {
                self.safe = Some(n);
                StoreReply::Done
            }
            StoreCall::Commit => {
                let staged = std::mem::take(&mut self.staged);
                let tip = staged.last().unwrap().0;
                self.blocks.extend(staged);
                self.checkpoint_all(tip);
                StoreReply::Done
            }
            StoreCall::PruneNeeded(_) => StoreReply::Needed(self.prune),
            StoreCall::Prune(_) | StoreCall::CommitPrune | StoreCall::CommitRemoval => {
                StoreReply::Done
            }
            StoreCall::BlockHash(n) => StoreReply::Hash(self.blocks.get(&n).copied()),
            StoreCall::RemoveAbove(n) => {
                self.blocks.retain(|k, _| *k <= n);
                StoreReply::Done
            }
        }
    }
}

type Answer = (Result<Option<BlockNumHash>, PersistenceError>, Option<u64>, bool);

fn finish_job(
    service: &mut PersistenceService,
    store: &mut Store,
    mut step: ServiceStep,
    batch: &[Block],
) -> Answer {
    loop {
        match step {
            ServiceStep::Call(call) => {
                let reply = store.call(call, batch);
                step = service.on_reply(reply);
            }
            ServiceStep::Answer { result, sync_height, saved } => {
                return (result, sync_height, saved);
            }
        }
    }
}

fn on_save_blocks(
    service: &mut PersistenceService,
    store: &mut Store,
    blocks: Vec<Block>,
    expected: BlockNumHash,
) -> Answer {
    let step = service.on_save_blocks(&blocks, expected);
    finish_job(service, store, step, &blocks)
}

/// Serves every request that is waiting, as the service's thread does.
fn serve(
    incoming: &Receiver<PersistenceAction<&'static str>>,
    service: &mut PersistenceService,
    store: &mut Store,
) -> Vec<u64> {
    let mut heights = Vec::new();
    while let Ok(action) = incoming.try_recv() {
        match action {
            PersistenceAction::SaveBlocks(blocks, expected, sender) => {
                let (result, height, saved) = on_save_blocks(service, store, blocks, expected);
                let failed = result.is_err();
                let _ = sender.send(completion(result, saved, Duration::from_millis(1)));
                heights.extend(height);
                if failed {
                    break;
                }
            }
            PersistenceAction::RemoveBlocksAbove(tip, sender) => {
                let step = service.on_remove_blocks_above(tip);
                let (result, height, saved) = finish_job(service, store, step, &[]);
                let failed = result.is_err();
                heights.extend(height);
                let _ = sender.send(completion(result, saved, Duration::from_millis(1)));
                if failed {
                    break;
                }
            }
            PersistenceAction::SaveFinalizedBlock(n) => service.on_finalized(n),
            PersistenceAction::SaveSafeBlock(n) => service.on_safe(n),
        }
    }
    heights
}

struct Setup {
    handle: PersistenceHandle<&'static str>,
    incoming: Receiver<PersistenceAction<&'static str>>,
    service: PersistenceService,
    store: Store,
    genesis: BlockNumHash,
}

fn default_persistence_handle() -> Setup {
    let (tx, incoming) = channel();
    let genesis = block(0, 0x40, B256::repeat_byte(0xee));
    Setup {
        handle: PersistenceHandle::new(tx),
        incoming,
        service: PersistenceService::new(),
        store: Store::seeded(&[genesis.clone()]),
        genesis: genesis.num_hash(),
    }
}

impl Setup {
    fn save(&mut self, blocks: Vec<Block>, expected: BlockNumHash) -> PersistenceActionResult {
        let (tx, rx) = crossbeam_channel::bounded(1);
        self.handle.save_blocks(blocks, expected, tx).unwrap();
        serve(&self.incoming, &mut self.service, &mut self.store);
        rx.recv().unwrap()
    }
}

#[test]
fn test_save_blocks_empty() {
    let mut setup = default_persistence_handle();
    let genesis = setup.genesis;
    let result = setup.save(vec![], genesis).unwrap();
    assert!(result.last_block.is_none());
    assert!(setup.store.calls.is_empty());
}

#[test]
fn test_save_blocks_single_block() {
    let mut setup = default_persistence_handle();
    let genesis = setup.genesis;
    let executed = block(1, 0x77, genesis.hash);
    let block_hash = executed.hash;
    let result = setup.save(vec![executed], genesis).unwrap();
    assert_eq!(block_hash, result.last_block.unwrap().hash);
    assert!(result.commit_duration.is_some());
}

#[test]
fn test_save_blocks_multiple_blocks() {
    let mut setup = default_persistence_handle();
    let genesis = setup.genesis;
    let blocks = executed_chain(1..6, genesis.hash);
    let last_hash = blocks.last().unwrap().hash;
    let result = setup.save(blocks, genesis).unwrap();
    assert_eq!(last_hash, result.last_block.unwrap().hash);
}

#[test]
fn test_save_blocks_multiple_calls() {
    let mut setup = default_persistence_handle();
    let ranges = [1..2, 2..3, 3..5, 5..6];
    let blocks = executed_chain(1..6, setup.genesis.hash);
    let mut expected_last_persisted = setup.genesis;
    for range in ranges {
        let batch = blocks[(range.start - 1) as usize..(range.end - 1) as usize].to_vec();
        let last_hash = batch.last().unwrap().hash;
        let result = setup.save(batch, expected_last_persisted).unwrap();
        assert_eq!(last_hash, result.last_block.unwrap().hash);
        expected_last_persisted = result.last_block.unwrap();
    }
    assert_eq!(setup.store.blocks.len(), 6);
}

fn seeded_provider(block_count: u64, persisted_count: usize) -> (Store, Vec<Block>) {
    let blocks = executed_chain(0..block_count, B256 { hi: 0, lo: 0 });
    let store = Store::seeded(&blocks[..persisted_count]);
    (store, blocks)
}

#[test]
fn service_fence_rejects_toctou_before_writing_any_block_data() {
    let (mut store, blocks) = seeded_provider(2, 1);
    store.set(StageId::Bodies, 1);

    let mut service = PersistenceService::new();
    let (result, height, _) = on_save_blocks(
        &mut service,
        &mut store,
        vec![blocks[1].clone()],
        blocks[0].num_hash(),
    );
    let error = result.expect_err("Bodies ahead of Finish must be rejected");
    assert!(matches!(
        error,
        PersistenceError::Fence(PersistenceFenceError::OwnerStageDoesNotMatchFinish {
            stage: StageId::Bodies,
            checkpoint: 1,
            finish: 0,
        })
    ));
    assert_eq!(height, None);
    assert_eq!(store.finish(), 0);
    assert!(!store.blocks.contains_key(&1));
    assert_eq!(store.calls, [StoreCall::ReadCheckpoints]);
}

#[test]
fn service_fence_rejects_same_height_hash_divergence_before_writing() {
    let (mut store, blocks) = seeded_provider(2, 1);
    let mut expected = blocks[0].num_hash();
    expected.hash = B256::repeat_byte(0xfe);

    let mut service = PersistenceService::new();
    assert!(matches!(
        on_save_blocks(&mut service, &mut store, vec![blocks[1].clone()], expected).0,
        Err(PersistenceError::Fence(
            PersistenceFenceError::FinishHashDoesNotMatchLastPersisted { .. }
        ))
    ));
    assert!(!store.blocks.contains_key(&1));
    assert_eq!(store.calls, [StoreCall::ReadCheckpoints]);
}

#[test]
fn service_fence_rejects_overlap_gap_and_wrong_parent_without_writes() {
    for case in ["overlap", "gap", "wrong_parent"] {
        let (mut store, blocks) = seeded_provider(1, 1);
        let finish = blocks[0].num_hash();
        let candidate = match case {
            "overlap" => block(finish.number, 0x91, finish.hash),
            "gap" => block(finish.number + 2, 0x91, finish.hash),
            "wrong_parent" => block(finish.number + 1, 0x91, B256::repeat_byte(0xfd)),
            _ => unreachable!(),
        };
        let candidate_number = candidate.number;
        let mut service = PersistenceService::new();
        let error = on_save_blocks(&mut service, &mut store, vec![candidate], finish)
            .0
            .expect_err("unsafe range must be rejected");
        match case {
            "wrong_parent" => assert!(matches!(
                error,
                PersistenceError::Fence(
                    PersistenceFenceError::FirstBlockParentDoesNotMatchFinish { .. }
                )
            )),
            _ => assert!(matches!(
                error,
                PersistenceError::Fence(
                    PersistenceFenceError::FirstBlockDoesNotExtendFinish { .. }
                )
            )),
        }
        assert_eq!(store.finish(), finish.number);
        if candidate_number > finish.number {
            assert!(!store.blocks.contains_key(&candidate_number));
        }
        assert_eq!(store.calls, [StoreCall::ReadCheckpoints]);
    }
}

#[test]
fn service_fence_rejects_second_block_overlap_gap_and_wrong_parent_without_writes() {
    for case in ["overlap", "gap", "wrong_parent"] {
        let (mut store, blocks) = seeded_provider(1, 1);
        let finish = blocks[0].num_hash();
        let first = block(finish.number + 1, 0x81, finish.hash);
        let second = match case {
            "overlap" => block(first.number, 0x82, first.hash),
            "gap" => block(first.number + 2, 0x82, first.hash),
            "wrong_parent" => block(first.number + 1, 0x82, B256::repeat_byte(0xfc)),
            _ => unreachable!(),
        };
        let second_number = second.number;
        let mut service = PersistenceService::new();
        let error = on_save_blocks(&mut service, &mut store, vec![first, second], finish)
            .0
            .expect_err("malformed later batch block must be rejected");
        match case {
            "wrong_parent" => assert!(matches!(
                error,
                PersistenceError::Fence(
                    PersistenceFenceError::BatchBlockParentDoesNotMatchPrevious { .. }
                )
            )),
            _ => assert!(matches!(
                error,
                PersistenceError::Fence(
                    PersistenceFenceError::BatchBlockDoesNotExtendPrevious { .. }
                )
            )),
        }
        assert!(!store.blocks.contains_key(&(finish.number + 1)));
        assert!(!store.blocks.contains_key(&second_number));
        assert_eq!(store.calls, [StoreCall::ReadCheckpoints]);
    }
}

#[test]
fn service_fence_accepts_era_lag_and_aligned_owner_append() {
    let (mut store, blocks) = seeded_provider(3, 2);
    store.set(StageId::Era, 0);

    let mut service = PersistenceService::new();
    let (result, height, _) = on_save_blocks(
        &mut service,
        &mut store,
        vec![blocks[2].clone()],
        blocks[1].num_hash(),
    );
    let last = result.expect("Era is independent and must not block Engine persistence");
    assert_eq!(last.map(|block| block.number), Some(2));
    assert_eq!(height, Some(2));
    assert_eq!(store.finish(), 2);
    assert!(store.blocks.contains_key(&2));
}

#[test]
fn service_thread_returns_typed_fence_error() {
    let (mut store, blocks) = seeded_provider(2, 1);
    store.set(StageId::Bodies, 1);

    let (action_tx, incoming) = channel();
    let handle = PersistenceHandle::new(action_tx);
    let mut service = PersistenceService::new();
    let (tx, rx) = crossbeam_channel::bounded(1);
    handle.save_blocks(vec![blocks[1].clone()], blocks[0].num_hash(), tx).unwrap();
    serve(&incoming, &mut service, &mut store);

    assert!(matches!(
        rx.recv_timeout(Duration::from_secs(10)).expect("typed result timed out"),
        Err(PersistenceError::Fence(PersistenceFenceError::OwnerStageDoesNotMatchFinish {
            stage: StageId::Bodies,
            ..
        }))
    ));
}

#[test]
fn pending_numbers_are_written_with_the_batch_and_kept_while_they_are_ahead() {
    let mut setup = default_persistence_handle();
    let genesis = setup.genesis;
    let blocks = executed_chain(1..4, genesis.hash);
    setup.handle.save_finalized_block_number(2).unwrap();
    setup.handle.save_safe_block_number(9).unwrap();
    let first = setup.save(blocks[..2].to_vec(), genesis).unwrap().last_block.unwrap();
    assert_eq!(setup.store.finalized, Some(2));
    assert_eq!(setup.store.safe, Some(2));
    assert_eq!(setup.service.pending_finalized_block, None);
    assert_eq!(setup.service.pending_safe_block, Some(9));
    setup.save(blocks[2..].to_vec(), first).unwrap();
    assert_eq!(setup.store.safe, Some(3));
    assert_eq!(setup.service.pending_safe_block, Some(9));
}

#[test]
fn an_empty_batch_writes_nothing_and_keeps_the_pending_numbers() {
    let mut setup = default_persistence_handle();
    let genesis = setup.genesis;
    setup.handle.save_finalized_block_number(5).unwrap();
    setup.handle.save_safe_block_number(6).unwrap();
    let result = setup.save(vec![], genesis).unwrap();
    assert_eq!(result.last_block, None);
    assert_eq!(result.commit_duration, Some(Duration::from_millis(1)));
    assert!(setup.store.calls.is_empty());
    assert_eq!(setup.service.pending_finalized_block, Some(5));
    assert_eq!(setup.service.pending_safe_block, Some(6));
    setup.save(executed_chain(1..3, genesis.hash), genesis).unwrap();
    assert_eq!(setup.store.finalized, Some(2));
    assert_eq!(setup.store.safe, Some(2));
}

#[test]
fn how_long_it_took_is_said_of_a_save_alone() {
    let took = Duration::from_millis(7);
    assert_eq!(completion(Ok(None), true, took).unwrap().commit_duration, Some(took));
    assert_eq!(completion(Ok(None), false, took).unwrap().commit_duration, None);
    let error = PersistenceError::PrunerError("too deep".to_string());
    assert_eq!(completion(Err(error), true, took).unwrap_err().message(), "too deep");
}

#[test]
fn pruning_follows_the_commit_in_a_transaction_of_its_own() {
    let mut setup = default_persistence_handle();
    setup.store.prune = true;
    let genesis = setup.genesis;
    setup.save(executed_chain(1..3, genesis.hash), genesis).unwrap();
    assert_eq!(
        setup.store.calls,
        [
            StoreCall::ReadCheckpoints,
            StoreCall::SaveBlocks,
            StoreCall::Commit,
            StoreCall::PruneNeeded(2),
            StoreCall::Prune(2),
            StoreCall::CommitPrune,
        ]
    );
}

#[test]
fn removal_answers_the_new_tip() {
    let mut setup = default_persistence_handle();
    let genesis = setup.genesis;
    let blocks = executed_chain(1..4, genesis.hash);
    setup.save(blocks.clone(), genesis).unwrap();
    let (tx, rx) = crossbeam_channel::bounded(1);
    setup.handle.remove_blocks_above(1, tx).unwrap();
    let heights = serve(&setup.incoming, &mut setup.service, &mut setup.store);
    assert_eq!(heights, [1]);
    let result = rx.recv().unwrap().unwrap();
    assert_eq!(result.last_block, Some(blocks[0].num_hash()));
    assert!(result.commit_duration.is_none());
    assert_eq!(setup.store.blocks.len(), 2);
}

#[test]
fn a_failed_call_is_answered_and_stops_the_service() {
    let mut setup = default_persistence_handle();
    setup.store.fail = Some(StoreCall::Commit);
    let genesis = setup.genesis;
    let error = setup.save(executed_chain(1..3, genesis.hash), genesis).unwrap_err();
    assert!(matches!(&error, PersistenceError::ProviderError(m) if m == "disk on fire"));
    assert_eq!(error.message(), "disk on fire");
    assert!(matches!(setup.service.job, chainvisor_state::persistence::Job::Stopped));
    assert_eq!(setup.store.blocks.len(), 1);
}

#[test]
fn a_failed_pruner_is_told_from_a_failed_store() {
    let mut service = PersistenceService::new();
    let (mut store, blocks) = seeded_provider(2, 1);
    store.prune = true;
    let batch = vec![blocks[1].clone()];
    let mut step = service.on_save_blocks(&batch, blocks[0].num_hash());
    let error = loop {
        match step {
            ServiceStep::Call(StoreCall::Prune(1)) => {
                step = service.on_reply(StoreReply::PrunerFailed("too deep".to_string()));
            }
            ServiceStep::Call(call) => {
                let reply = store.call(call, &batch);
                step = service.on_reply(reply);
            }
            ServiceStep::Answer { result, .. } => break result.unwrap_err(),
        }
    };
    assert!(matches!(error, PersistenceError::PrunerError(m) if m == "too deep"));
}

#[test]
fn the_clones_of_a_handle_ask_the_same_service() {
    let (tx, rx) = channel::<PersistenceAction<&'static str>>();
    let handle = PersistenceHandle::new(tx);
    let other = handle.clone();
    handle.save_finalized_block_number(7).unwrap();
    drop(handle);
    other.save_safe_block_number(8).unwrap();
    assert!(matches!(rx.recv(), Ok(PersistenceAction::SaveFinalizedBlock(7))));
    assert!(matches!(rx.recv(), Ok(PersistenceAction::SaveSafeBlock(8))));
    drop(other);
    assert!(rx.recv().is_err());
}

#[test]
fn a_request_that_cannot_be_sent_comes_back() {
    let (tx, rx) = channel::<PersistenceAction<&'static str>>();
    let handle = PersistenceHandle::new(tx);
    drop(rx);
    assert!(matches!(
        handle.save_finalized_block_number(7),
        Err(PersistenceAction::SaveFinalizedBlock(7))
    ));
    assert!(matches!(
        handle.save_safe_block_number(8),
        Err(PersistenceAction::SaveSafeBlock(8))
    ));
    assert!(matches!(
        handle.send_action(PersistenceAction::SaveSafeBlock(9)),
        Err(PersistenceAction::SaveSafeBlock(9))
    ));
}
