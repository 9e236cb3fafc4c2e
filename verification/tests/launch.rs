use chainvisor_state::error::{
    AdvancePersistenceError, BlockExecutionError, InsertBlockError, InsertBlockErrorKind,
    InsertBlockFatalError, InsertBlockValidationError, InsertPayloadError,
    InternalBlockExecutionError, SealedBlock,
};
use chainvisor_state::launch::{
    asks_for_flush, block_range, engine_shutdown_outcome_to_exit, ensure_initial_backfill_allowed,
    loop_exit, snapshot_setting, termination_outcome, total_difficulty, EngineEvent, EngineLoop, HeadPoller,
    SnapshotAction, SnapshotCycle, SnapshotEvent, SnapshotPhase, SnapshotSetting, SyncState,
    TreeConfig,
};
use chainvisor_state::persistence::PersistenceError;
use chainvisor_state::persistence_fence::PersistenceFenceError;
use chainvisor_state::primitives::{BlockNumHash, B256, U256};
use chainvisor_state::sync_status::{
    durable_head, should_report_syncing, sync_status, SyncStatus,
};

#[test]
fn engine_shutdown_failure_maps_to_node_exit_error() {
    let outcome = Err(AdvancePersistenceError::UnsafeShutdownPipelineBusy);
    let error = engine_shutdown_outcome_to_exit(&outcome)
        .expect_err("persistence failure must fail node exit");
    assert!(error.contains("refusing graceful persistence flush while pipeline backfill"));
}

#[test]
fn engine_shutdown_success_maps_to_clean_node_exit() {
    assert!(engine_shutdown_outcome_to_exit(&Ok(())).is_ok());
}

#[test]
fn disabled_pipeline_rejects_initial_target_before_startup() {
    let disabled = TreeConfig::new().with_min_blocks_for_pipeline_run(u64::MAX);
    let target = B256::repeat_byte(0x44);
    let error = ensure_initial_backfill_allowed(&disabled, Some(target))
        .expect_err("disabled pipeline cannot repair an initial target");
    assert!(error.contains(&alloy_primitives::B256::repeat_byte(0x44).to_string()));
    assert!(ensure_initial_backfill_allowed(&disabled, None).is_ok());
    assert!(ensure_initial_backfill_allowed(&TreeConfig::new(), Some(target)).is_ok());
}

#[test]
fn transient_canonical_head_keeps_sync_status_active_until_durable() {
    assert!(should_report_syncing(false, 100, 101));
    assert!(should_report_syncing(true, 101, 101));
    assert!(!should_report_syncing(false, 101, 101));
}

#[test]
fn sync_status_lists_the_stages_and_both_heads() {
    let checkpoints =
        vec![("Headers".to_string(), 7), ("Finish".to_string(), 5), ("Finish".to_string(), 9)];
    assert_eq!(durable_head(&checkpoints), 5);
    assert_eq!(durable_head(&vec![]), 0);
    match sync_status(false, 8, &checkpoints, U256::from_u64(2)) {
        SyncStatus::Info(info) => {
            assert_eq!(info.starting_block, U256::from_u64(2));
            assert_eq!(info.current_block, U256::from_u64(5));
            assert_eq!(info.highest_block, U256::from_u64(8));
            let stages = info.stages.unwrap();
            assert_eq!(stages.len(), 3);
            assert_eq!(stages[0].name, "Headers");
            assert_eq!(stages[0].block, 7);
            assert_eq!(stages[2].block, 9);
        }
        SyncStatus::NotSyncing => panic!("a transient head is still syncing"),
    }
    assert!(matches!(
        sync_status(false, 5, &checkpoints, U256::zero()),
        SyncStatus::NotSyncing
    ));
    assert!(matches!(sync_status(true, 5, &checkpoints, U256::zero()), SyncStatus::Info(_)));
}

#[test]
fn a_lost_termination_outcome_is_a_closed_channel() {
    assert!(matches!(termination_outcome(None), Err(AdvancePersistenceError::ChannelClosed)));
    assert!(termination_outcome(Some(Ok(()))).is_ok());
    let outcome = termination_outcome(None);
    assert_eq!(
        engine_shutdown_outcome_to_exit(&outcome).unwrap_err(),
        "Engine shutdown persistence failed: persistence channel closed"
    );
}

#[test]
fn the_engine_loop_tells_the_network_and_leaves() {
    let idle = EngineLoop { terminate_after_backfill: false, startup_sync_state_idle: true };
    let plain = EngineLoop { terminate_after_backfill: false, startup_sync_state_idle: false };
    let once = EngineLoop { terminate_after_backfill: true, startup_sync_state_idle: true };
    assert_eq!(idle.initial_sync_state(false), Some(SyncState::Idle));
    assert_eq!(idle.initial_sync_state(true), None);
    assert_eq!(plain.initial_sync_state(false), None);
    assert_eq!(
        idle.on(EngineEvent::BackfillSyncFinished).sync_state,
        Some(SyncState::Idle)
    );
    assert_eq!(plain.on(EngineEvent::BackfillSyncFinished).sync_state, None);
    let last = once.on(EngineEvent::BackfillSyncFinished);
    assert!(last.leave && !last.fatal && last.sync_state.is_none());
    assert_eq!(
        plain.on(EngineEvent::BackfillSyncStarted).sync_state,
        Some(SyncState::Syncing)
    );
    let fatal = plain.on(EngineEvent::FatalError);
    assert!(fatal.leave && fatal.fatal);
    let head = plain.on(EngineEvent::Handler { canonical: true });
    assert!(head.publish_head && head.notify && !head.leave);
    assert_eq!(head.sync_state, Some(SyncState::Idle));
    let other = plain.on(EngineEvent::Handler { canonical: false });
    assert!(!other.publish_head && other.notify && other.sync_state.is_none());
    assert!(plain.on(EngineEvent::Ended).leave);
    let gone = plain.on(EngineEvent::RequestsClosed);
    assert!(!gone.leave && !gone.terminate);
    let down = plain.on(EngineEvent::Shutdown);
    assert!(down.leave && down.terminate && !down.fatal);
    let busy = Err(AdvancePersistenceError::UnsafeShutdownPipelineBusy);
    assert!(loop_exit(&down, &busy).unwrap_err().starts_with("Engine shutdown persistence failed"));
    assert!(loop_exit(&down, &Ok(())).is_ok());
    assert!(loop_exit(&plain.on(EngineEvent::Ended), &busy).is_ok());
    assert_eq!(loop_exit(&fatal, &Ok(())).unwrap_err(), "Fatal error in consensus engine");
}

#[test]
fn heads_are_published_with_their_difficulty_and_range() {
    let final_paris = Some(U256::from_u64(58));
    assert_eq!(total_difficulty(final_paris, true), U256::from_u64(58));
    assert_eq!(total_difficulty(final_paris, false), U256::zero());
    assert_eq!(total_difficulty(None, true), U256::zero());
    let range = block_range(None, 9, B256::repeat_byte(1));
    assert_eq!((range.earliest, range.latest), (0, 9));
    assert_eq!(block_range(Some(4), 9, B256::repeat_byte(1)).earliest, 4);
}

#[test]
fn a_reader_adopts_new_tips_and_shallow_reorgs_only() {
    let mut poller = HeadPoller::new();
    assert!(!poller.wants(0));
    assert!(poller.wants(1000));
    assert!(!poller.on_header(1000, false));
    assert_eq!(poller.last_adopted, 0);
    assert!(poller.on_header(1000, true));
    assert!(!poller.wants(1000));
    assert!(poller.wants(1001));
    assert!(poller.wants(936));
    assert!(!poller.wants(935));
}

#[test]
fn a_snapshot_holds_the_barrier_from_quiesce_to_resume() {
    let mut cycle = SnapshotCycle::new();
    assert_eq!(cycle.on(SnapshotEvent::Requested), SnapshotAction::TakeBarrier);
    assert_eq!(cycle.on(SnapshotEvent::Quiesced), SnapshotAction::Flush);
    assert_eq!(cycle.on(SnapshotEvent::Flushed), SnapshotAction::WriteMarker);
    assert_eq!(cycle.on(SnapshotEvent::MarkerDone), SnapshotAction::AwaitResume);
    assert_eq!(cycle.on(SnapshotEvent::Resumed), SnapshotAction::Release);
    assert_eq!(cycle.phase, SnapshotPhase::Armed);
    cycle.on(SnapshotEvent::Requested);
    cycle.on(SnapshotEvent::Quiesced);
    assert_eq!(cycle.on(SnapshotEvent::FlushFailed), SnapshotAction::AwaitResume);
    assert_eq!(cycle.on(SnapshotEvent::ResumesClosed), SnapshotAction::ReleaseAndStop);
    assert_eq!(cycle.phase, SnapshotPhase::Stopped);
    let mut failed = SnapshotCycle::new();
    failed.on(SnapshotEvent::Requested);
    assert_eq!(failed.on(SnapshotEvent::QuiesceFailed), SnapshotAction::Stop);
    assert_eq!(SnapshotCycle::new().on(SnapshotEvent::RequestsClosed), SnapshotAction::Stop);
}

#[test]
fn the_snapshot_handler_needs_a_place_for_its_marker() {
    let on = Some("1".to_string());
    let off = Some("0".to_string());
    assert!(asks_for_flush(&on));
    assert!(!asks_for_flush(&off));
    assert!(!asks_for_flush(&None));
    assert!(matches!(snapshot_setting(&on, None, false), SnapshotSetting::NoMarker));
    assert!(matches!(snapshot_setting(&off, None, false), SnapshotSetting::Off));
    let marker = Some("/run/marker".to_string());
    assert!(matches!(snapshot_setting(&on, marker, true), SnapshotSetting::Off));
    assert!(matches!(snapshot_setting(&on, None, true), SnapshotSetting::Off));
    match snapshot_setting(&on, Some("/run/marker".to_string()), false) {
        SnapshotSetting::On(path) => assert_eq!(path, "/run/marker"),
        _ => panic!("the handler was asked for"),
    }
}

fn sealed(number: u64) -> SealedBlock<u8> {
    SealedBlock {
        hash: B256::repeat_byte(0xab),
        number,
        parent_hash: B256::repeat_byte(0xcd),
        body: 5,
    }
}

#[test]
fn only_invalid_blocks_are_answered_as_invalid() {
    let text = || "bad".to_string();
    assert!(matches!(
        InsertBlockErrorKind::Consensus(text()).ensure_validation_error(),
        Ok(InsertBlockValidationError::Consensus(m)) if m == "bad"
    ));
    assert!(matches!(
        InsertBlockErrorKind::Execution(BlockExecutionError::Validation(text()))
            .ensure_validation_error(),
        Ok(InsertBlockValidationError::Validation(m)) if m == "bad"
    ));
    assert!(matches!(
        InsertBlockErrorKind::Execution(BlockExecutionError::Internal(
            InternalBlockExecutionError::EVM(text())
        ))
        .ensure_validation_error(),
        Err(InsertBlockFatalError::BlockExecutionError(InternalBlockExecutionError::EVM(m)))
            if m == "bad"
    ));
    assert!(matches!(
        InsertBlockErrorKind::Provider(text()).ensure_validation_error(),
        Err(InsertBlockFatalError::Provider(m)) if m == "bad"
    ));
    assert!(matches!(
        InsertBlockErrorKind::Other(text()).ensure_validation_error(),
        Err(InsertBlockFatalError::BlockExecutionError(InternalBlockExecutionError::Other(m)))
            if m == "bad"
    ));
}

#[test]
fn insert_errors_keep_their_block() {
    let error = InsertBlockError::consensus_error("gas limit".to_string(), sealed(12));
    assert_eq!(
        error.message(),
        format!(
            "Failed to insert block (hash=0x{}, number=12, parent_hash=0x{}): gas limit",
            "ab".repeat(32),
            "cd".repeat(32)
        )
    );
    assert!(matches!(error.kind(), InsertBlockErrorKind::Consensus(_)));
    assert_eq!(error.block().number, 12);
    let payload = InsertPayloadError::Block(error);
    assert!(payload.message().ends_with("): gas limit"));
    let InsertPayloadError::Block(error) = payload else { panic!("a block error") };
    let (block, kind) = error.split();
    assert_eq!(block.body, 5);
    assert_eq!(kind.message(), "gas limit");
    let again = InsertBlockError::new(block, InsertBlockErrorKind::Provider("disk".to_string()));
    assert_eq!(again.into_block().number, 12);
    assert_eq!(InsertPayloadError::<u8>::Payload("short".to_string()).message(), "short");
}

#[test]
fn persistence_errors_say_what_happened() {
    let mismatch = PersistenceFenceError::MissingFinish;
    let said = [
        (
            AdvancePersistenceError::Provider("io".to_string()),
            "io".to_string(),
        ),
        (
            AdvancePersistenceError::Persistence(PersistenceError::Fence(mismatch)),
            "Finish checkpoint is missing".to_string(),
        ),
        (
            AdvancePersistenceError::FenceRepairUnavailable { mismatch },
            "engine persistence fence cannot converge with pipeline backfill disabled: \
             Finish checkpoint is missing"
                .to_string(),
        ),
        (
            AdvancePersistenceError::FenceRepairTargetMissing { block_number: 40 },
            "engine persistence fence cannot find block 40 for pipeline convergence".to_string(),
        ),
        (
            AdvancePersistenceError::FenceRepairDispatchFailed,
            "engine persistence fence could not dispatch its pipeline convergence action"
                .to_string(),
        ),
        (
            AdvancePersistenceError::FenceRepairFailed {
                target: BlockNumHash { number: 4, hash: B256::repeat_byte(0) },
                initial: mismatch,
                previous_finish: Some(3),
                current_finish: None,
                current: mismatch,
            },
            format!(
                "engine persistence fence convergence to NumHash {{ number: 4, hash: 0x{} }} \
                 stalled: initial=Finish checkpoint is missing; previous Finish=Some(3); \
                 current Finish=None; current=Finish checkpoint is missing",
                "00".repeat(32)
            ),
        ),
        (
            AdvancePersistenceError::FenceBatchRejected { mismatch },
            "engine persistence batch rejected before dispatch: Finish checkpoint is missing"
                .to_string(),
        ),
        (
            AdvancePersistenceError::UnsafeShutdownFence { mismatch },
            "refusing unsafe graceful persistence flush: Finish checkpoint is missing".to_string(),
        ),
    ];
    for (error, message) in said {
        assert_eq!(error.message(), message);
    }
    assert_eq!(
        InsertBlockFatalError::Persistence(AdvancePersistenceError::ChannelClosed).message(),
        "persistence channel closed"
    );
    assert_eq!(
        InsertBlockFatalError::BackfillStartedWithoutPending.message(),
        "pipeline backfill started without an acknowledged pending handoff"
    );
}
