//! The decisions of a node's launch: what it refuses to start with, what it
//! makes of the engine's events, which heads a reader adopts, and how a writer
//! holds still for a snapshot.

use vstd::prelude::*;

use crate::error;
use crate::error::AdvancePersistenceError;
use crate::hash;
use crate::hash::hex_b256;
use crate::primitives::{B256, U256};

verus! {

// ------------------------------------------------------------------ startup

/// The number of blocks from which on a gap is closed by the pipeline, unless
/// another is configured.
pub const MIN_BLOCKS_FOR_PIPELINE_RUN: u64 = 32;

/// What of the tree's configuration matters here.
#[derive(Clone, Copy, Debug, PartialEq, Eq, Structural)]
pub struct TreeConfig {
    pub min_blocks_for_pipeline_run: u64,
}

impl TreeConfig {
    /// The configuration that is used unless another is given.
    pub fn new() -> (r: Self)
        ensures
            r.min_blocks_for_pipeline_run == MIN_BLOCKS_FOR_PIPELINE_RUN,
    {
        TreeConfig { min_blocks_for_pipeline_run: MIN_BLOCKS_FOR_PIPELINE_RUN }
    }

    /// The configuration with another bound for pipeline runs.
    pub fn with_min_blocks_for_pipeline_run(self, blocks: u64) -> (r: Self)
        ensures
            r.min_blocks_for_pipeline_run == blocks,
    {
        TreeConfig { min_blocks_for_pipeline_run: blocks }
    }

    /// Whether no gap is ever closed by the pipeline: when no gap is wide
    /// enough.
    pub fn pipeline_backfill_disabled(&self) -> (r: bool)
        ensures
            r == (self.min_blocks_for_pipeline_run == u64::MAX),
    {
        self.min_blocks_for_pipeline_run == u64::MAX
    }
}

/// Why a database that needs the pipeline is not served.
pub open spec fn convergence_refused(target: B256) -> Seq<char> {
    "database requires initial pipeline convergence to "@ + hash::b256_text(target)
        + ", but pipeline backfill is disabled"@
}

/// Refuses to start on a database that the pipeline has to bring to a target
/// first, when pipeline backfill is disabled.
pub fn ensure_initial_backfill_allowed(
    tree_config: &TreeConfig,
    initial_target: Option<B256>,
) -> (r: Result<(), String>)
    ensures
        match r {
            Ok(_) => tree_config.min_blocks_for_pipeline_run != u64::MAX || initial_target is None,
            Err(m) => {
                &&& tree_config.min_blocks_for_pipeline_run == u64::MAX
                &&& initial_target is Some
                &&& m@ == convergence_refused(initial_target->Some_0)
            },
        },
{
    if tree_config.pipeline_backfill_disabled() {
        if let Some(target) = initial_target {
            let mut m: String = "database requires initial pipeline convergence to ".to_owned();
            m.append(hex_b256(&target).as_str());
            m.append(", but pipeline backfill is disabled");
            return Err(m);
        }
    }
    Ok(())
}

/// What a node exits with after its engine was shut down.
pub fn engine_shutdown_outcome_to_exit(outcome: &Result<(), AdvancePersistenceError>) -> (r: Result<
    (),
    String,
>)
    ensures
        match (*outcome, r) {
            (Ok(_), Ok(_)) => true,
            (Err(e), Err(m)) => m@ == "Engine shutdown persistence failed: "@
                + error::advance_message_of(e),
            _ => false,
        },
{
    match outcome {
        Ok(_) => Ok(()),
        Err(e) => {
            let mut m: String = "Engine shutdown persistence failed: ".to_owned();
            m.append(e.message().as_str());
            Err(m)
        },
    }
}

/// The outcome of a termination: where nobody says, the channel was closed.
pub fn termination_outcome(said: Option<Result<(), AdvancePersistenceError>>) -> (r: Result<
    (),
    AdvancePersistenceError,
>)
    ensures
        r == (match said {
            Some(outcome) => outcome,
            None => Err(AdvancePersistenceError::ChannelClosed),
        }),
{
    match said {
        Some(outcome) => outcome,
        None => Err(AdvancePersistenceError::ChannelClosed),
    }
}

// -------------------------------------------------------------- engine loop

/// What the network is told of the node.
#[derive(Clone, Copy, Debug, PartialEq, Eq, Structural)]
pub enum SyncState {
    Syncing,
    Idle,
}

/// An event of the orchestrator, as far as the loop asks.
#[derive(Clone, Copy, Debug, PartialEq, Eq, Structural)]
pub enum EngineEvent {
    BackfillSyncFinished,
    BackfillSyncStarted,
    FatalError,
    /// An event of the handler; whether the canonical head changed with it.
    Handler { canonical: bool },
    /// The orchestrator has ended.
    Ended,
    /// The node is to shut down, by a request or by a signal.
    Shutdown,
    /// Nobody is left who could request a shutdown.
    RequestsClosed,
}

/// What the loop was configured with.
#[derive(Clone, Copy, Debug, PartialEq, Eq, Structural)]
pub struct EngineLoop {
    /// Stop when the first backfill is done.
    pub terminate_after_backfill: bool,
    /// Count as idle from the start.
    pub startup_sync_state_idle: bool,
}

/// What the loop does with an event.
#[derive(Clone, Copy, Debug, PartialEq, Eq, Structural)]
pub struct LoopStep {
    /// The state to tell the network, if it changes.
    pub sync_state: Option<SyncState>,
    /// Tell the network of the new head.
    pub publish_head: bool,
    /// Pass the event on to the listeners.
    pub notify: bool,
    /// Tell the engine to terminate, and wait for its outcome.
    pub terminate: bool,
    /// Leave the loop.
    pub leave: bool,
    /// Exit with an error.
    pub fatal: bool,
}

/// What the loop does with an event.
pub open spec fn loop_step(l: EngineLoop, event: EngineEvent) -> LoopStep {
    let nothing = LoopStep {
        sync_state: None,
        publish_head: false,
        notify: false,
        terminate: false,
        leave: false,
        fatal: false,
    };
    match event {
        EngineEvent::BackfillSyncFinished => if l.terminate_after_backfill {
            LoopStep { leave: true, ..nothing }
        } else if l.startup_sync_state_idle {
            LoopStep { sync_state: Some(SyncState::Idle), ..nothing }
        } else {
            nothing
        },
        EngineEvent::BackfillSyncStarted => LoopStep {
            sync_state: Some(SyncState::Syncing),
            ..nothing
        },
        EngineEvent::FatalError => LoopStep { leave: true, fatal: true, ..nothing },
        EngineEvent::Handler { canonical } => if canonical {
            LoopStep {
                sync_state: Some(SyncState::Idle),
                publish_head: true,
                notify: true,
                ..nothing
            }
        } else {
            LoopStep { notify: true, ..nothing }
        },
        EngineEvent::Ended => LoopStep { leave: true, ..nothing },
        EngineEvent::Shutdown => LoopStep { terminate: true, leave: true, ..nothing },
        EngineEvent::RequestsClosed => nothing,
    }
}

impl EngineLoop {
    /// The state that the loop starts with, where it is another than syncing,
    /// which every restart assumes: only where no backfill has started.
    pub fn initial_sync_state(&self, initial_backfill_started: bool) -> (r: Option<SyncState>)
        ensures
            r == (if !initial_backfill_started && self.startup_sync_state_idle {
                Some(SyncState::Idle)
            } else {
                None
            }),
    {
        if !initial_backfill_started && self.startup_sync_state_idle {
            Some(SyncState::Idle)
        } else {
            None
        }
    }

    /// What the loop does with an event.
    pub fn on(&self, event: EngineEvent) -> (r: LoopStep)
        ensures
            r == loop_step(*self, event),
    {
        let mut step = LoopStep {
            sync_state: None,
            publish_head: false,
            notify: false,
            terminate: false,
            leave: false,
            fatal: false,
        };
        match event {
            EngineEvent::BackfillSyncFinished => {
                if self.terminate_after_backfill {
                    step.leave = true;
                } else if self.startup_sync_state_idle {
                    step.sync_state = Some(SyncState::Idle);
                }
            },
            EngineEvent::BackfillSyncStarted => {
                step.sync_state = Some(SyncState::Syncing);
            },
            EngineEvent::FatalError => {
                step.leave = true;
                step.fatal = true;
            },
            EngineEvent::Handler { canonical } => {
                if canonical {
                    // A node that advances on live blocks is not syncing.
                    step.sync_state = Some(SyncState::Idle);
                    step.publish_head = true;
                }
                step.notify = true;
            },
            EngineEvent::Ended => {
                step.leave = true;
            },
            EngineEvent::Shutdown => {
                step.terminate = true;
                step.leave = true;
            },
            EngineEvent::RequestsClosed => {},
        }
        step
    }
}

/// What a node exits with when its loop is left: the engine's outcome where it
/// was told to terminate, an error after a fatal event, and success otherwise.
pub open spec fn exit_of(
    step: LoopStep,
    outcome: Result<(), AdvancePersistenceError>,
) -> Option<Seq<char>> {
    if step.fatal {
        Some("Fatal error in consensus engine"@)
    } else if step.terminate {
        match outcome {
            Ok(_) => None,
            Err(e) => Some(
                "Engine shutdown persistence failed: "@ + error::advance_message_of(e),
            ),
        }
    } else {
        None
    }
}

/// What a node exits with when its loop is left. `outcome` is what the engine
/// says of its termination, where it was told to.
pub fn loop_exit(step: &LoopStep, outcome: &Result<(), AdvancePersistenceError>) -> (r: Result<
    (),
    String,
>)
    ensures
        match r {
            Ok(_) => exit_of(*step, *outcome) is None,
            Err(m) => exit_of(*step, *outcome) == Some(m@),
        },
{
    if step.fatal {
        Err("Fatal error in consensus engine".to_owned())
    } else if step.terminate {
        engine_shutdown_outcome_to_exit(outcome)
    } else {
        Ok(())
    }
}

/// A node whose engine could not persist what it had does not exit cleanly, by
/// whatever way the engine was told to terminate.
pub proof fn lemma_failed_shutdown_is_told(
    l: EngineLoop,
    event: EngineEvent,
    outcome: Result<(), AdvancePersistenceError>,
)
    requires
        loop_step(l, event).terminate,
        outcome is Err,
    ensures
        loop_step(l, event).leave,
        exit_of(loop_step(l, event), outcome) is Some,
{
}

/// The total difficulty of a head: that of the merge once it is active there.
pub fn total_difficulty(final_paris: Option<U256>, paris_active: bool) -> (r: U256)
    ensures
        r == (match final_paris {
            Some(d) if paris_active => d,
            _ => U256 { hi: 0, lo: 0 },
        }),
{
    match final_paris {
        Some(d) => if paris_active {
            d
        } else {
            U256::zero()
        },
        None => U256::zero(),
    }
}

/// The blocks that a node offers.
#[derive(Clone, Copy, Debug, PartialEq, Eq, Structural)]
pub struct BlockRangeUpdate {
    pub earliest: u64,
    pub latest: u64,
    pub latest_hash: B256,
}

/// The blocks that a node offers: from the first it knows of, if that can be
/// told, to its head.
pub fn block_range(earliest: Option<u64>, latest: u64, latest_hash: B256) -> (r: BlockRangeUpdate)
    ensures
        r == (BlockRangeUpdate {
            earliest: match earliest {
                Some(n) => n,
                None => 0,
            },
            latest,
            latest_hash,
        }),
{
    BlockRangeUpdate {
        earliest: match earliest {
            Some(n) => n,
            None => 0,
        },
        latest,
        latest_hash,
    }
}

// -------------------------------------------------------------- head poller

/// How deep a drop of the tip a trusting reader follows.
pub const REORG_TOLERANCE: u64 = 64;

/// A reader that adopts the heads that its writer has committed.
#[derive(Clone, Copy, Debug, PartialEq, Eq, Structural)]
pub struct HeadPoller {
    pub last_adopted: u64,
}

/// A tip is adopted: another than the last one, and no deeper below it than a
/// shallow reorg.
pub open spec fn adopts(last_adopted: u64, tip: u64) -> bool {
    tip != last_adopted && tip + REORG_TOLERANCE >= last_adopted
}

impl HeadPoller {
    /// A reader that has adopted nothing yet.
    pub fn new() -> (r: Self)
        ensures
            r.last_adopted == 0,
    {
        HeadPoller { last_adopted: 0 }
    }

    /// Whether the header of `tip` is to be read. What the writer committed
    /// stays, so that a deep drop is a scan that raced the writer, and no tip.
    pub fn wants(&self, tip: u64) -> (r: bool)
        ensures
            r == adopts(self.last_adopted, tip),
    {
        !(tip == self.last_adopted || (tip < self.last_adopted && self.last_adopted - tip
            > REORG_TOLERANCE))
    }

    /// The header of `tip` was asked for; where it is there, it is the head
    /// from now on, and the caller sets it so.
    pub fn on_header(&mut self, tip: u64, found: bool) -> (set_head: bool)
        requires
            adopts(old(self).last_adopted, tip),
        ensures
            set_head == found,
            final(self).last_adopted == (if found {
                tip
            } else {
                old(self).last_adopted
            }),
    {
        if found {
            self.last_adopted = tip;
        }
        found
    }
}

/// The heads that a reader adopts, of the tips it is shown: those it wants,
/// when their headers are there.
pub open spec fn adopted_after(last_adopted: u64, tips: Seq<(u64, bool)>) -> u64
    decreases tips.len(),
{
    if tips.len() == 0 {
        last_adopted
    } else {
        let before = adopted_after(last_adopted, tips.drop_last());
        if adopts(before, tips.last().0) && tips.last().1 {
            tips.last().0
        } else {
            before
        }
    }
}

/// Whatever tips a reader is shown, its head never drops deeper than a shallow
/// reorg at once.
pub proof fn lemma_head_guard(last_adopted: u64, tips: Seq<(u64, bool)>)
    requires
        tips.len() > 0,
    ensures
        adopted_after(last_adopted, tips) + REORG_TOLERANCE >= adopted_after(
            last_adopted,
            tips.drop_last(),
        ),
{
}

// ------------------------------------------------------------------ snapshot

/// Where a snapshot cycle stands.
#[derive(Clone, Copy, Debug, PartialEq, Eq, Structural)]
pub enum SnapshotPhase {
    /// Waiting for the signal that asks for a snapshot.
    Armed,
    /// Taking the barrier that holds every writer.
    Quiescing,
    /// Flushing what is in memory, with the barrier held.
    Flushing,
    /// Writing the marker, with the barrier held.
    Marking,
    /// Waiting for the signal to go on, with the barrier held.
    Holding,
    /// No cycle any more.
    Stopped,
}

/// What happened to a snapshot cycle.
#[derive(Clone, Copy, Debug, PartialEq, Eq, Structural)]
pub enum SnapshotEvent {
    /// A snapshot is asked for.
    Requested,
    /// No snapshot will be asked for any more.
    RequestsClosed,
    /// The barrier is held.
    Quiesced,
    /// The barrier could not be taken.
    QuiesceFailed,
    /// What was in memory is flushed.
    Flushed,
    /// It could not be.
    FlushFailed,
    /// The marker is written, or could not be.
    MarkerDone,
    /// The snapshot is taken.
    Resumed,
    /// The signal to go on will not come.
    ResumesClosed,
}

/// What is to be done for a snapshot cycle.
#[derive(Clone, Copy, Debug, PartialEq, Eq, Structural)]
pub enum SnapshotAction {
    AwaitRequest,
    TakeBarrier,
    Flush,
    WriteMarker,
    AwaitResume,
    /// Let the writers go, then wait for the next request.
    Release,
    /// Let the writers go and stop.
    ReleaseAndStop,
    Stop,
}

/// `event` can come in this phase.
pub open spec fn snapshot_expects(phase: SnapshotPhase, event: SnapshotEvent) -> bool {
    match phase {
        SnapshotPhase::Armed => event == SnapshotEvent::Requested || event
            == SnapshotEvent::RequestsClosed,
        SnapshotPhase::Quiescing => event == SnapshotEvent::Quiesced || event
            == SnapshotEvent::QuiesceFailed,
        SnapshotPhase::Flushing => event == SnapshotEvent::Flushed || event
            == SnapshotEvent::FlushFailed,
        SnapshotPhase::Marking => event == SnapshotEvent::MarkerDone,
        SnapshotPhase::Holding => event == SnapshotEvent::Resumed || event
            == SnapshotEvent::ResumesClosed,
        SnapshotPhase::Stopped => false,
    }
}

/// The phase after `event`, and what is to be done.
pub open spec fn snapshot_after(event: SnapshotEvent) -> (SnapshotPhase, SnapshotAction) {
    match event {
        SnapshotEvent::Requested => (SnapshotPhase::Quiescing, SnapshotAction::TakeBarrier),
        SnapshotEvent::RequestsClosed => (SnapshotPhase::Stopped, SnapshotAction::Stop),
        SnapshotEvent::Quiesced => (SnapshotPhase::Flushing, SnapshotAction::Flush),
        SnapshotEvent::QuiesceFailed => (SnapshotPhase::Stopped, SnapshotAction::Stop),
        SnapshotEvent::Flushed => (SnapshotPhase::Marking, SnapshotAction::WriteMarker),
        SnapshotEvent::FlushFailed => (SnapshotPhase::Holding, SnapshotAction::AwaitResume),
        SnapshotEvent::MarkerDone => (SnapshotPhase::Holding, SnapshotAction::AwaitResume),
        SnapshotEvent::Resumed => (SnapshotPhase::Armed, SnapshotAction::Release),
        SnapshotEvent::ResumesClosed => (SnapshotPhase::Stopped, SnapshotAction::ReleaseAndStop),
    }
}

/// The barrier is held in this phase.
pub open spec fn holds_barrier(phase: SnapshotPhase) -> bool {
    phase == SnapshotPhase::Flushing || phase == SnapshotPhase::Marking || phase
        == SnapshotPhase::Holding
}

/// A writer that holds still for snapshots.
#[derive(Clone, Copy, Debug, PartialEq, Eq, Structural)]
pub struct SnapshotCycle {
    pub phase: SnapshotPhase,
}

impl SnapshotCycle {
    /// A writer that waits for the first request.
    pub fn new() -> (r: Self)
        ensures
            r.phase == SnapshotPhase::Armed,
    {
        SnapshotCycle { phase: SnapshotPhase::Armed }
    }

    /// Takes `event` in, and says what is to be done. Every request is paired
    /// with one signal to go on, also when the flush or the marker failed, so
    /// that no signal is left over for a later cycle.
    pub fn on(&mut self, event: SnapshotEvent) -> (r: SnapshotAction)
        requires
            snapshot_expects(old(self).phase, event),
        ensures
            (final(self).phase, r) == snapshot_after(event),
    {
        let (phase, action): (SnapshotPhase, SnapshotAction) = match event {
            SnapshotEvent::Requested => (SnapshotPhase::Quiescing, SnapshotAction::TakeBarrier),
            SnapshotEvent::RequestsClosed => (SnapshotPhase::Stopped, SnapshotAction::Stop),
            SnapshotEvent::Quiesced => (SnapshotPhase::Flushing, SnapshotAction::Flush),
            SnapshotEvent::QuiesceFailed => (SnapshotPhase::Stopped, SnapshotAction::Stop),
            SnapshotEvent::Flushed => (SnapshotPhase::Marking, SnapshotAction::WriteMarker),
            SnapshotEvent::FlushFailed => (SnapshotPhase::Holding, SnapshotAction::AwaitResume),
            SnapshotEvent::MarkerDone => (SnapshotPhase::Holding, SnapshotAction::AwaitResume),
            SnapshotEvent::Resumed => (SnapshotPhase::Armed, SnapshotAction::Release),
            SnapshotEvent::ResumesClosed => (
                SnapshotPhase::Stopped,
                SnapshotAction::ReleaseAndStop,
            ),
        };
        self.phase = phase;
        action
    }
}

/// The barrier is taken before anything is flushed or marked, is held until
/// the signal to go on comes or can come no more, and is let go exactly then.
pub proof fn lemma_barrier_is_held(phase: SnapshotPhase, event: SnapshotEvent)
    requires
        snapshot_expects(phase, event),
    ensures
        ({
            let (next, action) = snapshot_after(event);
            &&& action == SnapshotAction::Flush || action == SnapshotAction::WriteMarker
                ==> holds_barrier(next)
            &&& holds_barrier(phase) && !holds_barrier(next) <==> action
                == SnapshotAction::Release || action == SnapshotAction::ReleaseAndStop
            &&& !holds_barrier(phase) && holds_barrier(next) <==> event == SnapshotEvent::Quiesced
            &&& action == SnapshotAction::WriteMarker ==> event == SnapshotEvent::Flushed
        }),
{
}

/// The phase that a cycle is in after these events, where each could come.
pub open spec fn phase_after(events: Seq<SnapshotEvent>) -> Option<SnapshotPhase>
    decreases events.len(),
{
    if events.len() == 0 {
        Some(SnapshotPhase::Armed)
    } else {
        match phase_after(events.drop_last()) {
            Some(phase) => if snapshot_expects(phase, events.last()) {
                Some(snapshot_after(events.last()).0)
            } else {
                None
            },
            None => None,
        }
    }
}

/// How often `event` is among the events.
pub open spec fn times(events: Seq<SnapshotEvent>, event: SnapshotEvent) -> nat
    decreases events.len(),
{
    if events.len() == 0 {
        0
    } else {
        times(events.drop_last(), event) + (if events.last() == event {
            1nat
        } else {
            0
        })
    }
}

/// Every request for a snapshot is paired with exactly one signal to go on,
/// whether or not the flush and the marker came off: when the next request is
/// awaited, as many of the one have come as of the other, and while a cycle
/// runs there is one more request.
pub proof fn lemma_signals_pair(events: Seq<SnapshotEvent>)
    requires
        phase_after(events) is Some,
    ensures
        phase_after(events) == Some(SnapshotPhase::Armed) ==> times(
            events,
            SnapshotEvent::Requested,
        ) == times(events, SnapshotEvent::Resumed),
        phase_after(events) != Some(SnapshotPhase::Armed) && phase_after(events) != Some(
            SnapshotPhase::Stopped,
        ) ==> times(events, SnapshotEvent::Requested) == times(events, SnapshotEvent::Resumed) + 1,
    decreases events.len(),
{
    if events.len() > 0 {
        lemma_signals_pair(events.drop_last());
    }
}

/// What the environment asks of the snapshot handler.
#[derive(Debug)]
pub enum SnapshotSetting {
    /// No handler.
    Off,
    /// A handler that writes its marker here.
    On(String),
    /// A handler was asked for, but no place for its marker was named.
    NoMarker,
}

/// Whether the environment asks for the snapshot handler.
pub fn asks_for_flush(flag: &Option<String>) -> (r: bool)
    ensures
        r == (flag matches Some(f) && f@ == "1"@),
{
    match flag {
        Some(f) => *f == "1".to_owned(),
        None => false,
    }
}

/// What the environment asks of the snapshot handler. A reader, which writes
/// nothing that a snapshot could tear, never has one.
pub fn snapshot_setting(
    flag: &Option<String>,
    marker: Option<String>,
    reader: bool,
) -> (r: SnapshotSetting)
    ensures
        r == (if !reader && (flag matches Some(f) && f@ == "1"@) {
            match marker {
                Some(path) => SnapshotSetting::On(path),
                None => SnapshotSetting::NoMarker,
            }
        } else {
            SnapshotSetting::Off
        }),
{
    if !reader && asks_for_flush(flag) {
        match marker {
            Some(path) => SnapshotSetting::On(path),
            None => SnapshotSetting::NoMarker,
        }
    } else {
        SnapshotSetting::Off
    }
}

} // verus!
