//! How the node conducts itself: what the orchestrator tells and schedules, what the
//! engine loop does with an event, which head is adopted, what a snapshot cycle asks
//! for, and what is told of syncing and of static files.

use vstd::multiset::Multiset;
use vstd::prelude::*;
use vstd::seq_lib;

use crate::chain;
use crate::chain::{
    Acknowledgement, BackfillAction, BackfillEvent, BackfillPendingError, BackfillSync, ChainEvent,
    ChainHandler, ChainOrchestrator, FromOrchestrator, HandlerEvent, PipelineTarget, Polled, Turn,
};
use crate::error::AdvancePersistenceError;
use crate::launch;
use crate::launch::{
    BlockRangeUpdate, EngineEvent, EngineLoop, HeadPoller, LoopStep, SnapshotAction, SnapshotCycle,
    SnapshotEvent, SnapshotPhase, SnapshotSetting, SyncState, TreeConfig,
};
use crate::metrics;
use crate::metrics::Scraping;
use crate::persistence::{
    ExecutedBlock, PersistenceAction, PersistenceActionResult, PersistenceHandle,
};
use crate::primitives::{BlockNumHash, B256, U256};
use crate::static_file;
use crate::static_file::{LoadedFile, SortedStaticFiles, StaticFile, StaticFileSegment};
use crate::sync_status;
use crate::sync_status::SyncStatus;
use crate::words;

verus! {

// -------------------------------------------------------------- orchestrator

/// A pending backfill is handed off where the handler acknowledges it, and refused
/// with what the handler says; a handler that is gone acknowledges nothing.
pub proof fn lemma_acknowledged(ack: Acknowledgement, r: Result<(), BackfillPendingError>)
    requires
        call_ensures(chain::acknowledged, (ack,), r),
    ensures
        r is Ok <==> ack is Some && ack->Some_0 is Ok,
        ack matches Some(Err(e)) ==> r == Err::<(), _>(e),
        ack is None ==> r is Err && r->Err_0 is AcknowledgementChannelClosed,
{
}

/// What is said of a backfill that is not handed off.
pub proof fn lemma_refusal_texts(e: BackfillPendingError, r: &'static str)
    requires
        call_ensures(BackfillPendingError::message, (&e,), r),
    ensures
        e is AcknowledgementChannelClosed ==> r@
            == "tree closed the backfill-pending acknowledgement channel"@,
        e is PipelineBackfillDisabled ==> r@ == "pipeline backfill is disabled"@,
        e is PipelineAlreadyActive ==> r@ == "pipeline backfill is already active"@,
        e is PipelineAlreadyPending ==> r@ == "pipeline backfill is already pending"@,
        e is PendingReservationMismatch ==> r@
            == "pipeline backfill pending reservation belongs to a different action"@,
        e is PersistenceInProgress ==> r@ == "Engine persistence is in progress"@,
{
}

/// An event is told by its name, and one of the handler with what it says.
pub proof fn lemma_event_texts<T>(e: ChainEvent<T>, said: &str, r: String)
    requires
        call_ensures(ChainEvent::<T>::text, (&e, said), r),
    ensures
        e is BackfillSyncStarted ==> r@ == "BackfillSyncStarted"@,
        e is BackfillSyncFinished ==> r@ == "BackfillSyncFinished"@,
        e is FatalError ==> r@ == "FatalError"@,
        e is Handler ==> r@.take(8) == "Handler("@ && r@.last() == ')' && r@.subrange(
            8,
            r@.len() - 1,
        ) == said@,
{
    reveal_strlit("Handler(");
    reveal_strlit(")");
    if e is Handler {
        assert(r@.take(8) =~= "Handler("@);
        assert(r@.subrange(8, r@.len() - 1) =~= said@);
    }
}

/// The handler has been told `event`, last of all.
pub open spec fn was_told(
    before: Seq<(FromOrchestrator, Acknowledgement)>,
    event: FromOrchestrator,
    after: Seq<(FromOrchestrator, Acknowledgement)>,
) -> bool {
    &&& after.len() == before.len() + 1
    &&& after.drop_last() == before
    &&& after.last().0 == event
}

/// A backfill is scheduled exactly where the handler, told of it, acknowledged it.
pub open spec fn scheduled_if_acknowledged(
    heard_before: Seq<(FromOrchestrator, Acknowledgement)>,
    scheduled_before: Seq<BackfillAction>,
    action: BackfillAction,
    heard_after: Seq<(FromOrchestrator, Acknowledgement)>,
    scheduled_after: Seq<BackfillAction>,
) -> bool {
    let ack = heard_after.last().1;
    &&& was_told(heard_before, FromOrchestrator::BackfillSyncPending { action }, heard_after)
    &&& ack is Some && ack->Some_0 is Ok ==> scheduled_after == scheduled_before.push(action)
    &&& !(ack is Some && ack->Some_0 is Ok) ==> scheduled_after == scheduled_before
}

proof fn lemma_handed_off(
    heard_before: Seq<(FromOrchestrator, Acknowledgement)>,
    scheduled_before: Seq<BackfillAction>,
    action: BackfillAction,
    r: Result<(), BackfillPendingError>,
    heard_after: Seq<(FromOrchestrator, Acknowledgement)>,
    scheduled_after: Seq<BackfillAction>,
)
    requires
        chain::handed_off(
            heard_before,
            scheduled_before,
            action,
            r,
            heard_after,
            scheduled_after,
        ),
    ensures
        scheduled_if_acknowledged(
            heard_before,
            scheduled_before,
            action,
            heard_after,
            scheduled_after,
        ),
        heard_after.last().1 matches Some(s) ==> r == s,
        heard_after.last().1 is None ==> r is Err && r->Err_0 is AcknowledgementChannelClosed,
{
    assert(heard_after.drop_last() =~= heard_before);
}

/// Starting a backfill: the handler is told first, and the backfill gets the action
/// only with its acknowledgement; else what the handler says comes back.
pub proof fn lemma_start_backfill<C, T: ChainHandler<C>, P: BackfillSync<C>>(
    x: &mut ChainOrchestrator<T, P>,
    target: PipelineTarget,
    r: Result<(), BackfillPendingError>,
)
    requires
        call_ensures(ChainOrchestrator::<T, P>::start_backfill_sync::<C>, (x, target), r),
    ensures
        scheduled_if_acknowledged(
            old(x).the_handler().heard(),
            old(x).the_backfill().scheduled(),
            BackfillAction::Start(target),
            final(x).the_handler().heard(),
            final(x).the_backfill().scheduled(),
        ),
        final(x).the_handler().heard().last().1 matches Some(s) ==> r == s,
        final(x).the_handler().heard().last().1 is None ==> r is Err
            && r->Err_0 is AcknowledgementChannelClosed,
{
    lemma_handed_off(
        old(x).the_handler().heard(),
        old(x).the_backfill().scheduled(),
        BackfillAction::Start(target),
        r,
        final(x).the_handler().heard(),
        final(x).the_backfill().scheduled(),
    );
}

/// What the orchestrator does with what the backfill reports: a start and a finish
/// are told to the handler and passed on; a backfill that failed or was dropped is
/// fatal, and nobody is told.
pub open spec fn passes_on<E>(
    event: BackfillEvent,
    before: Seq<(FromOrchestrator, Acknowledgement)>,
    after: Seq<(FromOrchestrator, Acknowledgement)>,
    r: ChainEvent<E>,
) -> bool {
    &&& event is Started ==> was_told(before, FromOrchestrator::BackfillSyncStarted, after)
        && r is BackfillSyncStarted
    &&& event matches BackfillEvent::Finished(Ok(ctrl)) ==> was_told(
        before,
        FromOrchestrator::BackfillSyncFinished(ctrl),
        after,
    ) && r is BackfillSyncFinished
    &&& event is TaskDropped || (event is Finished && event->Finished_0 is Err) ==> after == before
        && r is FatalError
}

proof fn lemma_passes_on<E>(
    event: BackfillEvent,
    before: Seq<(FromOrchestrator, Acknowledgement)>,
    after: Seq<(FromOrchestrator, Acknowledgement)>,
    r: ChainEvent<E>,
)
    requires
        chain::heard_also(before, chain::told(event), after),
        r == chain::reported::<E>(event),
    ensures
        passes_on(event, before, after, r),
{
    if chain::told(event) is Some {
        assert(after.drop_last() =~= before);
    }
}

/// What the backfill reports is told to the handler, and passed on.
pub proof fn lemma_backfill_event<C, T: ChainHandler<C>, P>(
    x: &mut ChainOrchestrator<T, P>,
    event: BackfillEvent,
    r: ChainEvent<T::Event>,
)
    requires
        call_ensures(ChainOrchestrator::<T, P>::on_backfill_event::<C>, (x, event), r),
    ensures
        passes_on(event, old(x).the_handler().heard(), final(x).the_handler().heard(), r),
        final(x).the_backfill() == old(x).the_backfill(),
{
    lemma_passes_on(event, old(x).the_handler().heard(), final(x).the_handler().heard(), r);
}

/// What the orchestrator does with what the handler asks for: a backfill is handed
/// off, and fatal where it is refused; an event is passed on, and a fatal error too.
pub open spec fn acts_on<E>(
    event: HandlerEvent<E>,
    heard_before: Seq<(FromOrchestrator, Acknowledgement)>,
    scheduled_before: Seq<BackfillAction>,
    r: Turn<E>,
    heard_after: Seq<(FromOrchestrator, Acknowledgement)>,
    scheduled_after: Seq<BackfillAction>,
) -> bool {
    &&& event matches HandlerEvent::BackfillAction(action) ==> {
        &&& scheduled_if_acknowledged(
            heard_before,
            scheduled_before,
            action,
            heard_after,
            scheduled_after,
        )
        &&& heard_after.last().1 is Some && heard_after.last().1->Some_0 is Ok ==> r is Again
        &&& !(heard_after.last().1 is Some && heard_after.last().1->Some_0 is Ok) ==> r is Ready
            && r->Ready_0 is FatalError
    }
    &&& !(event is BackfillAction) ==> heard_after == heard_before && scheduled_after
        == scheduled_before
    &&& event matches HandlerEvent::Event(e) ==> r == Turn::Ready(ChainEvent::Handler(e))
    &&& event is FatalError ==> r is Ready && r->Ready_0 is FatalError
}

proof fn lemma_acts_on<E>(
    event: HandlerEvent<E>,
    heard_before: Seq<(FromOrchestrator, Acknowledgement)>,
    scheduled_before: Seq<BackfillAction>,
    r: Turn<E>,
    heard_after: Seq<(FromOrchestrator, Acknowledgement)>,
    scheduled_after: Seq<BackfillAction>,
)
    requires
        chain::turned::<E>(
            heard_before,
            scheduled_before,
            Polled::Pending,
            Polled::Ready(event),
            r,
            heard_after,
            scheduled_after,
        ),
    ensures
        acts_on(event, heard_before, scheduled_before, r, heard_after, scheduled_after),
{
    if let HandlerEvent::BackfillAction(action) = event {
        let e = choose|e: Result<(), BackfillPendingError>| #[trigger]
            chain::handed_off(
                heard_before,
                scheduled_before,
                action,
                e,
                heard_after,
                scheduled_after,
            ) && r == (if e is Ok {
                Turn::<E>::Again
            } else {
                Turn::Ready(ChainEvent::<E>::FatalError)
            });
        lemma_handed_off(
            heard_before,
            scheduled_before,
            action,
            e,
            heard_after,
            scheduled_after,
        );
    }
}

/// What the handler asks for is done, or passed on.
pub proof fn lemma_handler_event<C, T: ChainHandler<C>, P: BackfillSync<C>>(
    x: &mut ChainOrchestrator<T, P>,
    event: HandlerEvent<T::Event>,
    r: Turn<T::Event>,
)
    requires
        call_ensures(ChainOrchestrator::<T, P>::on_handler_event::<C>, (x, event), r),
    ensures
        acts_on(
            event,
            old(x).the_handler().heard(),
            old(x).the_backfill().scheduled(),
            r,
            final(x).the_handler().heard(),
            final(x).the_backfill().scheduled(),
        ),
{
    lemma_acts_on(
        event,
        old(x).the_handler().heard(),
        old(x).the_backfill().scheduled(),
        r,
        final(x).the_handler().heard(),
        final(x).the_backfill().scheduled(),
    );
}

/// A turn polls the backfill first, and the handler only where the backfill has
/// nothing; what came is done, and nothing is done where nothing came.
pub proof fn lemma_turn<C, T: ChainHandler<C>, P: BackfillSync<C>>(
    x: &mut ChainOrchestrator<T, P>,
    cx: &mut C,
    r: Turn<T::Event>,
)
    requires
        call_ensures(ChainOrchestrator::<T, P>::poll_turn::<C>, (x, cx), r),
    ensures
        final(x).the_backfill().reports().len() == old(x).the_backfill().reports().len() + 1,
        final(x).the_backfill().reports().last() matches Polled::Ready(event) ==> {
            &&& final(x).the_handler().requests() == old(x).the_handler().requests()
            &&& final(x).the_backfill().scheduled() == old(x).the_backfill().scheduled()
            &&& r is Ready
            &&& passes_on(
                event,
                old(x).the_handler().heard(),
                final(x).the_handler().heard(),
                r->Ready_0,
            )
        },
        final(x).the_backfill().reports().last() is Pending ==> {
            &&& final(x).the_handler().requests().len() == old(x).the_handler().requests().len()
                + 1
            &&& final(x).the_handler().requests().last() matches Polled::Ready(event) ==> acts_on(
                event,
                old(x).the_handler().heard(),
                old(x).the_backfill().scheduled(),
                r,
                final(x).the_handler().heard(),
                final(x).the_backfill().scheduled(),
            )
            &&& final(x).the_handler().requests().last() is Pending ==> r is Pending
                && final(x).the_handler().heard() == old(x).the_handler().heard()
                && final(x).the_backfill().scheduled() == old(x).the_backfill().scheduled()
        },
{
    let b = final(x).the_backfill().reports().last();
    let h = final(x).the_handler().requests().last();
    let (p, q) = choose|p: Polled<BackfillEvent>, q: Polled<HandlerEvent<T::Event>>|
        {
            &&& #[trigger] chain::turned::<T::Event>(
                old(x).the_handler().heard(),
                old(x).the_backfill().scheduled(),
                p,
                q,
                r,
                final(x).the_handler().heard(),
                final(x).the_backfill().scheduled(),
            )
            &&& final(x).the_backfill().reports() == old(x).the_backfill().reports().push(p)
            &&& final(x).the_handler().requests() == (match p {
                Polled::Ready(_) => old(x).the_handler().requests(),
                Polled::Pending => old(x).the_handler().requests().push(q),
            })
        };
    assert(b == p);
    match b {
        Polled::Ready(event) => {
            lemma_passes_on(
                event,
                old(x).the_handler().heard(),
                final(x).the_handler().heard(),
                r->Ready_0,
            );
        },
        Polled::Pending => {
            assert(h == q);
            if let Polled::Ready(event) = h {
                lemma_acts_on(
                    event,
                    old(x).the_handler().heard(),
                    old(x).the_backfill().scheduled(),
                    r,
                    final(x).the_handler().heard(),
                    final(x).the_backfill().scheduled(),
                );
            }
        },
    }
}

/// An orchestrator keeps the two that it is made of, and hands the handler out.
pub proof fn lemma_orchestrator<T, P>(handler: T, backfill: P, o: ChainOrchestrator<T, P>, h: &T)
    requires
        call_ensures(ChainOrchestrator::<T, P>::new, (handler, backfill), o),
        call_ensures(ChainOrchestrator::<T, P>::handler, (&o,), h),
    ensures
        o.the_handler() == handler,
        o.the_backfill() == backfill,
        *h == handler,
{
}

// --------------------------------------------------------------- persistence

/// What a handle is asked for is what it sends, whole; and where it cannot be sent,
/// that is what comes back.
pub proof fn lemma_handle<B>(
    handle: PersistenceHandle<B>,
    blocks: Vec<ExecutedBlock<B>>,
    last: BlockNumHash,
    tx: crossbeam_channel::Sender<PersistenceActionResult>,
    n: u64,
    save: Result<(), PersistenceAction<B>>,
    finalized: Result<(), PersistenceAction<B>>,
    safe: Result<(), PersistenceAction<B>>,
    remove: Result<(), PersistenceAction<B>>,
)
    requires
        call_ensures(PersistenceHandle::<B>::save_blocks, (&handle, blocks, last, tx), save),
        call_ensures(PersistenceHandle::<B>::save_finalized_block_number, (&handle, n), finalized),
        call_ensures(PersistenceHandle::<B>::save_safe_block_number, (&handle, n), safe),
        call_ensures(PersistenceHandle::<B>::remove_blocks_above, (&handle, n, tx), remove),
    ensures
        handle.asked(PersistenceAction::SaveBlocks(blocks, last, tx), save),
        handle.asked(PersistenceAction::SaveFinalizedBlock(n), finalized),
        handle.asked(PersistenceAction::SaveSafeBlock(n), safe),
        handle.asked(PersistenceAction::RemoveBlocksAbove(n, tx), remove),
        save matches Err(a) ==> (a matches PersistenceAction::SaveBlocks(b, l, t) && b == blocks
            && l == last && t == tx),
        finalized matches Err(a) ==> (a matches PersistenceAction::SaveFinalizedBlock(k) && k == n),
        safe matches Err(a) ==> (a matches PersistenceAction::SaveSafeBlock(k) && k == n),
        remove matches Err(a) ==> (a matches PersistenceAction::RemoveBlocksAbove(k, t) && k == n
            && t == tx),
{
}

/// A block is known by its number and its hash.
pub proof fn lemma_num_hash<B>(b: ExecutedBlock<B>, r: BlockNumHash)
    requires
        call_ensures(ExecutedBlock::<B>::num_hash, (&b,), r),
    ensures
        r.number == b.number,
        r.hash == b.hash,
{
}

// --------------------------------------------------------------- engine loop

/// What the loop does with an event, and what the node exits with. The loop is left
/// where the node is to stop, where the engine is over or broken, and after a backfill
/// that the node was started for; the engine is told to stop only where the node is
/// to; a head is published only for a canonical one; and the node exits with an error
/// only where the engine broke, or failed to stop.
pub proof fn lemma_loop(
    l: EngineLoop,
    event: EngineEvent,
    step: LoopStep,
    outcome: Result<(), AdvancePersistenceError>,
    exit: Result<(), String>,
)
    requires
        call_ensures(EngineLoop::on, (&l, event), step),
        call_ensures(launch::loop_exit, (&step, &outcome), exit),
    ensures
        step.leave <==> event is Shutdown || event is Ended || event is FatalError || (
        event is BackfillSyncFinished && l.terminate_after_backfill),
        step.terminate <==> event is Shutdown,
        step.fatal <==> event is FatalError,
        step.notify <==> event is Handler,
        step.publish_head <==> event is Handler && event->canonical,
        step.sync_state == Some(SyncState::Syncing) <==> event is BackfillSyncStarted,
        step.sync_state == Some(SyncState::Idle) <==> (event is Handler && event->canonical) || (
        event is BackfillSyncFinished && l.startup_sync_state_idle && !l.terminate_after_backfill),
        exit is Err <==> event is FatalError || (event is Shutdown && outcome is Err),
        event is FatalError ==> exit is Err && exit->Err_0@ == "Fatal error in consensus engine"@,
        event is Shutdown && outcome is Err ==> exists|t: Seq<char>| #[trigger]
            words::one_failure(
                exit->Err_0@,
                "Engine shutdown persistence failed: "@,
                t,
                outcome->Err_0,
            ),
{
    if event is Shutdown && outcome is Err {
        words::lemma_tells_advance(outcome->Err_0);
        assert(words::one_failure(
            exit->Err_0@,
            "Engine shutdown persistence failed: "@,
            crate::error::advance_message_of(outcome->Err_0),
            outcome->Err_0,
        ));
    }
}

/// A node that starts with no backfill is idle from the start, where it is to say so.
pub proof fn lemma_initial_state(l: EngineLoop, started: bool, r: Option<SyncState>)
    requires
        call_ensures(EngineLoop::initial_sync_state, (&l, started), r),
    ensures
        r is Some <==> l.startup_sync_state_idle && !started,
        r matches Some(s) ==> s is Idle,
{
}

/// A backfill runs for 32 blocks and more, where nothing else is set.
pub proof fn lemma_default_config(r: TreeConfig)
    requires
        call_ensures(TreeConfig::new, (), r),
    ensures
        r.min_blocks_for_pipeline_run == 32,
{
}

/// The difficulty of the chain is known once the merge is active, and is zero else;
/// the range of blocks starts at the first that is held, or at genesis.
pub proof fn lemma_status(
    paris: Option<U256>,
    active: bool,
    d: U256,
    earliest: Option<u64>,
    latest: u64,
    hash: B256,
    range: BlockRangeUpdate,
)
    requires
        call_ensures(launch::total_difficulty, (paris, active), d),
        call_ensures(launch::block_range, (earliest, latest, hash), range),
    ensures
        active && paris is Some ==> d == paris->Some_0,
        !active || paris is None ==> d.hi == 0 && d.lo == 0,
        earliest matches Some(n) ==> range.earliest == n,
        earliest is None ==> range.earliest == 0,
        range.latest == latest,
        range.latest_hash == hash,
{
}

/// A tip is looked for where it is another than the one adopted last, and lies behind
/// that one by 64 blocks at most; it is adopted where its header is found.
pub proof fn lemma_head(x: &mut HeadPoller, tip: u64, found: bool, wants: bool, set: bool)
    requires
        call_ensures(HeadPoller::wants, (&*old(x), tip), wants),
        wants ==> call_ensures(HeadPoller::on_header, (x, tip, found), set),
    ensures
        wants <==> tip > old(x).last_adopted || (tip < old(x).last_adopted && old(x).last_adopted
            - tip <= 64),
        wants ==> (set <==> found),
        wants && found ==> final(x).last_adopted == tip,
        wants && !found ==> final(x).last_adopted == old(x).last_adopted,
{
}

/// A poller has adopted nothing when it is made.
pub proof fn lemma_new_poller(r: HeadPoller)
    requires
        call_ensures(HeadPoller::new, (), r),
    ensures
        r.last_adopted == 0,
{
}

// ------------------------------------------------------------ snapshot cycle

/// The barrier is held in this phase.
pub open spec fn held(p: SnapshotPhase) -> bool {
    !(p is Armed || p is Quiescing || p is Stopped)
}

/// A snapshot cycle takes the barrier for a request, flushes behind it, writes the
/// marker only for a flush that went well, and holds the barrier until it is told to
/// resume; then it waits for the next request. Where its signals end, it stops, and
/// gives the barrier back.
pub proof fn lemma_cycle(x: &mut SnapshotCycle, event: SnapshotEvent, r: SnapshotAction)
    requires
        launch::snapshot_expects(old(x).phase, event),
        call_ensures(SnapshotCycle::on, (x, event), r),
    ensures
        r is TakeBarrier <==> old(x).phase is Armed && event is Requested,
        r is Flush <==> old(x).phase is Quiescing && event is Quiesced,
        r is WriteMarker <==> old(x).phase is Flushing && event is Flushed,
        r is AwaitResume <==> old(x).phase is Marking || (old(x).phase is Flushing
            && event is FlushFailed),
        r is Release <==> old(x).phase is Holding && event is Resumed,
        r is ReleaseAndStop <==> old(x).phase is Holding && event is ResumesClosed,
        r is Stop <==> event is RequestsClosed || event is QuiesceFailed,
        !(r is AwaitRequest),
        held(old(x).phase) && !held(final(x).phase) <==> r is Release || r is ReleaseAndStop,
        !held(old(x).phase) && held(final(x).phase) <==> r is Flush,
        final(x).phase is Quiescing <==> r is TakeBarrier,
        final(x).phase is Flushing <==> r is Flush,
        final(x).phase is Marking <==> r is WriteMarker,
        final(x).phase is Holding <==> r is AwaitResume,
        final(x).phase is Armed <==> r is Release,
        final(x).phase is Stopped <==> r is Stop || r is ReleaseAndStop,
{
    assert((final(x).phase, r) == launch::snapshot_after(event));
}

/// A cycle can hear what its phase waits for, and nothing else.
pub proof fn lemma_cycle_hears(phase: SnapshotPhase, event: SnapshotEvent)
    ensures
        launch::snapshot_expects(phase, event) <==> {
            ||| phase is Armed && (event is Requested || event is RequestsClosed)
            ||| phase is Quiescing && (event is Quiesced || event is QuiesceFailed)
            ||| phase is Flushing && (event is Flushed || event is FlushFailed)
            ||| phase is Marking && event is MarkerDone
            ||| phase is Holding && (event is Resumed || event is ResumesClosed)
        },
{
}

/// A cycle is made to wait for its first request.
pub proof fn lemma_new_cycle(r: SnapshotCycle)
    requires
        call_ensures(SnapshotCycle::new, (), r),
    ensures
        r.phase is Armed,
{
}

/// A snapshot is taken by a writer whose flag is `1`, and which is told where the
/// marker goes.
pub proof fn lemma_setting(
    flag: Option<String>,
    marker: Option<String>,
    reader: bool,
    asks: bool,
    r: SnapshotSetting,
)
    requires
        call_ensures(launch::asks_for_flush, (&flag,), asks),
        call_ensures(launch::snapshot_setting, (&flag, marker, reader), r),
    ensures
        asks <==> flag is Some && flag->Some_0@.len() == 1 && flag->Some_0@[0] == '1',
        r is Off <==> reader || !asks,
        r is NoMarker <==> !reader && asks && marker is None,
        r matches SnapshotSetting::On(path) ==> marker == Some(path),
{
    reveal_strlit("1");
    assert("1"@.len() == 1 && "1"@[0] == '1');
    if let Some(f) = flag {
        if f@.len() == 1 && f@[0] == '1' {
            assert(f@ =~= "1"@);
        }
    }
}

/// Metrics are scraped where there is an address to ask and a place to write.
pub proof fn lemma_scraping(url: bool, output: bool, r: Scraping)
    requires
        call_ensures(metrics::scraping, (url, output), r),
    ensures
        r is On <==> url && output,
        r is NoOutput <==> url && !output,
        r is Off <==> !url,
{
}

// ------------------------------------------------------------------- syncing

/// The durable head is the checkpoint of the last stage, and genesis where it has
/// none.
pub proof fn lemma_durable_head(checkpoints: Vec<(String, u64)>, i: int, r: u64)
    requires
        call_ensures(sync_status::durable_head, (&checkpoints,), r),
        0 <= i <= checkpoints@.len(),
        forall|j: int| 0 <= j < i ==> (#[trigger] checkpoints@[j]).0@ != "Finish"@,
    ensures
        i < checkpoints@.len() && checkpoints@[i].0@ == "Finish"@ ==> r == checkpoints@[i].1,
        i == checkpoints@.len() ==> r == 0,
{
    lemma_first_finish(checkpoints@, i);
}

proof fn lemma_first_finish(checkpoints: Seq<(String, u64)>, i: int)
    requires
        0 <= i <= checkpoints.len(),
        forall|j: int| 0 <= j < i ==> (#[trigger] checkpoints[j]).0@ != "Finish"@,
    ensures
        i < checkpoints.len() && checkpoints[i].0@ == "Finish"@ ==> sync_status::durable_head_of(
            checkpoints,
        ) == checkpoints[i].1,
        i == checkpoints.len() ==> sync_status::durable_head_of(checkpoints) == 0,
    decreases i,
{
    if i > 0 {
        assert(checkpoints[0].0@ != "Finish"@);
        let t = checkpoints.skip(1);
        assert forall|j: int| 0 <= j < i - 1 implies (#[trigger] t[j]).0@ != "Finish"@ by {
            assert(t[j] == checkpoints[j + 1]);
        }
        lemma_first_finish(t, i - 1);
    }
}

/// A node says that it is synced only where the network is, and all that it holds is
/// durable; else it tells from where it started, how far it is durable, how far it
/// has come, and where each stage stands.
pub proof fn lemma_sync_status(
    network: bool,
    canonical: u64,
    checkpoints: Vec<(String, u64)>,
    starting: U256,
    durable: u64,
    report: bool,
    r: SyncStatus,
)
    requires
        call_ensures(sync_status::durable_head, (&checkpoints,), durable),
        call_ensures(sync_status::should_report_syncing, (network, durable, canonical), report),
        call_ensures(
            sync_status::sync_status,
            (network, canonical, &checkpoints, starting),
            r,
        ),
    ensures
        !report <==> !network && durable == canonical,
        r is NotSyncing <==> !report,
        r matches SyncStatus::Info(info) ==> {
            &&& info.starting_block == starting
            &&& info.current_block.hi == 0
            &&& info.current_block.lo == durable
            &&& info.highest_block.hi == 0
            &&& info.highest_block.lo == canonical
            &&& info.warp_chunks_amount is None
            &&& info.warp_chunks_processed is None
            &&& info.stages matches Some(s) && s@.len() == checkpoints@.len() && forall|i: int|
                0 <= i < s@.len() ==> (#[trigger] s@[i]).name@ == checkpoints@[i].0@ && s@[i].block
                    == checkpoints@[i].1
        },
{
}

// -------------------------------------------------------------- static files

/// A file of a segment, as it is loaded.
pub open spec fn as_loaded<H, E>(s: StaticFileSegment, f: StaticFile<H>) -> Result<
    Option<LoadedFile<H>>,
    E,
> {
    Ok(Some(LoadedFile { segment: s, file: f }))
}

proof fn lemma_files_counted<H, E>(
    loaded: Seq<Result<Option<LoadedFile<H>>, E>>,
    s: StaticFileSegment,
    f: StaticFile<H>,
)
    ensures
        static_file::files_of(loaded, s).count(f) == loaded.to_multiset().count(as_loaded(s, f)),
    decreases loaded.len(),
{
    if loaded.len() == 0 {
        loaded.to_multiset_ensures();
        assert(loaded.to_multiset().len() == 0);
        assert(loaded.to_multiset() =~= Multiset::empty());
    } else {
        let first = loaded[0];
        let rest = loaded.skip(1);
        lemma_files_counted(rest, s, f);
        let one = seq![first];
        assert(loaded =~= one + rest);
        seq_lib::lemma_multiset_commutative(one, rest);
        assert(one =~= Seq::<Result<Option<LoadedFile<H>>, E>>::empty().push(first));
        Seq::<Result<Option<LoadedFile<H>>, E>>::empty().to_multiset_ensures();
        assert(Seq::<Result<Option<LoadedFile<H>>, E>>::empty().to_multiset() =~= Multiset::empty());
        assert(one.to_multiset() =~= Multiset::empty().insert(first));
        let whole: Result<Option<LoadedFile<H>>, E> = as_loaded(s, f);
        assert(loaded.to_multiset().count(whole) == one.to_multiset().count(whole)
            + rest.to_multiset().count(whole));
        match first {
            Ok(Some(l)) => {
                if l.segment == s && l.file == f {
                    assert(first == whole);
                }
            },
            _ => {},
        }
    }
}

/// The files are grouped by their segments, one group for each segment of which there
/// is a file, each file as often as it was loaded, in the order of their last blocks.
/// A file that could not be loaded fails the whole: the first such one is told.
pub proof fn lemma_static_files<H, E>(
    loaded: Vec<Result<Option<LoadedFile<H>>, E>>,
    r: Result<SortedStaticFiles<H>, E>,
)
    requires
        call_ensures(static_file::iter_static_files::<H, E>, (loaded,), r),
    ensures
        r is Err <==> exists|i: int| 0 <= i < loaded@.len() && (#[trigger] loaded@[i]) is Err,
        r matches Err(e) ==> exists|i: int|
            0 <= i < loaded@.len() && (#[trigger] loaded@[i]) == Err::<Option<LoadedFile<H>>, E>(e)
                && forall|j: int| 0 <= j < i ==> (#[trigger] loaded@[j]) is Ok,
        r matches Ok(sorted) ==> {
            let g = sorted.groups@;
            &&& forall|i: int, f: StaticFile<H>|
                0 <= i < g.len() ==> (#[trigger] g[i].files@.to_multiset().count(f))
                    == loaded@.to_multiset().count(as_loaded(g[i].segment, f))
            &&& forall|i: int, j: int|
                0 <= i < j < g.len() ==> (#[trigger] g[i]).segment != (#[trigger] g[j]).segment
            &&& forall|i: int| 0 <= i < g.len() ==> (#[trigger] g[i]).files@.len() > 0
            &&& forall|i: int, j: int, k: int|
                0 <= i < g.len() && 0 <= j < k < g[i].files@.len() ==> (
                #[trigger] g[i].files@[j]).block_range.end <= (
                #[trigger] g[i].files@[k]).block_range.end
            &&& forall|s: StaticFileSegment, f: StaticFile<H>|
                loaded@.to_multiset().count(#[trigger] as_loaded(s, f)) > 0 ==> exists|i: int|
                    0 <= i < g.len() && (#[trigger] g[i]).segment == s
        },
{
    if let Ok(sorted) = r {
        let g = sorted.groups@;
        assert forall|i: int, f: StaticFile<H>| 0 <= i < g.len() implies (
        #[trigger] g[i].files@.to_multiset().count(f)) == loaded@.to_multiset().count(
            as_loaded(g[i].segment, f),
        ) by {
            static_file::lemma_group_at(g, i);
            lemma_files_counted(loaded@, g[i].segment, f);
            assert(static_file::group_of(g, g[i].segment).to_multiset() == static_file::files_of(
                loaded@,
                g[i].segment,
            ));
        }
        assert forall|i: int, j: int, k: int|
            0 <= i < g.len() && 0 <= j < k < g[i].files@.len() implies (
        #[trigger] g[i].files@[j]).block_range.end <= (
        #[trigger] g[i].files@[k]).block_range.end by {
            assert(static_file::ends_ascend(g[i].files@));
        }
        assert forall|s: StaticFileSegment, f: StaticFile<H>|
            loaded@.to_multiset().count(#[trigger] as_loaded(s, f)) > 0 implies exists|i: int|
            0 <= i < g.len() && (#[trigger] g[i]).segment == s by {
            if forall|i: int| 0 <= i < g.len() ==> (#[trigger] g[i]).segment != s {
                static_file::lemma_no_group(g, s);
                lemma_files_counted(loaded@, s, f);
                assert(static_file::group_of(g, s).to_multiset() == static_file::files_of(
                    loaded@,
                    s,
                ));
                let none = Seq::<StaticFile<H>>::empty();
                none.to_multiset_ensures();
                assert(none.to_multiset().len() == 0);
                assert(none.to_multiset() =~= Multiset::empty());
            }
        }
    }
}

/// Files are loaded by as many threads as there are files, by one at least, and by 64
/// at most.
pub proof fn lemma_threads(files: usize, r: usize)
    requires
        call_ensures(static_file::load_threads, (files,), r),
    ensures
        1 <= r <= 64,
        1 <= files <= 64 ==> r == files,
        files == 0 ==> r == 1,
        files > 64 ==> r == 64,
{
}

} // verus!
