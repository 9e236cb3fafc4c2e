use std::collections::VecDeque;
use std::sync::{Arc, Mutex};

use chainvisor_state::chain::{
    acknowledged, Acknowledgement, BackfillAction, BackfillEvent, BackfillPendingError,
    BackfillSync, ChainEvent, ChainHandler, ChainOrchestrator, ControlFlow, FromOrchestrator,
    HandlerEvent, PipelineTarget, Polled, Turn,
};
use chainvisor_state::primitives::B256;

#[derive(Debug)]
struct RecordingHandler {
    events: Arc<Mutex<Vec<&'static str>>>,
    pending_results: VecDeque<Result<(), BackfillPendingError>>,
    polls: VecDeque<HandlerEvent<u32>>,
}

impl ChainHandler<()> for RecordingHandler {
    type Event = u32;

    fn on_event(&mut self, event: FromOrchestrator) -> Acknowledgement {
        match event {
            FromOrchestrator::BackfillSyncPending { .. } => {
                self.events.lock().unwrap().push("tree_pending_applied");
                self.pending_results.pop_front()
            }
            FromOrchestrator::BackfillSyncStarted => {
                self.events.lock().unwrap().push("tree_told_started");
                None
            }
            FromOrchestrator::BackfillSyncFinished(_) => {
                self.events.lock().unwrap().push("tree_told_finished");
                None
            }
            FromOrchestrator::Terminate { .. } => None,
        }
    }

    fn poll(&mut self, _cx: &mut ()) -> Polled<HandlerEvent<u32>> {
        match self.polls.pop_front() {
            Some(event) => Polled::Ready(event),
            None => Polled::Pending,
        }
    }
}

#[derive(Debug)]
struct RecordingBackfill {
    events: Arc<Mutex<Vec<&'static str>>>,
    polls: VecDeque<BackfillEvent>,
}

impl BackfillSync<()> for RecordingBackfill {
    fn on_action(&mut self, _action: BackfillAction) {
        self.events.lock().unwrap().push("pipeline_scheduled");
    }

    fn poll(&mut self, _cx: &mut ()) -> Polled<BackfillEvent> {
        match self.polls.pop_front() {
            Some(event) => Polled::Ready(event),
            None => Polled::Pending,
        }
    }
}

type Events = Arc<Mutex<Vec<&'static str>>>;

fn orchestrator(
    results: Vec<Result<(), BackfillPendingError>>,
    handler_polls: Vec<HandlerEvent<u32>>,
    backfill_polls: Vec<BackfillEvent>,
) -> (Events, ChainOrchestrator<RecordingHandler, RecordingBackfill>) {
    let events: Events = Arc::new(Mutex::new(Vec::new()));
    let handler = RecordingHandler {
        events: events.clone(),
        pending_results: results.into(),
        polls: handler_polls.into(),
    };
    let backfill = RecordingBackfill { events: events.clone(), polls: backfill_polls.into() };
    (events, ChainOrchestrator::new(handler, backfill))
}

#[test]
fn pending_acknowledgement_precedes_pipeline_scheduling() {
    let (events, mut orchestrator) = orchestrator(vec![Ok(())], vec![], vec![]);

    orchestrator.start_backfill_sync(PipelineTarget::Sync(B256::repeat_byte(0x11))).unwrap();

    assert_eq!(*events.lock().unwrap(), ["tree_pending_applied", "pipeline_scheduled"]);
}

#[test]
fn rejected_pending_handoff_never_schedules_pipeline() {
    let (events, mut orchestrator) = orchestrator(
        vec![Err(BackfillPendingError::PipelineBackfillDisabled)],
        vec![],
        vec![],
    );

    assert_eq!(
        orchestrator.start_backfill_sync(PipelineTarget::Sync(B256::repeat_byte(0x22))),
        Err(BackfillPendingError::PipelineBackfillDisabled)
    );
    assert_eq!(*events.lock().unwrap(), ["tree_pending_applied"]);
}

#[test]
fn duplicate_pending_handoff_schedules_only_once() {
    let (events, mut orchestrator) = orchestrator(
        vec![Ok(()), Err(BackfillPendingError::PipelineAlreadyPending)],
        vec![],
        vec![],
    );
    let target = PipelineTarget::Sync(B256::repeat_byte(0x33));

    orchestrator.start_backfill_sync(target).unwrap();
    assert_eq!(
        orchestrator.start_backfill_sync(target),
        Err(BackfillPendingError::PipelineAlreadyPending)
    );
    assert_eq!(
        *events.lock().unwrap(),
        ["tree_pending_applied", "pipeline_scheduled", "tree_pending_applied"]
    );
}

#[test]
fn a_handler_that_is_gone_acknowledges_nothing() {
    let (events, mut orchestrator) = orchestrator(vec![], vec![], vec![]);
    assert_eq!(
        orchestrator.start_backfill_sync(PipelineTarget::Unwind(3)),
        Err(BackfillPendingError::AcknowledgementChannelClosed)
    );
    assert_eq!(*events.lock().unwrap(), ["tree_pending_applied"]);
    assert_eq!(acknowledged(None), Err(BackfillPendingError::AcknowledgementChannelClosed));
    assert_eq!(acknowledged(Some(Ok(()))), Ok(()));
    assert_eq!(
        acknowledged(Some(Err(BackfillPendingError::PersistenceInProgress))),
        Err(BackfillPendingError::PersistenceInProgress)
    );
}

#[test]
fn reports_of_the_backfill_come_before_the_handler() {
    let target = PipelineTarget::Sync(B256::repeat_byte(0x44));
    let (events, mut orchestrator) = orchestrator(
        vec![],
        vec![HandlerEvent::Event(7), HandlerEvent::FatalError],
        vec![
            BackfillEvent::Started(target),
            BackfillEvent::Finished(Ok(ControlFlow::Continue { block_number: 9 })),
            BackfillEvent::Finished(Err("stage failed".to_string())),
            BackfillEvent::TaskDropped("gone".to_string()),
        ],
    );
    let mut cx = ();
    assert!(matches!(
        orchestrator.poll_turn(&mut cx),
        Turn::Ready(ChainEvent::BackfillSyncStarted)
    ));
    assert!(matches!(
        orchestrator.poll_turn(&mut cx),
        Turn::Ready(ChainEvent::BackfillSyncFinished)
    ));
    assert!(matches!(orchestrator.poll_turn(&mut cx), Turn::Ready(ChainEvent::FatalError)));
    assert!(matches!(orchestrator.poll_turn(&mut cx), Turn::Ready(ChainEvent::FatalError)));
    assert!(matches!(orchestrator.poll_turn(&mut cx), Turn::Ready(ChainEvent::Handler(7))));
    assert!(matches!(orchestrator.poll_turn(&mut cx), Turn::Ready(ChainEvent::FatalError)));
    assert!(matches!(orchestrator.poll_turn(&mut cx), Turn::Pending));
    assert_eq!(*events.lock().unwrap(), ["tree_told_started", "tree_told_finished"]);
}

#[test]
fn an_action_of_the_handler_is_handed_off_before_another_turn() {
    let action = BackfillAction::Start(PipelineTarget::Sync(B256::repeat_byte(0x55)));
    let (events, mut orchestrator) = orchestrator(
        vec![Ok(()), Err(BackfillPendingError::PipelineAlreadyActive)],
        vec![HandlerEvent::BackfillAction(action), HandlerEvent::BackfillAction(action)],
        vec![],
    );
    let mut cx = ();
    assert!(matches!(orchestrator.poll_turn(&mut cx), Turn::Again));
    assert!(matches!(orchestrator.poll_turn(&mut cx), Turn::Ready(ChainEvent::FatalError)));
    assert_eq!(
        *events.lock().unwrap(),
        ["tree_pending_applied", "pipeline_scheduled", "tree_pending_applied"]
    );
    assert!(orchestrator.handler().polls.is_empty());
    orchestrator.handler_mut().polls.push_back(HandlerEvent::Event(1));
    assert!(matches!(orchestrator.poll_turn(&mut cx), Turn::Ready(ChainEvent::Handler(1))));
}

#[test]
fn events_and_errors_are_written_out() {
    assert_eq!(ChainEvent::Handler(3u32).text("three"), "Handler(three)");
    assert_eq!(ChainEvent::<u32>::FatalError.text(""), "FatalError");
    assert_eq!(ChainEvent::<u32>::BackfillSyncStarted.text(""), "BackfillSyncStarted");
    assert_eq!(ChainEvent::<u32>::BackfillSyncFinished.text(""), "BackfillSyncFinished");
    assert_eq!(
        BackfillPendingError::AcknowledgementChannelClosed.message(),
        "tree closed the backfill-pending acknowledgement channel"
    );
    assert_eq!(
        BackfillPendingError::PipelineBackfillDisabled.message(),
        "pipeline backfill is disabled"
    );
    assert_eq!(
        BackfillPendingError::PipelineAlreadyActive.message(),
        "pipeline backfill is already active"
    );
    assert_eq!(
        BackfillPendingError::PipelineAlreadyPending.message(),
        "pipeline backfill is already pending"
    );
    assert_eq!(
        BackfillPendingError::PendingReservationMismatch.message(),
        "pipeline backfill pending reservation belongs to a different action"
    );
    assert_eq!(
        BackfillPendingError::PersistenceInProgress.message(),
        "Engine persistence is in progress"
    );
}
