//! The orchestrator of the chain: it hands the database from the engine tree
//! to the pipeline and back, and never lets the pipeline start before the tree
//! has acknowledged the handoff.

use vstd::prelude::*;

use crate::error::AdvancePersistenceError;
use crate::primitives::{BlockNumHash, B256};

verus! {

/// Why the tree did not take the state in which a pipeline may start.
#[derive(Clone, Copy, Debug, PartialEq, Eq, Structural)]
pub enum BackfillPendingError {
    /// The tree's acknowledgement channel closed before the state changed.
    AcknowledgementChannelClosed,
    /// Pipeline backfill is disabled by the tree's configuration.
    PipelineBackfillDisabled,
    /// A second pipeline run was requested while one was active.
    PipelineAlreadyActive,
    /// A pipeline start was acknowledged but has not been reported yet.
    PipelineAlreadyPending,
    /// The tree has reserved the pipeline for a different action.
    PendingReservationMismatch,
    /// Engine persistence owns the database.
    PersistenceInProgress,
}

impl BackfillPendingError {
    /// What is said of the error.
    pub open spec fn text(self) -> Seq<char> {
        match self {
            BackfillPendingError::AcknowledgementChannelClosed =>
                "tree closed the backfill-pending acknowledgement channel"@,
            BackfillPendingError::PipelineBackfillDisabled => "pipeline backfill is disabled"@,
            BackfillPendingError::PipelineAlreadyActive => "pipeline backfill is already active"@,
            BackfillPendingError::PipelineAlreadyPending => "pipeline backfill is already pending"@,
            BackfillPendingError::PendingReservationMismatch =>
                "pipeline backfill pending reservation belongs to a different action"@,
            BackfillPendingError::PersistenceInProgress => "Engine persistence is in progress"@,
        }
    }

    /// What is said of the error.
    pub fn message(&self) -> (r: &'static str)
        ensures
            r@ == self.text(),
    {
        match self {
            BackfillPendingError::AcknowledgementChannelClosed =>
                "tree closed the backfill-pending acknowledgement channel",
            BackfillPendingError::PipelineBackfillDisabled => "pipeline backfill is disabled",
            BackfillPendingError::PipelineAlreadyActive => "pipeline backfill is already active",
            BackfillPendingError::PipelineAlreadyPending => "pipeline backfill is already pending",
            BackfillPendingError::PendingReservationMismatch =>
                "pipeline backfill pending reservation belongs to a different action",
            BackfillPendingError::PersistenceInProgress => "Engine persistence is in progress",
        }
    }
}

/// What a pipeline runs to.
#[derive(Clone, Copy, Debug, PartialEq, Eq, Structural)]
pub enum PipelineTarget {
    /// Forward, to the block of this hash.
    Sync(B256),
    /// Back, to the block of this number.
    Unwind(u64),
}

/// What the backfill is to do.
#[derive(Clone, Copy, Debug, PartialEq, Eq, Structural)]
pub enum BackfillAction {
    /// Start a run.
    Start(PipelineTarget),
}

/// How a pipeline run ended.
#[derive(Clone, Copy, Debug, PartialEq, Eq, Structural)]
pub enum ControlFlow {
    /// The run has to go back.
    Unwind { target: u64, bad_block: BlockNumHash },
    /// The run came to this block.
    Continue { block_number: u64 },
    /// Nothing was left to do.
    NoProgress { block_number: Option<u64> },
}

/// What the backfill reports.
#[derive(Debug)]
pub enum BackfillEvent {
    /// A run started.
    Started(PipelineTarget),
    /// A run ended, or failed.
    Finished(Result<ControlFlow, String>),
    /// The task of a run is gone.
    TaskDropped(String),
}

/// What the handler asks of the orchestrator.
#[derive(Clone, Debug)]
pub enum HandlerEvent<T> {
    /// To start a backfill.
    BackfillAction(BackfillAction),
    /// To pass this event on.
    Event(T),
    /// Nothing: a fatal error.
    FatalError,
}

/// tokio's sender, over which the outcome of a termination comes.
#[verifier::external_type_specification]
#[verifier::external_body]
#[verifier::reject_recursive_types(T)]
pub struct ExOutcomeSender<T>(tokio::sync::oneshot::Sender<T>);

/// What the orchestrator tells the handler.
#[derive(Debug)]
pub enum FromOrchestrator {
    /// The pipeline is to own the database before this action is scheduled.
    BackfillSyncPending { action: BackfillAction },
    /// A backfill ended.
    BackfillSyncFinished(ControlFlow),
    /// A backfill started.
    BackfillSyncStarted,
    /// The engine is to persist what is in memory and end. The outcome goes
    /// over `tx`.
    Terminate { tx: tokio::sync::oneshot::Sender<Result<(), AdvancePersistenceError>> },
}

/// What the orchestrator reports.
#[derive(Debug)]
pub enum ChainEvent<T> {
    /// A backfill started.
    BackfillSyncStarted,
    /// A backfill ended.
    BackfillSyncFinished,
    /// A fatal error.
    FatalError,
    /// An event of the handler.
    Handler(T),
}

impl<T> ChainEvent<T> {
    /// How the event is written; `said` is how the handler's event is.
    pub fn text(&self, said: &str) -> (r: String)
        ensures
            r@ == (match *self {
                ChainEvent::BackfillSyncStarted => "BackfillSyncStarted"@,
                ChainEvent::BackfillSyncFinished => "BackfillSyncFinished"@,
                ChainEvent::FatalError => "FatalError"@,
                ChainEvent::Handler(_) => "Handler("@ + said@ + ")"@,
            }),
    {
        match self {
            ChainEvent::BackfillSyncStarted => "BackfillSyncStarted".to_owned(),
            ChainEvent::BackfillSyncFinished => "BackfillSyncFinished".to_owned(),
            ChainEvent::FatalError => "FatalError".to_owned(),
            ChainEvent::Handler(_) => {
                let mut s: String = "Handler(".to_owned();
                s.append(said);
                s.append(")");
                s
            },
        }
    }
}

/// What a component has when it is polled.
#[derive(Debug)]
pub enum Polled<T> {
    /// This.
    Ready(T),
    /// Nothing yet.
    Pending,
}

/// The answer of a handler to what it is told: for a pending backfill whether
/// the handoff is acknowledged, nothing where the handler is gone.
pub type Acknowledgement = Option<Result<(), BackfillPendingError>>;

/// What advances the chain. `C` is what a component is polled with.
pub trait ChainHandler<C> {
    /// The events of this handler that the orchestrator passes on.
    type Event;

    /// What the handler was told, with its answers. A verified handler says
    /// what that is; one that is not verified has nothing to say.
    closed spec fn heard(&self) -> Seq<(FromOrchestrator, Acknowledgement)> {
        arbitrary()
    }

    /// What the handler had, each time it was polled.
    closed spec fn requests(&self) -> Seq<Polled<HandlerEvent<Self::Event>>> {
        arbitrary()
    }

    /// Tells the handler something. A pending backfill is answered at once.
    fn on_event(&mut self, event: FromOrchestrator) -> (r: Acknowledgement)
        ensures
            final(self).heard() == old(self).heard().push((event, r)),
            final(self).requests() == old(self).requests(),
    ;

    /// Polls for something to do.
    fn poll(&mut self, cx: &mut C) -> (r: Polled<HandlerEvent<Self::Event>>)
        ensures
            final(self).heard() == old(self).heard(),
            final(self).requests() == old(self).requests().push(r),
    ;
}

/// What runs the pipeline. `C` is what a component is polled with.
pub trait BackfillSync<C> {
    /// The actions that were scheduled. A verified pipeline says what they are;
    /// one that is not verified has nothing to say.
    closed spec fn scheduled(&self) -> Seq<BackfillAction> {
        arbitrary()
    }

    /// What the pipeline had, each time it was polled.
    closed spec fn reports(&self) -> Seq<Polled<BackfillEvent>> {
        arbitrary()
    }

    /// Schedules an action.
    fn on_action(&mut self, action: BackfillAction)
        ensures
            final(self).scheduled() == old(self).scheduled().push(action),
            final(self).reports() == old(self).reports(),
    ;

    /// Polls for what the backfill reports.
    fn poll(&mut self, cx: &mut C) -> (r: Polled<BackfillEvent>)
        ensures
            final(self).scheduled() == old(self).scheduled(),
            final(self).reports() == old(self).reports().push(r),
    ;
}

/// The handoff that an acknowledgement stands for.
pub open spec fn handoff(ack: Acknowledgement) -> Result<(), BackfillPendingError> {
    match ack {
        Some(r) => r,
        None => Err(BackfillPendingError::AcknowledgementChannelClosed),
    }
}

/// The handoff that an acknowledgement stands for.
pub fn acknowledged(ack: Acknowledgement) -> (r: Result<(), BackfillPendingError>)
    ensures
        r == handoff(ack),
{
    match ack {
        Some(r) => r,
        None => Err(BackfillPendingError::AcknowledgementChannelClosed),
    }
}

/// One turn of the orchestrator.
#[derive(Debug)]
pub enum Turn<T> {
    /// This is reported.
    Ready(ChainEvent<T>),
    /// Another turn is due.
    Again,
    /// Nothing is left to do.
    Pending,
}

/// Drives the chain forward: polls the backfill while one is active, and else
/// the handler.
#[derive(Debug)]
pub struct ChainOrchestrator<T, P> {
    handler: T,
    backfill_sync: P,
}

/// What the handler is told of a report of the backfill.
pub open spec fn told(event: BackfillEvent) -> Option<FromOrchestrator> {
    match event {
        BackfillEvent::Started(_) => Some(FromOrchestrator::BackfillSyncStarted),
        BackfillEvent::Finished(Ok(ctrl)) => Some(FromOrchestrator::BackfillSyncFinished(ctrl)),
        _ => None,
    }
}

/// What is reported of a report of the backfill.
pub open spec fn reported<E>(event: BackfillEvent) -> ChainEvent<E> {
    match event {
        BackfillEvent::Started(_) => ChainEvent::BackfillSyncStarted,
        BackfillEvent::Finished(Ok(_)) => ChainEvent::BackfillSyncFinished,
        _ => ChainEvent::FatalError,
    }
}

/// The handler was told `event` and answered `ack`.
pub open spec fn hears(
    before: Seq<(FromOrchestrator, Acknowledgement)>,
    event: FromOrchestrator,
    ack: Acknowledgement,
    after: Seq<(FromOrchestrator, Acknowledgement)>,
) -> bool {
    after == before.push((event, ack))
}

/// What the handler has heard once it was told `event`, if anything.
pub open spec fn heard_also(
    before: Seq<(FromOrchestrator, Acknowledgement)>,
    event: Option<FromOrchestrator>,
    after: Seq<(FromOrchestrator, Acknowledgement)>,
) -> bool {
    match event {
        Some(e) => exists|ack: Acknowledgement| #[trigger] hears(before, e, ack, after),
        None => after == before,
    }
}

/// The handler was told of a pending action, and the action was scheduled
/// exactly if the handler acknowledged it.
pub open spec fn handed_off(
    heard_before: Seq<(FromOrchestrator, Acknowledgement)>,
    scheduled_before: Seq<BackfillAction>,
    action: BackfillAction,
    r: Result<(), BackfillPendingError>,
    heard_after: Seq<(FromOrchestrator, Acknowledgement)>,
    scheduled_after: Seq<BackfillAction>,
) -> bool {
    exists|ack: Acknowledgement|
        {
            &&& #[trigger] hears(
                heard_before,
                FromOrchestrator::BackfillSyncPending { action },
                ack,
                heard_after,
            )
            &&& r == handoff(ack)
            &&& scheduled_after == (if r is Ok {
                scheduled_before.push(action)
            } else {
                scheduled_before
            })
        }
}

/// What a turn comes to, when the backfill has `b` and, if that is nothing,
/// the handler has `h`.
pub open spec fn turned<E>(
    heard_before: Seq<(FromOrchestrator, Acknowledgement)>,
    scheduled_before: Seq<BackfillAction>,
    b: Polled<BackfillEvent>,
    h: Polled<HandlerEvent<E>>,
    turn: Turn<E>,
    heard_after: Seq<(FromOrchestrator, Acknowledgement)>,
    scheduled_after: Seq<BackfillAction>,
) -> bool {
    match b {
        Polled::Ready(event) => {
            &&& heard_also(heard_before, told(event), heard_after)
            &&& scheduled_after == scheduled_before
            &&& turn == Turn::Ready(reported::<E>(event))
        },
        Polled::Pending => match h {
            Polled::Ready(HandlerEvent::BackfillAction(action)) => {
                exists|r: Result<(), BackfillPendingError>|
                    {
                        &&& #[trigger] handed_off(
                            heard_before,
                            scheduled_before,
                            action,
                            r,
                            heard_after,
                            scheduled_after,
                        )
                        &&& turn == (if r is Ok {
                            Turn::<E>::Again
                        } else {
                            Turn::Ready(ChainEvent::<E>::FatalError)
                        })
                    }
            },
            Polled::Ready(HandlerEvent::Event(e)) => {
                &&& heard_after == heard_before
                &&& scheduled_after == scheduled_before
                &&& turn == Turn::Ready(ChainEvent::Handler(e))
            },
            Polled::Ready(HandlerEvent::FatalError) => {
                &&& heard_after == heard_before
                &&& scheduled_after == scheduled_before
                &&& turn == Turn::Ready(ChainEvent::<E>::FatalError)
            },
            Polled::Pending => {
                &&& heard_after == heard_before
                &&& scheduled_after == scheduled_before
                &&& turn == Turn::<E>::Pending
            },
        },
    }
}

impl<T, P> ChainOrchestrator<T, P> {
    /// The handler.
    pub closed spec fn the_handler(self) -> T {
        self.handler
    }

    /// The backfill.
    pub closed spec fn the_backfill(self) -> P {
        self.backfill_sync
    }

    /// An orchestrator of these two.
    pub fn new(handler: T, backfill_sync: P) -> (r: Self)
        ensures
            r.the_handler() == handler,
            r.the_backfill() == backfill_sync,
    {
        ChainOrchestrator { handler, backfill_sync }
    }

    /// The handler.
    pub fn handler(&self) -> (r: &T)
        ensures
            *r == self.the_handler(),
    {
        &self.handler
    }

    /// The handler, to be changed.
    pub fn handler_mut(&mut self) -> (r: &mut T)
        ensures
            *r == old(self).the_handler(),
            final(self).the_handler() == *final(r),
            final(self).the_backfill() == old(self).the_backfill(),
    {
        &mut self.handler
    }

    /// Tells the handler that the pipeline is to own the database, and takes
    /// its acknowledgement: from then on the tree lets engine persistence
    /// write no more.
    fn mark_backfill_pending<C>(&mut self, action: BackfillAction) -> (r: Result<
        (),
        BackfillPendingError,
    >) where T: ChainHandler<C>
        ensures
            final(self).the_backfill() == old(self).the_backfill(),
            final(self).the_handler().requests() == old(self).the_handler().requests(),
            exists|ack: Acknowledgement|
                {
                    &&& #[trigger] hears(
                        old(self).the_handler().heard(),
                        FromOrchestrator::BackfillSyncPending { action },
                        ack,
                        final(self).the_handler().heard(),
                    )
                    &&& r == handoff(ack)
                },
    {
        let ack = self.handler.on_event(FromOrchestrator::BackfillSyncPending { action });
        assert(hears(
            old(self).the_handler().heard(),
            FromOrchestrator::BackfillSyncPending { action },
            ack,
            self.the_handler().heard(),
        ));
        acknowledged(ack)
    }

    fn start<C>(&mut self, action: BackfillAction) -> (r: Result<
        (),
        BackfillPendingError,
    >) where T: ChainHandler<C>, P: BackfillSync<C>
        ensures
            handed_off(
                old(self).the_handler().heard(),
                old(self).the_backfill().scheduled(),
                action,
                r,
                final(self).the_handler().heard(),
                final(self).the_backfill().scheduled(),
            ),
            final(self).the_handler().requests() == old(self).the_handler().requests(),
            final(self).the_backfill().reports() == old(self).the_backfill().reports(),
    {
        let r = self.mark_backfill_pending(action);
        let ghost told = FromOrchestrator::BackfillSyncPending { action };
        let ghost ack = choose|ack: Acknowledgement|
            {
                &&& #[trigger] hears(
                    old(self).the_handler().heard(),
                    told,
                    ack,
                    self.the_handler().heard(),
                )
                &&& r == handoff(ack)
            };
        if r.is_ok() {
            self.backfill_sync.on_action(action);
        }
        assert(hears(old(self).the_handler().heard(), told, ack, self.the_handler().heard()));
        r
    }

    /// Starts a backfill to this target, once the handler has acknowledged
    /// that the pipeline owns the database.
    pub fn start_backfill_sync<C>(&mut self, target: PipelineTarget) -> (r: Result<
        (),
        BackfillPendingError,
    >) where T: ChainHandler<C>, P: BackfillSync<C>
        ensures
            handed_off(
                old(self).the_handler().heard(),
                old(self).the_backfill().scheduled(),
                BackfillAction::Start(target),
                r,
                final(self).the_handler().heard(),
                final(self).the_backfill().scheduled(),
            ),
            final(self).the_handler().requests() == old(self).the_handler().requests(),
            final(self).the_backfill().reports() == old(self).the_backfill().reports(),
    {
        self.start(BackfillAction::Start(target))
    }

    /// The backfill has reported something.
    pub fn on_backfill_event<C>(&mut self, event: BackfillEvent) -> (r: ChainEvent<
        T::Event,
    >) where T: ChainHandler<C>
        ensures
            heard_also(
                old(self).the_handler().heard(),
                told(event),
                final(self).the_handler().heard(),
            ),
            final(self).the_handler().requests() == old(self).the_handler().requests(),
            final(self).the_backfill() == old(self).the_backfill(),
            r == reported::<T::Event>(event),
    {
        match event {
            BackfillEvent::Started(_) => {
                let ack = self.handler.on_event(FromOrchestrator::BackfillSyncStarted);
                assert(hears(
                    old(self).the_handler().heard(),
                    FromOrchestrator::BackfillSyncStarted,
                    ack,
                    self.the_handler().heard(),
                ));
                ChainEvent::BackfillSyncStarted
            },
            BackfillEvent::Finished(Ok(ctrl)) => {
                let ack = self.handler.on_event(FromOrchestrator::BackfillSyncFinished(ctrl));
                assert(hears(
                    old(self).the_handler().heard(),
                    FromOrchestrator::BackfillSyncFinished(ctrl),
                    ack,
                    self.the_handler().heard(),
                ));
                ChainEvent::BackfillSyncFinished
            },
            _ => ChainEvent::FatalError,
        }
    }

    /// The handler has asked for something: the next turn.
    pub fn on_handler_event<C>(&mut self, event: HandlerEvent<T::Event>) -> (r: Turn<
        T::Event,
    >) where T: ChainHandler<C>, P: BackfillSync<C>
        ensures
            turned::<T::Event>(
                old(self).the_handler().heard(),
                old(self).the_backfill().scheduled(),
                Polled::Pending,
                Polled::Ready(event),
                r,
                final(self).the_handler().heard(),
                final(self).the_backfill().scheduled(),
            ),
            final(self).the_handler().requests() == old(self).the_handler().requests(),
            final(self).the_backfill().reports() == old(self).the_backfill().reports(),
    {
        match event {
            HandlerEvent::BackfillAction(action) => match self.start(action) {
                Ok(_) => Turn::Again,
                Err(_) => Turn::Ready(ChainEvent::FatalError),
            },
            HandlerEvent::Event(e) => Turn::Ready(ChainEvent::Handler(e)),
            HandlerEvent::FatalError => Turn::Ready(ChainEvent::FatalError),
        }
    }

    /// One turn: the backfill is polled, and then, when it has nothing, the
    /// handler.
    pub fn poll_turn<C>(&mut self, cx: &mut C) -> (r: Turn<T::Event>) where
        T: ChainHandler<C>,
        P: BackfillSync<C>,

        ensures
            exists|b: Polled<BackfillEvent>, h: Polled<HandlerEvent<T::Event>>|
                {
                    &&& #[trigger] turned::<T::Event>(
                        old(self).the_handler().heard(),
                        old(self).the_backfill().scheduled(),
                        b,
                        h,
                        r,
                        final(self).the_handler().heard(),
                        final(self).the_backfill().scheduled(),
                    )
                    &&& final(self).the_backfill().reports() == old(
                        self,
                    ).the_backfill().reports().push(b)
                    &&& final(self).the_handler().requests() == (match b {
                        Polled::Ready(_) => old(self).the_handler().requests(),
                        Polled::Pending => old(self).the_handler().requests().push(h),
                    })
                },
    {
        let b = self.backfill_sync.poll(cx);
        let ghost polled = b;
        let ghost nothing = Polled::<HandlerEvent<T::Event>>::Pending;
        match b {
            Polled::Ready(event) => {
                let reported = self.on_backfill_event(event);
                let r = Turn::Ready(reported);
                proof {
                    assert(turned::<T::Event>(
                        old(self).the_handler().heard(),
                        old(self).the_backfill().scheduled(),
                        polled,
                        nothing,
                        r,
                        self.the_handler().heard(),
                        self.the_backfill().scheduled(),
                    ));
                }
                r
            },
            Polled::Pending => match self.handler.poll(cx) {
                Polled::Ready(event) => {
                    let ghost asked = Polled::Ready(event);
                    let r = self.on_handler_event(event);
                    proof {
                        assert(turned::<T::Event>(
                            old(self).the_handler().heard(),
                            old(self).the_backfill().scheduled(),
                            polled,
                            asked,
                            r,
                            self.the_handler().heard(),
                            self.the_backfill().scheduled(),
                        ));
                    }
                    r
                },
                Polled::Pending => {
                    let r = Turn::Pending;
                    proof {
                        assert(turned::<T::Event>(
                            old(self).the_handler().heard(),
                            old(self).the_backfill().scheduled(),
                            polled,
                            nothing,
                            r,
                            self.the_handler().heard(),
                            self.the_backfill().scheduled(),
                        ));
                    }
                    r
                },
            },
        }
    }
}

/// Every action was scheduled on its own acknowledgement: the acknowledged
/// pending actions that the handler has heard of are the scheduled actions, in
/// the same order.
pub open spec fn granted(heard: Seq<(FromOrchestrator, Acknowledgement)>) -> Seq<BackfillAction>
    decreases heard.len(),
{
    if heard.len() == 0 {
        Seq::empty()
    } else {
        let earlier = granted(heard.drop_last());
        match heard.last() {
            (FromOrchestrator::BackfillSyncPending { action }, Some(Ok(_))) => earlier.push(action),
            _ => earlier,
        }
    }
}

/// No pipeline is scheduled without an acknowledged handoff, and none twice
/// for one: whatever is asked for, scheduled actions and acknowledged handoffs
/// stay the same.
pub proof fn lemma_scheduled_on_acknowledgement(
    heard_before: Seq<(FromOrchestrator, Acknowledgement)>,
    scheduled_before: Seq<BackfillAction>,
    action: BackfillAction,
    r: Result<(), BackfillPendingError>,
    heard_after: Seq<(FromOrchestrator, Acknowledgement)>,
    scheduled_after: Seq<BackfillAction>,
)
    requires
        granted(heard_before) == scheduled_before,
        handed_off(
            heard_before,
            scheduled_before,
            action,
            r,
            heard_after,
            scheduled_after,
        ),
    ensures
        granted(heard_after) == scheduled_after,
{
    let ack = choose|ack: Acknowledgement|
        {
            &&& #[trigger] hears(
                heard_before,
                FromOrchestrator::BackfillSyncPending { action },
                ack,
                heard_after,
            )
            &&& r == handoff(ack)
            &&& scheduled_after == (if r is Ok {
                scheduled_before.push(action)
            } else {
                scheduled_before
            })
        };
    assert(heard_after.drop_last() =~= heard_before);
}

/// The same of every turn of the orchestrator.
pub proof fn lemma_turns_schedule_on_acknowledgement<E>(
    heard_before: Seq<(FromOrchestrator, Acknowledgement)>,
    scheduled_before: Seq<BackfillAction>,
    b: Polled<BackfillEvent>,
    h: Polled<HandlerEvent<E>>,
    turn: Turn<E>,
    heard_after: Seq<(FromOrchestrator, Acknowledgement)>,
    scheduled_after: Seq<BackfillAction>,
)
    requires
        granted(heard_before) == scheduled_before,
        turned(heard_before, scheduled_before, b, h, turn, heard_after, scheduled_after),
    ensures
        granted(heard_after) == scheduled_after,
{
    match b {
        Polled::Ready(event) => {
            if let Some(e) = told(event) {
                let ack = choose|ack: Acknowledgement|
#[trigger] hears(heard_before, e, ack, heard_after);
                assert(heard_after.drop_last() =~= heard_before);
            }
        },
        Polled::Pending => {
            if let Polled::Ready(HandlerEvent::BackfillAction(action)) = h {
                let r = choose|r: Result<(), BackfillPendingError>| #[trigger]
                    handed_off(
                        heard_before,
                        scheduled_before,
                        action,
                        r,
                        heard_after,
                        scheduled_after,
                    ) && turn == (if r is Ok {
                        Turn::<E>::Again
                    } else {
                        Turn::Ready(ChainEvent::<E>::FatalError)
                    });
                lemma_scheduled_on_acknowledgement(
                    heard_before,
                    scheduled_before,
                    action,
                    r,
                    heard_after,
                    scheduled_after,
                );
            }
        },
    }
}

} // verus!
