//! The persistence service: it writes executed blocks behind the fence, one
//! request at a time, and stops with the first request that fails.
//!
//! The service decides which call of the store comes next; the calls
//! themselves are made by whoever runs it.

use vstd::prelude::*;

use crate::persistence_fence;
use crate::persistence_fence::{
    PersistenceCheckpointSnapshot, PersistenceFenceError, PersistenceOwnerCheckpoint, StageId,
    StoreView,
};
use crate::primitives::{BlockNumHash, B256};

verus! {

/// A block that was executed, with what executing it gave.
#[derive(Clone, Debug)]
pub struct ExecutedBlock<B> {
    pub number: u64,
    pub hash: B256,
    pub parent_hash: B256,
    pub body: B,
}

impl<B> ExecutedBlock<B> {
    /// The block's number and hash.
    pub open spec fn identity(self) -> BlockNumHash {
        BlockNumHash { number: self.number, hash: self.hash }
    }

    /// The block's number and hash.
    pub fn num_hash(&self) -> (r: BlockNumHash)
        ensures
            r == self.identity(),
    {
        BlockNumHash { number: self.number, hash: self.hash }
    }
}

/// A block and the parent that it names.
#[derive(Clone, Copy, Debug, PartialEq, Eq, Structural)]
pub struct Link {
    pub block: BlockNumHash,
    pub parent: B256,
}

/// The links of these blocks.
pub open spec fn links_of<B>(blocks: Seq<ExecutedBlock<B>>) -> Seq<Link> {
    blocks.map_values(
        |b: ExecutedBlock<B>| Link { block: b.identity(), parent: b.parent_hash },
    )
}

/// One of the errors of the persistence service. Errors of the store and of
/// the pruner are kept as what they say.
#[derive(Debug)]
pub enum PersistenceError {
    /// Engine persistence attempted to overlap a range that the pipeline owns.
    Fence(PersistenceFenceError),
    /// A pruner error.
    PrunerError(String),
    /// A provider error.
    ProviderError(String),
}

impl PersistenceError {
    /// What is said of the error.
    pub fn message(&self) -> (r: String)
        ensures
            r@ == (match *self {
                PersistenceError::Fence(e) => persistence_fence::fence_message_of(e),
                PersistenceError::PrunerError(m) => m@,
                PersistenceError::ProviderError(m) => m@,
            }),
    {
        match self {
            PersistenceError::Fence(e) => e.message(),
            PersistenceError::PrunerError(m) => m.clone(),
            PersistenceError::ProviderError(m) => m.clone(),
        }
    }
}

/// The result of any persistence operation.
#[derive(Debug)]
pub struct PersistenceResult {
    /// The last block that was persisted, if any.
    pub last_block: Option<BlockNumHash>,
    /// How long it took, only for saved blocks.
    pub commit_duration: Option<std::time::Duration>,
}

/// What is sent back for every request.
pub type PersistenceActionResult = Result<PersistenceResult, PersistenceError>;

// ------------------------------------------------------------------ service

/// A call of the store.
#[derive(Clone, Copy, Debug, PartialEq, Eq, Structural)]
pub enum StoreCall {
    /// Open a transaction and read its checkpoints.
    ReadCheckpoints,
    /// Write the batch.
    SaveBlocks,
    /// Write the finalized block's number.
    SaveFinalized(u64),
    /// Write the safe block's number.
    SaveSafe(u64),
    /// Commit what was written.
    Commit,
    /// Ask whether pruning is due at this block.
    PruneNeeded(u64),
    /// Open another transaction, which sees what was committed, and prune.
    Prune(u64),
    /// Commit what was pruned.
    CommitPrune,
    /// Open a transaction and read the hash of this block.
    BlockHash(u64),
    /// Remove the blocks above this one.
    RemoveAbove(u64),
    /// Commit what was removed.
    CommitRemoval,
}

/// What the store answers.
#[derive(Debug)]
pub enum StoreReply {
    /// The checkpoints.
    Checkpoints(StoreView),
    /// The call was carried out.
    Done,
    /// Whether pruning is due.
    Needed(bool),
    /// The hash, if the block is there.
    Hash(Option<B256>),
    /// The call failed.
    ProviderFailed(String),
    /// The pruner failed.
    PrunerFailed(String),
}

/// What is to be done next.
#[derive(Debug)]
pub enum ServiceStep {
    /// Make this call and hand the reply back.
    Call(StoreCall),
    /// Send this result back, then report the height that the store is synced
    /// to, if there is one. `saved` says whether the request was to save
    /// blocks. The service stops after an error.
    Answer {
        result: Result<Option<BlockNumHash>, PersistenceError>,
        sync_height: Option<u64>,
        saved: bool,
    },
}

/// How far a batch has come.
#[derive(Clone, Copy, Debug, PartialEq, Eq, Structural)]
pub enum SavePhase {
    Reading,
    Blocks,
    Finalized,
    Safe,
    Committing,
    AskingPruner,
    Pruning,
    CommittingPrune,
}

/// What the service is doing.
#[derive(Debug)]
pub enum Job {
    /// Waiting for a request.
    Idle,
    /// Saving blocks, of which there is one.
    Saving {
        links: Vec<Link>,
        expected: BlockNumHash,
        finalized: Option<u64>,
        safe: Option<u64>,
        phase: SavePhase,
    },
    /// Reading the hash of the block above which all are removed.
    ReadingTip { tip: u64 },
    /// Removing the blocks above it.
    Removing { tip: u64, hash: Option<B256> },
    /// Committing that.
    CommittingRemoval { tip: u64, hash: Option<B256> },
    /// Nothing any more: a request failed.
    Stopped,
}

/// What the service is doing.
pub enum JobView {
    Idle,
    Saving {
        links: Seq<Link>,
        expected: BlockNumHash,
        finalized: Option<u64>,
        safe: Option<u64>,
        phase: SavePhase,
    },
    ReadingTip { tip: u64 },
    Removing { tip: u64, hash: Option<B256> },
    CommittingRemoval { tip: u64, hash: Option<B256> },
    Stopped,
}

impl View for Job {
    type V = JobView;

    open spec fn view(&self) -> JobView {
        match *self {
            Job::Idle => JobView::Idle,
            Job::Saving { links, expected, finalized, safe, phase } => JobView::Saving {
                links: links@,
                expected,
                finalized,
                safe,
                phase,
            },
            Job::ReadingTip { tip } => JobView::ReadingTip { tip },
            Job::Removing { tip, hash } => JobView::Removing { tip, hash },
            Job::CommittingRemoval { tip, hash } => JobView::CommittingRemoval { tip, hash },
            Job::Stopped => JobView::Stopped,
        }
    }
}

/// The persistence service.
#[derive(Debug)]
pub struct PersistenceService {
    /// The finalized block's number, to be written with the next batch.
    pub pending_finalized_block: Option<u64>,
    /// The safe block's number, to be written with the next batch.
    pub pending_safe_block: Option<u64>,
    /// What the service is doing.
    pub job: Job,
}

/// The persistence service.
pub struct ServiceView {
    pub pending_finalized: Option<u64>,
    pub pending_safe: Option<u64>,
    pub job: JobView,
}

impl View for PersistenceService {
    type V = ServiceView;

    open spec fn view(&self) -> ServiceView {
        ServiceView {
            pending_finalized: self.pending_finalized_block,
            pending_safe: self.pending_safe_block,
            job: self.job@,
        }
    }
}

/// The first block of a batch that does not extend its predecessor, as an
/// error.
pub open spec fn later_fault(links: Seq<Link>) -> Option<PersistenceFenceError>
    decreases links.len(),
{
    if links.len() <= 1 {
        None
    } else {
        match later_fault(links.drop_last()) {
            Some(e) => Some(e),
            None => persistence_fence::next_fault(
                links[links.len() - 2].block,
                links.last().block,
                links.last().parent,
            ),
        }
    }
}

/// What is wrong with a batch, after the durable block `finish`.
pub open spec fn batch_fault(finish: BlockNumHash, links: Seq<Link>) -> Option<
    PersistenceFenceError,
> {
    match persistence_fence::first_fault(finish, links[0].block, links[0].parent) {
        Some(e) => Some(e),
        None => later_fault(links),
    }
}

/// What the fence says of a batch, in a store that shows `view`.
pub open spec fn admission(
    view: StoreView,
    expected: BlockNumHash,
    links: Seq<Link>,
) -> Option<PersistenceFenceError> {
    let finish = persistence_fence::checkpoint_of(view.checkpoints@, StageId::Finish);
    match persistence_fence::verdict(
        finish,
        match finish {
            Some(n) => persistence_fence::hash_of(view.canonical@, n),
            None => None,
        },
        persistence_fence::owners_in(
            view,
            persistence_fence::engine_persistence_owner_stages(),
        ),
        expected,
    ) {
        Err(e) => Some(e),
        Ok(f) => batch_fault(f, links),
    }
}

/// The smaller of two numbers.
pub open spec fn lesser(a: u64, b: u64) -> u64 {
    if a <= b {
        a
    } else {
        b
    }
}

/// The answer to a request that failed: the service stops.
pub open spec fn failed(s: ServiceView, e: PersistenceError) -> (ServiceView, ServiceStep) {
    (
        ServiceView { job: JobView::Stopped, ..s },
        ServiceStep::Answer { result: Err(e), sync_height: None, saved: s.job is Saving },
    )
}

/// The answer to a request that succeeded.
pub open spec fn answered(
    s: ServiceView,
    last: Option<BlockNumHash>,
    sync_height: Option<u64>,
    saved: bool,
) -> (ServiceView, ServiceStep) {
    (
        ServiceView { job: JobView::Idle, ..s },
        ServiceStep::Answer { result: Ok(last), sync_height, saved },
    )
}

/// The number that stays pending, of one that was written with a batch that
/// ends at `last`.
pub open spec fn still_pending(n: u64, last: u64) -> Option<u64> {
    if n > last {
        Some(n)
    } else {
        None
    }
}

impl ServiceView {
    /// The service when it goes on with a batch in this phase.
    pub open spec fn saving(self, phase: SavePhase) -> ServiceView {
        ServiceView {
            job: JobView::Saving {
                links: self.job->Saving_links,
                expected: self.job->Saving_expected,
                finalized: self.job->Saving_finalized,
                safe: self.job->Saving_safe,
                phase,
            },
            ..self
        }
    }

    /// The last block of the batch.
    pub open spec fn last(self) -> BlockNumHash {
        self.job->Saving_links.last().block
    }

    /// What follows the batch's blocks and its finalized number.
    pub open spec fn to_safe(self) -> (ServiceView, ServiceStep) {
        match self.job->Saving_safe {
            Some(n) => (
                self.saving(SavePhase::Safe),
                ServiceStep::Call(StoreCall::SaveSafe(lesser(n, self.last().number))),
            ),
            None => self.to_commit(),
        }
    }

    /// What follows everything that is written with the batch.
    pub open spec fn to_commit(self) -> (ServiceView, ServiceStep) {
        (self.saving(SavePhase::Committing), ServiceStep::Call(StoreCall::Commit))
    }

    /// What follows the batch's blocks.
    pub open spec fn to_finalized(self) -> (ServiceView, ServiceStep) {
        match self.job->Saving_finalized {
            Some(n) => (
                self.saving(SavePhase::Finalized),
                ServiceStep::Call(StoreCall::SaveFinalized(lesser(n, self.last().number))),
            ),
            None => self.to_safe(),
        }
    }

    /// The service after a call for a batch was carried out.
    pub open spec fn save_done(self) -> (ServiceView, ServiceStep) {
        let last = self.last();
        match self.job->Saving_phase {
            SavePhase::Blocks => self.to_finalized(),
            SavePhase::Finalized => {
                let n = self.job->Saving_finalized->Some_0;
                let s = if n > last.number {
                    ServiceView { pending_finalized: Some(n), ..self }
                } else {
                    self
                };
                s.to_safe()
            },
            SavePhase::Safe => {
                let n = self.job->Saving_safe->Some_0;
                let s = if n > last.number {
                    ServiceView { pending_safe: Some(n), ..self }
                } else {
                    self
                };
                s.to_commit()
            },
            SavePhase::Committing => (
                self.saving(SavePhase::AskingPruner),
                ServiceStep::Call(StoreCall::PruneNeeded(last.number)),
            ),
            SavePhase::Pruning => (
                self.saving(SavePhase::CommittingPrune),
                ServiceStep::Call(StoreCall::CommitPrune),
            ),
            _ => answered(self, Some(last), Some(last.number), true),
        }
    }
}

/// `reply` can come to what the service has asked.
pub open spec fn replies(s: ServiceView, reply: StoreReply) -> bool {
    match s.job {
        JobView::Idle => false,
        JobView::Stopped => false,
        JobView::Saving { links, finalized, safe, phase, .. } => {
            &&& links.len() > 0
            &&& match phase {
                SavePhase::Reading => reply is Checkpoints || reply is ProviderFailed,
                SavePhase::AskingPruner => reply is Needed,
                SavePhase::Pruning => reply is Done || reply is ProviderFailed
                    || reply is PrunerFailed,
                SavePhase::Finalized => finalized is Some && (reply is Done
                    || reply is ProviderFailed),
                SavePhase::Safe => safe is Some && (reply is Done || reply is ProviderFailed),
                _ => reply is Done || reply is ProviderFailed,
            }
        },
        JobView::ReadingTip { .. } => reply is Hash || reply is ProviderFailed,
        _ => reply is Done || reply is ProviderFailed,
    }
}

/// The service after `reply`, and what is to be done next.
pub open spec fn after_reply(s: ServiceView, reply: StoreReply) -> (ServiceView, ServiceStep) {
    match (s.job, reply) {
        (_, StoreReply::ProviderFailed(m)) => failed(s, PersistenceError::ProviderError(m)),
        (_, StoreReply::PrunerFailed(m)) => failed(s, PersistenceError::PrunerError(m)),
        (JobView::Saving { links, expected, .. }, StoreReply::Checkpoints(view)) => match admission(
            view,
            expected,
            links,
        ) {
            Some(e) => failed(s, PersistenceError::Fence(e)),
            None => (s.saving(SavePhase::Blocks), ServiceStep::Call(StoreCall::SaveBlocks)),
        },
        (JobView::Saving { .. }, StoreReply::Needed(needed)) => if needed {
            (
                s.saving(SavePhase::Pruning),
                ServiceStep::Call(StoreCall::Prune(s.last().number)),
            )
        } else {
            answered(s, Some(s.last()), Some(s.last().number), true)
        },
        (JobView::Saving { .. }, _) => s.save_done(),
        (JobView::ReadingTip { tip }, StoreReply::Hash(hash)) => (
            ServiceView { job: JobView::Removing { tip, hash }, ..s },
            ServiceStep::Call(StoreCall::RemoveAbove(tip)),
        ),
        (JobView::Removing { tip, hash }, _) => (
            ServiceView { job: JobView::CommittingRemoval { tip, hash }, ..s },
            ServiceStep::Call(StoreCall::CommitRemoval),
        ),
        (JobView::CommittingRemoval { tip, hash }, _) => answered(
            s,
            match hash {
                Some(h) => Some(BlockNumHash { number: tip, hash: h }),
                None => None,
            },
            Some(tip),
            false,
        ),
        _ => (s, ServiceStep::Answer { result: Ok(None), sync_height: None, saved: false }),
    }
}

/// The service after a request to save a batch. What is pending goes with the
/// next block that is saved, so that a batch without a block leaves it as it
/// is.
pub open spec fn after_save(s: ServiceView, links: Seq<Link>, expected: BlockNumHash) -> (
    ServiceView,
    ServiceStep,
) {
    if links.len() == 0 {
        answered(s, None, None, true)
    } else {
        let taken = ServiceView { pending_finalized: None, pending_safe: None, ..s };
        (
            ServiceView {
                job: JobView::Saving {
                    links,
                    expected,
                    finalized: s.pending_finalized,
                    safe: s.pending_safe,
                    phase: SavePhase::Reading,
                },
                ..taken
            },
            ServiceStep::Call(StoreCall::ReadCheckpoints),
        )
    }
}

/// Whether a batch may be written after what the store shows.
pub fn check_batch(view: &StoreView, expected: BlockNumHash, links: &Vec<Link>) -> (r: Result<
    (),
    PersistenceFenceError,
>)
    requires
        links@.len() > 0,
    ensures
        r == (match admission(*view, expected, links@) {
            Some(e) => Err(e),
            None => Ok(()),
        }),
{
    let snapshot = PersistenceCheckpointSnapshot::read(view);
    let finish: BlockNumHash = match snapshot.validate(expected) {
        Ok(finish) => finish,
        Err(e) => {
            return Err(e);
        },
    };
    match PersistenceCheckpointSnapshot::validate_first_block(
        finish,
        links[0].block,
        links[0].parent,
    ) {
        Ok(_) => {},
        Err(e) => {
            return Err(e);
        },
    }
    let mut i: usize = 1;
    while i < links.len()
        invariant
            1 <= i <= links@.len(),
            later_fault(links@.take(i as int)) is None,
            admission(*view, expected, links@) == later_fault(links@),
        decreases links@.len() - i,
    {
        let ghost more = links@.take(i + 1);
        assert(more.drop_last() =~= links@.take(i as int));
        assert(more[more.len() - 2] == links@[i - 1]);
        match PersistenceCheckpointSnapshot::validate_next_block(
            links[i - 1].block,
            links[i].block,
            links[i].parent,
        ) {
            Ok(_) => {},
            Err(e) => {
                proof {
                    lemma_first_later_fault(links@, i + 1, e);
                }
                return Err(e);
            },
        }
        i = i + 1;
    }
    assert(links@.take(i as int) =~= links@);
    Ok(())
}

proof fn lemma_first_later_fault(links: Seq<Link>, k: int, e: PersistenceFenceError)
    requires
        0 <= k <= links.len(),
        later_fault(links.take(k)) == Some(e),
    ensures
        later_fault(links) == Some(e),
    decreases links.len(),
{
    if k == links.len() {
        assert(links.take(k) =~= links);
    } else {
        assert(links.drop_last().take(k) =~= links.take(k));
        lemma_first_later_fault(links.drop_last(), k, e);
        assert(k >= 2);
    }
}

impl PersistenceService {
    /// A service that has seen no request.
    pub fn new() -> (r: Self)
        ensures
            r@ == (ServiceView { pending_finalized: None, pending_safe: None, job: JobView::Idle }),
    {
        PersistenceService {
            pending_finalized_block: None,
            pending_safe_block: None,
            job: Job::Idle,
        }
    }

    /// The finalized block's number is kept, to be written with the next
    /// batch, which saves a commit of its own.
    pub fn on_finalized(&mut self, finalized_block: u64)
        ensures
            final(self)@ == (ServiceView {
                pending_finalized: Some(finalized_block),
                ..old(self)@
            }),
    {
        self.pending_finalized_block = Some(finalized_block);
    }

    /// The safe block's number is kept, to be written with the next batch.
    pub fn on_safe(&mut self, safe_block: u64)
        ensures
            final(self)@ == (ServiceView { pending_safe: Some(safe_block), ..old(self)@ }),
    {
        self.pending_safe_block = Some(safe_block);
    }

    /// A request to remove the blocks above `new_tip_num`.
    pub fn on_remove_blocks_above(&mut self, new_tip_num: u64) -> (step: ServiceStep)
        requires
            old(self).job is Idle,
        ensures
            final(self)@ == (ServiceView {
                job: JobView::ReadingTip { tip: new_tip_num },
                ..old(self)@
            }),
            step == ServiceStep::Call(StoreCall::BlockHash(new_tip_num)),
    {
        self.job = Job::ReadingTip { tip: new_tip_num };
        ServiceStep::Call(StoreCall::BlockHash(new_tip_num))
    }

    /// A request to save a batch, by a tree whose last durable block is
    /// `expected_last_persisted`.
    pub fn on_save_blocks<B>(
        &mut self,
        blocks: &Vec<ExecutedBlock<B>>,
        expected_last_persisted: BlockNumHash,
    ) -> (step: ServiceStep)
        requires
            old(self).job is Idle,
        ensures
            (final(self)@, step) == after_save(
                old(self)@,
                links_of(blocks@),
                expected_last_persisted,
            ),
    {
        let mut links: Vec<Link> = Vec::new();
        let mut i: usize = 0;
        while i < blocks.len()
            invariant
                i <= blocks@.len(),
                links@ == links_of(blocks@).take(i as int),
            decreases blocks@.len() - i,
        {
            links.push(Link { block: blocks[i].num_hash(), parent: blocks[i].parent_hash });
            assert(links@ =~= links_of(blocks@).take(i + 1));
            i = i + 1;
        }
        assert(links@ =~= links_of(blocks@));
        if links.len() == 0 {
            self.job = Job::Idle;
            return ServiceStep::Answer { result: Ok(None), sync_height: None, saved: true };
        }
        let finalized: Option<u64> = self.pending_finalized_block;
        let safe: Option<u64> = self.pending_safe_block;
        self.pending_finalized_block = None;
        self.pending_safe_block = None;
        self.job = Job::Saving {
            links,
            expected: expected_last_persisted,
            finalized,
            safe,
            phase: SavePhase::Reading,
        };
        ServiceStep::Call(StoreCall::ReadCheckpoints)
    }

    fn fail(&mut self, e: PersistenceError) -> (step: ServiceStep)
        ensures
            (final(self)@, step) == failed(old(self)@, e),
    {
        let saved: bool = matches!(self.job, Job::Saving { .. });
        self.job = Job::Stopped;
        ServiceStep::Answer { result: Err(e), sync_height: None, saved }
    }

    fn answer(
        &mut self,
        last: Option<BlockNumHash>,
        sync_height: Option<u64>,
        saved: bool,
    ) -> (step: ServiceStep)
        ensures
            (final(self)@, step) == answered(old(self)@, last, sync_height, saved),
    {
        self.job = Job::Idle;
        ServiceStep::Answer { result: Ok(last), sync_height, saved }
    }

    fn go_on(&mut self, next: SavePhase)
        requires
            old(self).job is Saving,
        ensures
            final(self)@ == old(self)@.saving(next),
    {
        let mut job = Job::Idle;
        std::mem::swap(&mut job, &mut self.job);
        if let Job::Saving { links, expected, finalized, safe, phase: _ } = job {
            self.job = Job::Saving { links, expected, finalized, safe, phase: next };
        }
    }

    fn commit_batch(&mut self) -> (step: ServiceStep)
        requires
            old(self).job is Saving,
        ensures
            (final(self)@, step) == old(self)@.to_commit(),
    {
        self.go_on(SavePhase::Committing);
        ServiceStep::Call(StoreCall::Commit)
    }

    fn write_safe(&mut self, safe: Option<u64>, last: u64) -> (step: ServiceStep)
        requires
            old(self).job is Saving,
            old(self)@.job->Saving_safe == safe,
            old(self)@.last().number == last,
        ensures
            (final(self)@, step) == old(self)@.to_safe(),
    {
        match safe {
            Some(n) => {
                self.go_on(SavePhase::Safe);
                ServiceStep::Call(
                    StoreCall::SaveSafe(
                        if n <= last {
                            n
                        } else {
                            last
                        },
                    ),
                )
            },
            None => self.commit_batch(),
        }
    }

    fn write_finalized(&mut self, finalized: Option<u64>, safe: Option<u64>, last: u64) -> (step:
        ServiceStep)
        requires
            old(self).job is Saving,
            old(self)@.job->Saving_finalized == finalized,
            old(self)@.job->Saving_safe == safe,
            old(self)@.last().number == last,
        ensures
            (final(self)@, step) == old(self)@.to_finalized(),
    {
        match finalized {
            Some(n) => {
                self.go_on(SavePhase::Finalized);
                ServiceStep::Call(
                    StoreCall::SaveFinalized(
                        if n <= last {
                            n
                        } else {
                            last
                        },
                    ),
                )
            },
            None => self.write_safe(safe, last),
        }
    }

    fn on_save_reply(
        &mut self,
        reply: StoreReply,
        verdict: Result<(), PersistenceFenceError>,
        last: BlockNumHash,
        finalized: Option<u64>,
        safe: Option<u64>,
        phase: SavePhase,
    ) -> (step: ServiceStep)
        requires
            replies(old(self)@, reply),
            !(reply is ProviderFailed) && !(reply is PrunerFailed),
            old(self)@.job matches JobView::Saving { links, expected, finalized: f, safe: s, phase: p }
                && f == finalized && s == safe && p == phase && links.last().block == last && (
            reply matches StoreReply::Checkpoints(view) ==> verdict == (match admission(
                view,
                expected,
                links,
            ) {
                Some(e) => Err(e),
                None => Ok(()),
            })),
        ensures
            (final(self)@, step) == after_reply(old(self)@, reply),
    {
        match reply {
            StoreReply::Checkpoints(_) => match verdict {
                Ok(_) => {
                    self.go_on(SavePhase::Blocks);
                    ServiceStep::Call(StoreCall::SaveBlocks)
                },
                Err(e) => self.fail(PersistenceError::Fence(e)),
            },
            StoreReply::Needed(needed) => {
                if needed {
                    self.go_on(SavePhase::Pruning);
                    ServiceStep::Call(StoreCall::Prune(last.number))
                } else {
                    self.answer(Some(last), Some(last.number), true)
                }
            },
            _ => match phase {
                SavePhase::Blocks => self.write_finalized(finalized, safe, last.number),
                SavePhase::Finalized => {
                    if let Some(n) = finalized {
                        if n > last.number {
                            self.pending_finalized_block = Some(n);
                        }
                    }
                    self.write_safe(safe, last.number)
                },
                SavePhase::Safe => {
                    if let Some(n) = safe {
                        if n > last.number {
                            self.pending_safe_block = Some(n);
                        }
                    }
                    self.commit_batch()
                },
                SavePhase::Committing => {
                    self.go_on(SavePhase::AskingPruner);
                    ServiceStep::Call(StoreCall::PruneNeeded(last.number))
                },
                SavePhase::Pruning => {
                    self.go_on(SavePhase::CommittingPrune);
                    ServiceStep::Call(StoreCall::CommitPrune)
                },
                _ => self.answer(Some(last), Some(last.number), true),
            },
        }
    }

    /// The store has replied: what is to be done next.
    pub fn on_reply(&mut self, reply: StoreReply) -> (step: ServiceStep)
        requires
            replies(old(self)@, reply),
        ensures
            (final(self)@, step) == after_reply(old(self)@, reply),
    {
        let reply = match reply {
            StoreReply::ProviderFailed(m) => {
                return self.fail(PersistenceError::ProviderError(m));
            },
            StoreReply::PrunerFailed(m) => {
                return self.fail(PersistenceError::PrunerError(m));
            },
            other => other,
        };
        match &self.job {
            Job::Saving { links, expected, finalized, safe, phase } => {
                let last: BlockNumHash = links[links.len() - 1].block;
                let finalized: Option<u64> = *finalized;
                let safe: Option<u64> = *safe;
                let phase: SavePhase = *phase;
                let verdict: Result<(), PersistenceFenceError> = match &reply {
                    StoreReply::Checkpoints(view) => check_batch(view, *expected, links),
                    _ => Ok(()),
                };
                self.on_save_reply(reply, verdict, last, finalized, safe, phase)
            },
            Job::ReadingTip { tip } => {
                let tip: u64 = *tip;
                if let StoreReply::Hash(hash) = reply {
                    self.job = Job::Removing { tip, hash };
                    ServiceStep::Call(StoreCall::RemoveAbove(tip))
                } else {
                    ServiceStep::Answer { result: Ok(None), sync_height: None, saved: false }
                }
            },
            Job::Removing { tip, hash } => {
                let (tip, hash): (u64, Option<B256>) = (*tip, *hash);
                self.job = Job::CommittingRemoval { tip, hash };
                ServiceStep::Call(StoreCall::CommitRemoval)
            },
            Job::CommittingRemoval { tip, hash } => {
                let (tip, hash): (u64, Option<B256>) = (*tip, *hash);
                let new_tip: Option<BlockNumHash> = match hash {
                    Some(h) => Some(BlockNumHash { number: tip, hash: h }),
                    None => None,
                };
                self.answer(new_tip, Some(tip), false)
            },
            _ => ServiceStep::Answer { result: Ok(None), sync_height: None, saved: false },
        }
    }
}

/// What is sent back when a request is answered that took so long: how long is
/// said only where blocks were to be saved.
pub fn completion(
    result: Result<Option<BlockNumHash>, PersistenceError>,
    saved: bool,
    took: std::time::Duration,
) -> (r: PersistenceActionResult)
    ensures
        match (result, r) {
            (Ok(last), Ok(p)) => p.last_block == last && p.commit_duration == (if saved {
                Some(took)
            } else {
                None
            }),
            (Err(a), Err(b)) => a == b,
            _ => false,
        },
{
    match result {
        Ok(last_block) => Ok(
            PersistenceResult {
                last_block,
                commit_duration: if saved {
                    Some(took)
                } else {
                    None
                },
            },
        ),
        Err(e) => Err(e),
    }
}

// --------------------------------------------------------------------- laws

/// `links` is one chain that extends `finish`: numbers without a gap or an
/// overlap, each block naming the one before it as its parent.
pub open spec fn extends(finish: BlockNumHash, links: Seq<Link>) -> bool {
    &&& links[0].block.number == finish.number + 1
    &&& links[0].parent == finish.hash
    &&& forall|i: int|
        1 <= i < links.len() ==> (#[trigger] links[i]).block.number == links[i - 1].block.number + 1
            && links[i].parent == links[i - 1].block.hash
}

proof fn lemma_later_fault(links: Seq<Link>)
    ensures
        later_fault(links) is None <==> forall|i: int|
            1 <= i < links.len() ==> (#[trigger] links[i]).block.number == links[i
                - 1].block.number + 1 && links[i].parent == links[i - 1].block.hash,
    decreases links.len(),
{
    if links.len() > 1 {
        let p = links.drop_last();
        let n = links.len() - 1;
        lemma_later_fault(p);
        if later_fault(links) is None {
            assert forall|i: int| 1 <= i < links.len() implies (#[trigger] links[i]).block.number
                == links[i - 1].block.number + 1 && links[i].parent == links[i
                - 1].block.hash by {
                if i < n {
                    assert(p[i] == links[i]);
                    assert(p[i - 1] == links[i - 1]);
                }
            }
        }
        if forall|i: int|
            1 <= i < links.len() ==> (#[trigger] links[i]).block.number == links[i
                - 1].block.number + 1 && links[i].parent == links[i - 1].block.hash {
            assert forall|i: int| 1 <= i < p.len() implies (#[trigger] p[i]).block.number == p[i
                - 1].block.number + 1 && p[i].parent == p[i - 1].block.hash by {
                assert(links[i].parent == links[i - 1].block.hash);
            }
            assert(links[n].parent == links[n - 1].block.hash);
        }
    }
}

/// A batch is admitted exactly when the watermark is the tree's last durable
/// block, every owner stands at it, and the batch is one chain that extends
/// it.
pub proof fn lemma_admission(view: StoreView, expected: BlockNumHash, links: Seq<Link>)
    requires
        links.len() > 0,
    ensures
        admission(view, expected, links) is None <==> {
            let owners = persistence_fence::owners_in(
                view,
                persistence_fence::engine_persistence_owner_stages(),
            );
            &&& persistence_fence::checkpoint_of(view.checkpoints@, StageId::Finish) == Some(
                expected.number,
            )
            &&& persistence_fence::hash_of(view.canonical@, expected.number) == Some(expected.hash)
            &&& forall|i: int|
                0 <= i < owners.len() ==> (#[trigger] owners[i]).checkpoint == Some(
                    expected.number,
                )
            &&& extends(expected, links)
        },
{
    let finish = persistence_fence::checkpoint_of(view.checkpoints@, StageId::Finish);
    let hash = match finish {
        Some(n) => persistence_fence::hash_of(view.canonical@, n),
        None => None,
    };
    let owners: Seq<PersistenceOwnerCheckpoint> = persistence_fence::owners_in(
        view,
        persistence_fence::engine_persistence_owner_stages(),
    );
    persistence_fence::lemma_fence_opens(finish, hash, owners, expected);
    lemma_later_fault(links);
}

/// The calls that change the store.
pub open spec fn writes(call: StoreCall) -> bool {
    match call {
        StoreCall::ReadCheckpoints => false,
        StoreCall::PruneNeeded(_) => false,
        StoreCall::BlockHash(_) => false,
        _ => true,
    }
}

/// A batch that the fence rejects is answered with the fence's error, and
/// nothing is written for it: the first call of a batch only reads, and the
/// reply to it either lets the blocks be written or ends the request.
pub proof fn lemma_rejected_batch_writes_nothing(
    s: ServiceView,
    links: Seq<Link>,
    expected: BlockNumHash,
    view: StoreView,
)
    requires
        s.job == JobView::Idle,
        links.len() > 0,
    ensures
        ({
            let (reading, first) = after_save(s, links, expected);
            let (next, second) = after_reply(reading, StoreReply::Checkpoints(view));
            &&& first == ServiceStep::Call(StoreCall::ReadCheckpoints)
            &&& !writes(StoreCall::ReadCheckpoints)
            &&& replies(reading, StoreReply::Checkpoints(view))
            &&& match admission(view, expected, links) {
                Some(e) => next.job == JobView::Stopped && second == (ServiceStep::Answer {
                    result: Err(PersistenceError::Fence(e)),
                    sync_height: None,
                    saved: true,
                }),
                None => second == ServiceStep::Call(StoreCall::SaveBlocks),
            }
        }),
{
}

/// A service that has failed a request takes no reply any more, and a request
/// fails only with an error that is sent back.
pub proof fn lemma_failure_stops(s: ServiceView, reply: StoreReply)
    requires
        replies(s, reply),
    ensures
        after_reply(s, reply).0.job == JobView::Stopped <==> {
            after_reply(s, reply).1 matches ServiceStep::Answer { result, .. } && result is Err
        },
        forall|r: StoreReply| after_reply(s, reply).0.job == JobView::Stopped ==> !(
        #[trigger] replies(after_reply(s, reply).0, r)),
{
}

/// A number that was pending is written no higher than the batch's last block,
/// and stays pending exactly when it is higher, until a batch reaches it.
pub proof fn lemma_pending_numbers(
    s: ServiceView,
    links: Seq<Link>,
    expected: BlockNumHash,
    view: StoreView,
)
    requires
        s.job == JobView::Idle,
        links.len() > 0,
        admission(view, expected, links) is None,
    ensures
        ({
            let last = links.last().block.number;
            let s1 = after_save(s, links, expected).0;
            let s2 = after_reply(s1, StoreReply::Checkpoints(view)).0;
            let (s3, c3) = after_reply(s2, StoreReply::Done);
            match (s.pending_finalized, s.pending_safe) {
                (Some(f), Some(n)) => {
                    let (s4, c4) = after_reply(s3, StoreReply::Done);
                    let (s5, c5) = after_reply(s4, StoreReply::Done);
                    &&& c3 == ServiceStep::Call(StoreCall::SaveFinalized(lesser(f, last)))
                    &&& c4 == ServiceStep::Call(StoreCall::SaveSafe(lesser(n, last)))
                    &&& c5 == ServiceStep::Call(StoreCall::Commit)
                    &&& s5.pending_finalized == still_pending(f, last)
                    &&& s5.pending_safe == still_pending(n, last)
                },
                (Some(f), None) => {
                    let (s4, c4) = after_reply(s3, StoreReply::Done);
                    &&& c3 == ServiceStep::Call(StoreCall::SaveFinalized(lesser(f, last)))
                    &&& c4 == ServiceStep::Call(StoreCall::Commit)
                    &&& s4.pending_finalized == still_pending(f, last)
                    &&& s4.pending_safe is None
                },
                (None, Some(n)) => {
                    let (s4, c4) = after_reply(s3, StoreReply::Done);
                    &&& c3 == ServiceStep::Call(StoreCall::SaveSafe(lesser(n, last)))
                    &&& c4 == ServiceStep::Call(StoreCall::Commit)
                    &&& s4.pending_finalized is None
                    &&& s4.pending_safe == still_pending(n, last)
                },
                (None, None) => {
                    &&& c3 == ServiceStep::Call(StoreCall::Commit)
                    &&& s3.pending_finalized is None
                    &&& s3.pending_safe is None
                },
            }
        }),
{
}

/// A batch without a block leaves the pending numbers for the next one: it is
/// answered at once, no call is made for it, and what is then saved is what
/// would have been saved without it.
pub proof fn lemma_empty_batch_keeps_pending(
    s: ServiceView,
    expected: BlockNumHash,
    links: Seq<Link>,
    next_expected: BlockNumHash,
)
    requires
        s.job == JobView::Idle,
    ensures
        after_save(s, Seq::empty(), expected) == (
            s,
            (ServiceStep::Answer { result: Ok(None), sync_height: None, saved: true }),
        ),
        after_save(after_save(s, Seq::empty(), expected).0, links, next_expected) == after_save(
            s,
            links,
            next_expected,
        ),
{
    assert(after_save(s, Seq::empty(), expected).0 == s);
}

/// What is answered follows the kind of the request: a batch is answered as
/// one, a removal is not, so that only a batch's answer says how long it took.
pub proof fn lemma_answer_tells_kind(s: ServiceView, reply: StoreReply)
    requires
        replies(s, reply),
    ensures
        after_reply(s, reply).1 matches ServiceStep::Answer { saved, .. } ==> saved
            == (s.job is Saving),
{
}

/// The pruner runs only on a batch that is committed, and in a transaction of
/// its own.
pub proof fn lemma_prunes_after_commit(s: ServiceView, reply: StoreReply)
    requires
        replies(s, reply),
    ensures
        after_reply(s, reply).1 matches ServiceStep::Call(StoreCall::Prune(n))
            ==> s.job->Saving_phase == SavePhase::AskingPruner && n == s.last().number,
        after_reply(s, reply).0.job matches JobView::Saving { phase, .. } && phase
            == SavePhase::AskingPruner && s.job->Saving_phase != SavePhase::AskingPruner
            ==> s.job->Saving_phase == SavePhase::Committing && reply is Done,
{
}

// ------------------------------------------------------------------- handle

/// crossbeam's sender, over which the answer to a request comes.
#[verifier::external_type_specification]
#[verifier::external_body]
#[verifier::reject_recursive_types(T)]
pub struct ExAnswerSender<T>(crossbeam_channel::Sender<T>);

/// std's sender, over which requests go to the service.
#[verifier::external_type_specification]
#[verifier::external_body]
#[verifier::reject_recursive_types(T)]
pub struct ExRequestSender<T>(std::sync::mpsc::Sender<T>);

/// `std::sync::mpsc::Sender::clone`: another sender into the same channel. Which
/// channel a sender sends into is nothing that a contract here can name, so
/// nothing is claimed of the result.
pub assume_specification<T>[ <std::sync::mpsc::Sender<T> as Clone>::clone ](
    sender: &std::sync::mpsc::Sender<T>,
) -> (r: std::sync::mpsc::Sender<T>)
;

/// A request to the persistence service.
#[derive(Debug)]
pub enum PersistenceAction<B> {
    /// Save these blocks, which are expected in order of their numbers, after
    /// the block that the tree knows as the last durable one.
    SaveBlocks(
        Vec<ExecutedBlock<B>>,
        BlockNumHash,
        crossbeam_channel::Sender<PersistenceActionResult>,
    ),
    /// Remove the blocks above this number.
    RemoveBlocksAbove(u64, crossbeam_channel::Sender<PersistenceActionResult>),
    /// Update the finalized block on disk.
    SaveFinalizedBlock(u64),
    /// Update the safe block on disk.
    SaveSafeBlock(u64),
}

/// `std::sync::mpsc::Sender::send`: a request that cannot be sent comes back
/// as it was. Whether one can be sent is up to the other end.
#[verifier::external_body]
fn send<B>(
    sender: &std::sync::mpsc::Sender<PersistenceAction<B>>,
    action: PersistenceAction<B>,
) -> (r: Result<(), PersistenceAction<B>>)
    ensures
        match r {
            Ok(_) => true,
            Err(back) => back == action,
        },
{
    match sender.send(action) {
        Ok(sent) => Ok(sent),
        Err(std::sync::mpsc::SendError(back)) => Err(back),
    }
}

/// A handle to the persistence service. Its clones ask the same service.
#[derive(Clone, Debug)]
#[verifier::reject_recursive_types(B)]
pub struct PersistenceHandle<B> {
    sender: std::sync::mpsc::Sender<PersistenceAction<B>>,
}

impl<B> PersistenceHandle<B> {
    /// Where the handle's requests go.
    pub closed spec fn to(self) -> std::sync::mpsc::Sender<PersistenceAction<B>> {
        self.sender
    }

    /// `action` was handed to the sender, which gave `r` back.
    pub closed spec fn asked(
        self,
        action: PersistenceAction<B>,
        r: Result<(), PersistenceAction<B>>,
    ) -> bool {
        call_ensures(send::<B>, (&self.sender, action), r)
    }

    /// A handle whose requests go to `sender`.
    pub fn new(sender: std::sync::mpsc::Sender<PersistenceAction<B>>) -> (r: Self)
        ensures
            r.to() == sender,
    {
        PersistenceHandle { sender }
    }

    /// Sends a request. One that cannot be sent, because the service is gone,
    /// comes back.
    pub fn send_action(&self, action: PersistenceAction<B>) -> (r: Result<
        (),
        PersistenceAction<B>,
    >)
        ensures
            self.asked(action, r),
            r matches Err(back) ==> back == action,
    {
        let call = send::<B>;
        call(&self.sender, action)
    }

    /// Asks the service to save these blocks. The answer comes over `tx`: the
    /// last block that was saved, or none where there was no block.
    pub fn save_blocks(
        &self,
        blocks: Vec<ExecutedBlock<B>>,
        expected_last_persisted: BlockNumHash,
        tx: crossbeam_channel::Sender<PersistenceActionResult>,
    ) -> (r: Result<(), PersistenceAction<B>>)
        ensures
            self.asked(PersistenceAction::SaveBlocks(blocks, expected_last_persisted, tx), r),
            r matches Err(back) ==> back == PersistenceAction::SaveBlocks(
                blocks,
                expected_last_persisted,
                tx,
            ),
    {
        self.send_action(PersistenceAction::SaveBlocks(blocks, expected_last_persisted, tx))
    }

    /// Asks the service to write the finalized block's number with the next
    /// batch.
    pub fn save_finalized_block_number(&self, finalized_block: u64) -> (r: Result<
        (),
        PersistenceAction<B>,
    >)
        ensures
            self.asked(PersistenceAction::SaveFinalizedBlock(finalized_block), r),
            r matches Err(back) ==> back == PersistenceAction::<B>::SaveFinalizedBlock(
                finalized_block,
            ),
    {
        self.send_action(PersistenceAction::SaveFinalizedBlock(finalized_block))
    }

    /// Asks the service to write the safe block's number with the next batch.
    pub fn save_safe_block_number(&self, safe_block: u64) -> (r: Result<(), PersistenceAction<B>>)
        ensures
            self.asked(PersistenceAction::SaveSafeBlock(safe_block), r),
            r matches Err(back) ==> back == PersistenceAction::<B>::SaveSafeBlock(safe_block),
    {
        self.send_action(PersistenceAction::SaveSafeBlock(safe_block))
    }

    /// Asks the service to remove the blocks above `block_num`. The answer
    /// comes over `tx`: the new tip.
    pub fn remove_blocks_above(
        &self,
        block_num: u64,
        tx: crossbeam_channel::Sender<PersistenceActionResult>,
    ) -> (r: Result<(), PersistenceAction<B>>)
        ensures
            self.asked(PersistenceAction::RemoveBlocksAbove(block_num, tx), r),
            r matches Err(back) ==> back == PersistenceAction::<B>::RemoveBlocksAbove(
                block_num,
                tx,
            ),
    {
        self.send_action(PersistenceAction::RemoveBlocksAbove(block_num, tx))
    }
}

} // verus!
