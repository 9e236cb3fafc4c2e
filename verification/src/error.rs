//! The errors of the engine tree, and which of them say that a block is
//! invalid. Errors of other components are kept as what they say.

use vstd::prelude::*;

use crate::hash;
use crate::hash::hex_b256;
use crate::persistence::PersistenceError;
use crate::persistence_fence;
use crate::persistence_fence::{identity, join_five, PersistenceFenceError};
use crate::primitives::{BlockNumHash, B256};
use crate::text;
use crate::text::decimal;

verus! {

/// What can go wrong when persistence is advanced.
#[derive(Debug)]
pub enum AdvancePersistenceError {
    /// The persistence channel was closed unexpectedly.
    ChannelClosed,
    /// A provider error.
    Provider(String),
    /// The persistence worker rejected an unsafe action, or one failed.
    Persistence(PersistenceError),
    /// Checkpoints cannot converge because pipeline backfill is disabled.
    FenceRepairUnavailable { mismatch: PersistenceFenceError },
    /// There is no canonical block for the target of the convergence.
    FenceRepairTargetMissing { block_number: u64 },
    /// A required convergence run could not be dispatched.
    FenceRepairDispatchFailed,
    /// A convergence run completed without durable progress to its target.
    FenceRepairFailed {
        target: BlockNumHash,
        initial: PersistenceFenceError,
        previous_finish: Option<u64>,
        current_finish: Option<u64>,
        current: PersistenceFenceError,
    },
    /// The tree built a batch that does not extend the durable frontier.
    FenceBatchRejected { mismatch: PersistenceFenceError },
    /// A graceful shutdown may not flush across a divergent frontier.
    UnsafeShutdownFence { mismatch: PersistenceFenceError },
    /// A graceful shutdown may not persist while the pipeline owns the
    /// database.
    UnsafeShutdownPipelineBusy,
}

/// A height that may be missing, as it is written in messages.
pub open spec fn height_text(n: Option<u64>) -> Seq<char> {
    match n {
        Some(v) => "Some("@ + text::decimal_digits(v as nat) + ")"@,
        None => "None"@,
    }
}

fn height(n: Option<u64>) -> (r: String)
    ensures
        r@ == height_text(n),
{
    match n {
        Some(v) => {
            let mut s: String = "Some(".to_owned();
            s.append(decimal(v).as_str());
            s.append(")");
            s
        },
        None => "None".to_owned(),
    }
}

/// What is said of a persistence error.
pub open spec fn persistence_message_of(e: PersistenceError) -> Seq<char> {
    match e {
        PersistenceError::Fence(f) => persistence_fence::fence_message_of(f),
        PersistenceError::PrunerError(m) => m@,
        PersistenceError::ProviderError(m) => m@,
    }
}

/// What is said of the error.
pub open spec fn advance_message_of(e: AdvancePersistenceError) -> Seq<char> {
    match e {
        AdvancePersistenceError::ChannelClosed => "persistence channel closed"@,
        AdvancePersistenceError::Provider(m) => m@,
        AdvancePersistenceError::Persistence(p) => persistence_message_of(p),
        AdvancePersistenceError::FenceRepairUnavailable { mismatch } =>
            "engine persistence fence cannot converge with pipeline backfill disabled: "@
            + persistence_fence::fence_message_of(mismatch),
        AdvancePersistenceError::FenceRepairTargetMissing { block_number } =>
            "engine persistence fence cannot find block "@ + text::decimal_digits(
            block_number as nat,
        ) + " for pipeline convergence"@,
        AdvancePersistenceError::FenceRepairDispatchFailed =>
            "engine persistence fence could not dispatch its pipeline convergence action"@,
        AdvancePersistenceError::FenceRepairFailed {
            target,
            initial,
            previous_finish,
            current_finish,
            current,
        } => persistence_fence::five(
            "engine persistence fence convergence to "@,
            persistence_fence::identity_text(target),
            " stalled: initial="@,
            persistence_fence::fence_message_of(initial),
            "; previous Finish="@,
        ) + persistence_fence::five(
            height_text(previous_finish),
            "; current Finish="@,
            height_text(current_finish),
            "; current="@,
            persistence_fence::fence_message_of(current),
        ),
        AdvancePersistenceError::FenceBatchRejected { mismatch } =>
            "engine persistence batch rejected before dispatch: "@
            + persistence_fence::fence_message_of(mismatch),
        AdvancePersistenceError::UnsafeShutdownFence { mismatch } =>
            "refusing unsafe graceful persistence flush: "@ + persistence_fence::fence_message_of(
            mismatch,
        ),
        AdvancePersistenceError::UnsafeShutdownPipelineBusy =>
            "refusing graceful persistence flush while pipeline backfill is pending or active"@,
    }
}

fn join_two(a: &str, b: &str) -> (r: String)
    ensures
        r@ == a@ + b@,
{
    let mut s: String = a.to_owned();
    s.append(b);
    s
}

impl AdvancePersistenceError {
    /// What is said of the error.
    pub fn message(&self) -> (r: String)
        ensures
            r@ == advance_message_of(*self),
    {
        match self {
            AdvancePersistenceError::ChannelClosed => "persistence channel closed".to_owned(),
            AdvancePersistenceError::Provider(m) => m.clone(),
            AdvancePersistenceError::Persistence(p) => p.message(),
            AdvancePersistenceError::FenceRepairUnavailable { mismatch } => join_two(
                "engine persistence fence cannot converge with pipeline backfill disabled: ",
                mismatch.message().as_str(),
            ),
            AdvancePersistenceError::FenceRepairTargetMissing { block_number } => {
                let mut s = join_two(
                    "engine persistence fence cannot find block ",
                    decimal(*block_number).as_str(),
                );
                s.append(" for pipeline convergence");
                s
            },
            AdvancePersistenceError::FenceRepairDispatchFailed =>
                "engine persistence fence could not dispatch its pipeline convergence action".to_owned(),
            AdvancePersistenceError::FenceRepairFailed {
                target,
                initial,
                previous_finish,
                current_finish,
                current,
            } => {
                let head = join_five(
                    "engine persistence fence convergence to ",
                    identity(target).as_str(),
                    " stalled: initial=",
                    initial.message().as_str(),
                    "; previous Finish=",
                );
                let tail = join_five(
                    height(*previous_finish).as_str(),
                    "; current Finish=",
                    height(*current_finish).as_str(),
                    "; current=",
                    current.message().as_str(),
                );
                join_two(head.as_str(), tail.as_str())
            },
            AdvancePersistenceError::FenceBatchRejected { mismatch } => join_two(
                "engine persistence batch rejected before dispatch: ",
                mismatch.message().as_str(),
            ),
            AdvancePersistenceError::UnsafeShutdownFence { mismatch } => join_two(
                "refusing unsafe graceful persistence flush: ",
                mismatch.message().as_str(),
            ),
            AdvancePersistenceError::UnsafeShutdownPipelineBusy =>
                "refusing graceful persistence flush while pipeline backfill is pending or active".to_owned(),
        }
    }
}

// ------------------------------------------------------------ inserted blocks

/// An error inside block execution that no block can be blamed for.
#[derive(Debug)]
pub enum InternalBlockExecutionError {
    /// The virtual machine failed.
    EVM(String),
    /// Anything else.
    Other(String),
}

/// An error of block execution.
#[derive(Debug)]
pub enum BlockExecutionError {
    /// The block is invalid.
    Validation(String),
    /// Execution itself failed.
    Internal(InternalBlockExecutionError),
}

/// Why a block could not be inserted.
#[derive(Debug)]
pub enum InsertBlockErrorKind {
    /// The block violated consensus rules.
    Consensus(String),
    /// Block execution failed.
    Execution(BlockExecutionError),
    /// Provider error.
    Provider(String),
    /// Other errors.
    Other(String),
}

/// Errors that an invalid block causes.
#[derive(Debug)]
pub enum InsertBlockValidationError {
    /// The block violated consensus rules.
    Consensus(String),
    /// The block failed validation.
    Validation(String),
}

/// Errors that no invalid block causes.
#[derive(Debug)]
pub enum InsertBlockFatalError {
    /// A provider error.
    Provider(String),
    /// An internal error of block execution.
    BlockExecutionError(InternalBlockExecutionError),
    /// A fatal persistence failure.
    Persistence(AdvancePersistenceError),
    /// The persistence failure was returned to the caller; the tree must stop
    /// all the same.
    RethNewPayloadPersistenceFailureDelivered,
    /// The acknowledgement of a pending backfill could not be delivered.
    BackfillPendingAcknowledgementClosed,
    /// A pipeline started without an acknowledged handoff.
    BackfillStartedWithoutPending,
    /// A pipeline started though pipeline backfill is disabled.
    BackfillStartedWhileDisabled,
}

/// The error is one that an invalid block causes.
pub open spec fn is_validation(kind: InsertBlockErrorKind) -> bool {
    match kind {
        InsertBlockErrorKind::Consensus(_) => true,
        InsertBlockErrorKind::Execution(BlockExecutionError::Validation(_)) => true,
        _ => false,
    }
}

impl InsertBlockErrorKind {
    /// What is said of the error.
    pub open spec fn text(self) -> Seq<char> {
        match self {
            InsertBlockErrorKind::Consensus(m) => m@,
            InsertBlockErrorKind::Execution(BlockExecutionError::Validation(m)) => m@,
            InsertBlockErrorKind::Execution(
                BlockExecutionError::Internal(InternalBlockExecutionError::EVM(m)),
            ) => m@,
            InsertBlockErrorKind::Execution(
                BlockExecutionError::Internal(InternalBlockExecutionError::Other(m)),
            ) => m@,
            InsertBlockErrorKind::Provider(m) => m@,
            InsertBlockErrorKind::Other(m) => m@,
        }
    }

    /// What is said of the error.
    pub fn message(&self) -> (r: String)
        ensures
            r@ == self.text(),
    {
        match self {
            InsertBlockErrorKind::Consensus(m) => m.clone(),
            InsertBlockErrorKind::Execution(e) => match e {
                BlockExecutionError::Validation(m) => m.clone(),
                BlockExecutionError::Internal(i) => match i {
                    InternalBlockExecutionError::EVM(m) => m.clone(),
                    InternalBlockExecutionError::Other(m) => m.clone(),
                },
            },
            InsertBlockErrorKind::Provider(m) => m.clone(),
            InsertBlockErrorKind::Other(m) => m.clone(),
        }
    }

    /// The validation error, where an invalid block caused the error; else the
    /// fatal one. A new block is answered as invalid only in the first case.
    pub fn ensure_validation_error(self) -> (r: Result<
        InsertBlockValidationError,
        InsertBlockFatalError,
    >)
        ensures
            r is Ok <==> is_validation(self),
            match self {
                InsertBlockErrorKind::Consensus(m) => r == Ok::<_, InsertBlockFatalError>(
                    InsertBlockValidationError::Consensus(m),
                ),
                InsertBlockErrorKind::Execution(e) => match e {
                    BlockExecutionError::Validation(m) => r == Ok::<_, InsertBlockFatalError>(
                        InsertBlockValidationError::Validation(m),
                    ),
                    BlockExecutionError::Internal(i) => r == Err::<InsertBlockValidationError, _>(
                        InsertBlockFatalError::BlockExecutionError(i),
                    ),
                },
                InsertBlockErrorKind::Provider(m) => r == Err::<InsertBlockValidationError, _>(
                    InsertBlockFatalError::Provider(m),
                ),
                InsertBlockErrorKind::Other(m) => r == Err::<InsertBlockValidationError, _>(
                    InsertBlockFatalError::BlockExecutionError(
                        InternalBlockExecutionError::Other(m),
                    ),
                ),
            },
    {
        match self {
            InsertBlockErrorKind::Consensus(m) => Ok(InsertBlockValidationError::Consensus(m)),
            InsertBlockErrorKind::Execution(e) => match e {
                BlockExecutionError::Validation(m) => Ok(
                    InsertBlockValidationError::Validation(m),
                ),
                BlockExecutionError::Internal(i) => Err(
                    InsertBlockFatalError::BlockExecutionError(i),
                ),
            },
            InsertBlockErrorKind::Provider(m) => Err(InsertBlockFatalError::Provider(m)),
            InsertBlockErrorKind::Other(m) => Err(
                InsertBlockFatalError::BlockExecutionError(InternalBlockExecutionError::Other(m)),
            ),
        }
    }
}

impl InsertBlockFatalError {
    /// What is said of the error.
    pub open spec fn text(self) -> Seq<char> {
        match self {
            InsertBlockFatalError::Provider(m) => m@,
            InsertBlockFatalError::BlockExecutionError(InternalBlockExecutionError::EVM(m)) => m@,
            InsertBlockFatalError::BlockExecutionError(InternalBlockExecutionError::Other(m)) => m@,
            InsertBlockFatalError::Persistence(e) => advance_message_of(e),
            InsertBlockFatalError::RethNewPayloadPersistenceFailureDelivered =>
                "fatal reth_newPayload persistence failure was delivered to the caller"@,
            InsertBlockFatalError::BackfillPendingAcknowledgementClosed =>
                "backfill-pending acknowledgement receiver closed"@,
            InsertBlockFatalError::BackfillStartedWithoutPending =>
                "pipeline backfill started without an acknowledged pending handoff"@,
            InsertBlockFatalError::BackfillStartedWhileDisabled =>
                "pipeline backfill started while pipeline backfill is disabled"@,
        }
    }

    /// What is said of the error.
    pub fn message(&self) -> (r: String)
        ensures
            r@ == self.text(),
    {
        match self {
            InsertBlockFatalError::Provider(m) => m.clone(),
            InsertBlockFatalError::BlockExecutionError(i) => match i {
                InternalBlockExecutionError::EVM(m) => m.clone(),
                InternalBlockExecutionError::Other(m) => m.clone(),
            },
            InsertBlockFatalError::Persistence(e) => e.message(),
            InsertBlockFatalError::RethNewPayloadPersistenceFailureDelivered =>
                "fatal reth_newPayload persistence failure was delivered to the caller".to_owned(),
            InsertBlockFatalError::BackfillPendingAcknowledgementClosed =>
                "backfill-pending acknowledgement receiver closed".to_owned(),
            InsertBlockFatalError::BackfillStartedWithoutPending =>
                "pipeline backfill started without an acknowledged pending handoff".to_owned(),
            InsertBlockFatalError::BackfillStartedWhileDisabled =>
                "pipeline backfill started while pipeline backfill is disabled".to_owned(),
        }
    }
}

/// A block whose hash is known.
#[derive(Debug)]
pub struct SealedBlock<B> {
    pub hash: B256,
    pub number: u64,
    pub parent_hash: B256,
    pub body: B,
}

/// A block that could not be inserted, and why.
#[derive(Debug)]
pub struct InsertBlockError<B> {
    block: Box<SealedBlock<B>>,
    kind: InsertBlockErrorKind,
}

impl<B> InsertBlockError<B> {
    /// The block.
    pub closed spec fn the_block(self) -> SealedBlock<B> {
        *self.block
    }

    /// Why it could not be inserted.
    pub closed spec fn the_kind(self) -> InsertBlockErrorKind {
        self.kind
    }

    /// What is said of the error.
    pub open spec fn text(self) -> Seq<char> {
        "Failed to insert block (hash="@ + hash::b256_text(self.the_block().hash) + ", number="@
            + text::decimal_digits(self.the_block().number as nat) + ", parent_hash="@
            + hash::b256_text(self.the_block().parent_hash) + "): "@ + self.the_kind().text()
    }

    /// The error for this block.
    pub fn new(block: SealedBlock<B>, kind: InsertBlockErrorKind) -> (r: Self)
        ensures
            r.the_block() == block,
            r.the_kind() == kind,
    {
        InsertBlockError { block: Box::new(block), kind }
    }

    /// The error for this block, which violated consensus rules.
    pub fn consensus_error(error: String, block: SealedBlock<B>) -> (r: Self)
        ensures
            r.the_block() == block,
            r.the_kind() == InsertBlockErrorKind::Consensus(error),
    {
        Self::new(block, InsertBlockErrorKind::Consensus(error))
    }

    /// Gives the block back.
    pub fn into_block(self) -> (r: SealedBlock<B>)
        ensures
            r == self.the_block(),
    {
        *self.block
    }

    /// Why the block could not be inserted.
    pub fn kind(&self) -> (r: &InsertBlockErrorKind)
        ensures
            *r == self.the_kind(),
    {
        &self.kind
    }

    /// The block.
    pub fn block(&self) -> (r: &SealedBlock<B>)
        ensures
            *r == self.the_block(),
    {
        &self.block
    }

    /// The block, and why it could not be inserted.
    pub fn split(self) -> (r: (SealedBlock<B>, InsertBlockErrorKind))
        ensures
            r.0 == self.the_block(),
            r.1 == self.the_kind(),
    {
        (*self.block, self.kind)
    }

    /// What is said of the error.
    pub fn message(&self) -> (r: String)
        ensures
            r@ == self.text(),
    {
        let mut s: String = "Failed to insert block (hash=".to_owned();
        s.append(hex_b256(&self.block.hash).as_str());
        s.append(", number=");
        s.append(decimal(self.block.number).as_str());
        s.append(", parent_hash=");
        s.append(hex_b256(&self.block.parent_hash).as_str());
        s.append("): ");
        s.append(self.kind.message().as_str());
        s
    }
}

/// Errors that may occur when a payload is inserted.
#[derive(Debug)]
pub enum InsertPayloadError<B> {
    /// The block could not be inserted.
    Block(InsertBlockError<B>),
    /// The payload is invalid.
    Payload(String),
}

impl<B> InsertPayloadError<B> {
    /// What is said of the error.
    pub fn message(&self) -> (r: String)
        ensures
            r@ == (match *self {
                InsertPayloadError::Block(e) => e.text(),
                InsertPayloadError::Payload(m) => m@,
            }),
    {
        match self {
            InsertPayloadError::Block(e) => e.message(),
            InsertPayloadError::Payload(m) => m.clone(),
        }
    }
}

} // verus!
