//! What the messages say: in which words, and of which numbers, blocks and hashes.

use vstd::prelude::*;

use crate::error::{
    AdvancePersistenceError, BlockExecutionError, InsertBlockError, InsertBlockErrorKind,
    InsertBlockFatalError, InsertBlockValidationError, InsertPayloadError,
    InternalBlockExecutionError, SealedBlock,
};
use crate::error;
use crate::hash;
use crate::launch;
use crate::launch::TreeConfig;
use crate::persistence::PersistenceError;
use crate::persistence_fence;
use crate::persistence_fence::{PersistenceFenceError, StageId};
use crate::primitives::{BlockNumHash, B256};
use crate::readback;
use crate::text;

verus! {

/// `t` says `n`: in decimal digits, without a zero in front.
pub open spec fn says_number(t: Seq<char>, n: u64) -> bool {
    &&& t.len() > 0
    &&& readback::decimal_read(t) == n
    &&& forall|i: int| 0 <= i < t.len() ==> 0x30 <= #[trigger] t[i] as u32 <= 0x39
    &&& t[0] == '0' ==> t.len() == 1
}

/// `t` says `h`: `0x`, and then two digits for each byte.
pub open spec fn says_hash(t: Seq<char>, h: B256) -> bool {
    &&& t.len() == 66
    &&& t[0] == '0'
    &&& t[1] == 'x'
    &&& text::pair_bytes(t.skip(2)) == Some(h.bytes())
}

/// `t` is made of words and of what is said of a number and a hash between them.
pub open spec fn number_and_hash(t: Seq<char>, n: Seq<char>, h: Seq<char>, b: BlockNumHash) -> bool {
    &&& says_number(n, b.number)
    &&& says_hash(h, b.hash)
    &&& t == "NumHash { number: "@ + n + ", hash: "@ + h + " }"@
}

/// `t` says which block `b` is: its number, and its hash.
pub open spec fn says_block(t: Seq<char>, b: BlockNumHash) -> bool {
    exists|n: Seq<char>, h: Seq<char>| #[trigger] number_and_hash(t, n, h, b)
}

proof fn lemma_number(n: u64)
    ensures
        says_number(text::decimal_digits(n as nat), n),
{
    readback::lemma_decimal_says(n as nat);
}

proof fn lemma_hash(h: B256)
    ensures
        says_hash(hash::b256_text(h), h),
{
    readback::lemma_b256_text(h, 0);
    text::lemma_hex_round_trip(h.bytes());
    assert(hash::b256_text(h).skip(2) =~= text::hex_digits(h.bytes()));
}

proof fn lemma_block(b: BlockNumHash)
    ensures
        says_block(persistence_fence::identity_text(b), b),
{
    lemma_number(b.number);
    lemma_hash(b.hash);
    assert(number_and_hash(
        persistence_fence::identity_text(b),
        text::decimal_digits(b.number as nat),
        hash::b256_text(b.hash),
        b,
    ));
}

/// A block is told by its number and its hash.
pub proof fn lemma_identity(b: BlockNumHash, r: String)
    requires
        call_ensures(persistence_fence::identity, (&b,), r),
    ensures
        says_block(r@, b),
{
    lemma_block(b);
}

/// Five texts, one after the other.
pub proof fn lemma_five(a: &str, b: &str, c: &str, d: &str, e: &str, r: String)
    requires
        call_ensures(persistence_fence::join_five, (a, b, c, d, e), r),
    ensures
        r@ == a@ + (b@ + (c@ + (d@ + e@))),
{
    assert(r@ =~= a@ + (b@ + (c@ + (d@ + e@))));
}

/// A stage is told by its name, and no two stages by the same one.
pub proof fn lemma_stage_names(s: StageId, t: StageId, a: &'static str, b: &'static str)
    requires
        call_ensures(persistence_fence::stage_name, (s,), a),
        call_ensures(persistence_fence::stage_name, (t,), b),
    ensures
        a@ == b@ <==> s == t,
        s is Finish <==> a@ == "Finish"@,
        s is Headers <==> a@ == "Headers"@,
        s is Bodies <==> a@ == "Bodies"@,
        s is SenderRecovery <==> a@ == "SenderRecovery"@,
        s is Execution <==> a@ == "Execution"@,
        s is MerkleUnwind <==> a@ == "MerkleUnwind"@,
        s is AccountHashing <==> a@ == "AccountHashing"@,
        s is StorageHashing <==> a@ == "StorageHashing"@,
        s is MerkleExecute <==> a@ == "MerkleExecute"@,
        s is TransactionLookup <==> a@ == "TransactionLookup"@,
        s is IndexStorageHistory <==> a@ == "IndexStorageHistory"@,
        s is IndexAccountHistory <==> a@ == "IndexAccountHistory"@,
        s is Prune <==> a@ == "Prune"@,
        s is PruneSenderRecovery <==> a@ == "PruneSenderRecovery"@,
        s is Era <==> a@ == "Era"@,
{
    reveal_strlit("Finish");
    reveal_strlit("Headers");
    reveal_strlit("Bodies");
    reveal_strlit("SenderRecovery");
    reveal_strlit("Execution");
    reveal_strlit("MerkleUnwind");
    reveal_strlit("AccountHashing");
    reveal_strlit("StorageHashing");
    reveal_strlit("MerkleExecute");
    reveal_strlit("TransactionLookup");
    reveal_strlit("IndexStorageHistory");
    reveal_strlit("IndexAccountHistory");
    reveal_strlit("Prune");
    reveal_strlit("PruneSenderRecovery");
    reveal_strlit("Era");
    assert("Prune"@.len() == 5 && "Era"@.len() == 3 && "Finish"@.len() == 6 && "Bodies"@.len()
        == 6 && "Headers"@.len() == 7 && "Execution"@.len() == 9 && "MerkleUnwind"@.len() == 12
        && "MerkleExecute"@.len() == 13 && "SenderRecovery"@.len() == 14
        && "AccountHashing"@.len() == 14 && "StorageHashing"@.len() == 14
        && "TransactionLookup"@.len() == 17 && "PruneSenderRecovery"@.len() == 19
        && "IndexStorageHistory"@.len() == 19 && "IndexAccountHistory"@.len() == 19);
    assert("Finish"@[0] == 'F' && "Bodies"@[0] == 'B');
    assert("SenderRecovery"@[1] == 'e' && "AccountHashing"@[1] == 'c' && "StorageHashing"@[1]
        == 't');
    assert("PruneSenderRecovery"@[5] == 'S' && "IndexStorageHistory"@[5] == 'S'
        && "IndexAccountHistory"@[5] == 'A' && "IndexStorageHistory"@[0] == 'I'
        && "PruneSenderRecovery"@[0] == 'P');
}

// --------------------------------------------------------------------- fence

/// Words, and one number.
pub open spec fn one_number(m: Seq<char>, a: Seq<char>, n: Seq<char>, b: Seq<char>, x: u64) -> bool {
    says_number(n, x) && m == a + n + b
}

/// Words, and two numbers.
pub open spec fn two_numbers(
    m: Seq<char>,
    a: Seq<char>,
    n: Seq<char>,
    b: Seq<char>,
    k: Seq<char>,
    x: u64,
    y: u64,
) -> bool {
    says_number(n, x) && says_number(k, y) && m == a + n + b + k
}

/// Words, and two blocks.
pub open spec fn two_blocks(
    m: Seq<char>,
    a: Seq<char>,
    n: Seq<char>,
    b: Seq<char>,
    k: Seq<char>,
    x: BlockNumHash,
    y: BlockNumHash,
) -> bool {
    says_block(n, x) && says_block(k, y) && m == a + n + b + k
}

/// Words, a block, its parent, and the block that the parent is not.
pub open spec fn with_parent(
    m: Seq<char>,
    w: (Seq<char>, Seq<char>),
    n: Seq<char>,
    h: Seq<char>,
    k: Seq<char>,
    block: BlockNumHash,
    parent: B256,
    other: BlockNumHash,
) -> bool {
    says_block(n, block) && says_hash(h, parent) && says_block(k, other) && m == w.0 + n
        + " has parent "@ + h + w.1 + k
}

/// What is said of a fault at the fence.
pub open spec fn tells_fault(m: Seq<char>, e: PersistenceFenceError) -> bool {
    match e {
        PersistenceFenceError::MissingFinish => m == "Finish checkpoint is missing"@,
        PersistenceFenceError::FinishDoesNotMatchLastPersisted {
            finish,
            last_persisted,
        } => exists|n: Seq<char>, k: Seq<char>| #[trigger]
            two_numbers(
                m,
                "Finish checkpoint "@,
                n,
                " does not match last persisted block "@,
                k,
                finish,
                last_persisted,
            ),
        PersistenceFenceError::MissingFinishBlockHash { finish } => exists|n: Seq<char>| #[trigger]
            one_number(
                m,
                "canonical block hash for Finish checkpoint "@,
                n,
                " is missing"@,
                finish,
            ),
        PersistenceFenceError::FinishHashDoesNotMatchLastPersisted {
            finish,
            last_persisted,
        } => exists|n: Seq<char>, k: Seq<char>| #[trigger]
            two_blocks(
                m,
                "Finish block "@,
                n,
                " does not match last persisted block "@,
                k,
                finish,
                last_persisted,
            ),
        PersistenceFenceError::MissingOwnerStage { stage, finish } => exists|n: Seq<char>|
            #[trigger]
            one_number(
                m,
                "owner stage "@ + persistence_fence::stage_name_of(stage)
                    + " is missing while Finish is "@,
                n,
                Seq::empty(),
                finish,
            ),
        PersistenceFenceError::OwnerStageDoesNotMatchFinish {
            stage,
            checkpoint,
            finish,
        } => exists|n: Seq<char>, k: Seq<char>| #[trigger]
            two_numbers(
                m,
                "owner stage "@ + persistence_fence::stage_name_of(stage) + " checkpoint "@,
                n,
                " does not match Finish "@,
                k,
                checkpoint,
                finish,
            ),
        PersistenceFenceError::FirstBlockDoesNotExtendFinish { first_block, finish } => exists|
            n: Seq<char>,
            k: Seq<char>,
        | #[trigger]
            two_numbers(
                m,
                "first Engine persistence block "@,
                n,
                " does not extend Finish "@,
                k,
                first_block,
                finish,
            ),
        PersistenceFenceError::FirstBlockParentDoesNotMatchFinish {
            first_block,
            parent_hash,
            finish,
        } => exists|n: Seq<char>, h: Seq<char>, k: Seq<char>| #[trigger]
            with_parent(
                m,
                ("first Engine persistence block "@, ", not Finish "@),
                n,
                h,
                k,
                first_block,
                parent_hash,
                finish,
            ),
        PersistenceFenceError::BatchBlockDoesNotExtendPrevious { previous, block } => exists|
            n: Seq<char>,
            k: Seq<char>,
        | #[trigger]
            two_blocks(
                m,
                "Engine persistence batch block "@,
                n,
                " does not extend previous block "@,
                k,
                block,
                previous,
            ),
        PersistenceFenceError::BatchBlockParentDoesNotMatchPrevious {
            previous,
            block,
            parent_hash,
        } => exists|n: Seq<char>, h: Seq<char>, k: Seq<char>| #[trigger]
            with_parent(
                m,
                ("Engine persistence batch block "@, ", not previous block "@),
                n,
                h,
                k,
                block,
                parent_hash,
                previous,
            ),
    }
}

proof fn lemma_tells_fault(e: PersistenceFenceError)
    ensures
        tells_fault(persistence_fence::fence_message_of(e), e),
{
    reveal_strlit("");
    let m = persistence_fence::fence_message_of(e);
    let none = ""@;
    assert(none =~= Seq::<char>::empty());
    match e {
        PersistenceFenceError::MissingFinish => {},
        PersistenceFenceError::FinishDoesNotMatchLastPersisted { finish, last_persisted } => {
            lemma_number(finish);
            lemma_number(last_persisted);
            let n = text::decimal_digits(finish as nat);
            let k = text::decimal_digits(last_persisted as nat);
            let a = "Finish checkpoint "@;
            let b = " does not match last persisted block "@;
            assert(m =~= a + n + b + k);
            assert(two_numbers(m, a, n, b, k, finish, last_persisted));
        },
        PersistenceFenceError::MissingFinishBlockHash { finish } => {
            lemma_number(finish);
            let n = text::decimal_digits(finish as nat);
            let a = "canonical block hash for Finish checkpoint "@;
            let b = " is missing"@;
            assert(m =~= a + n + b);
            assert(one_number(m, a, n, b, finish));
        },
        PersistenceFenceError::FinishHashDoesNotMatchLastPersisted { finish, last_persisted } => {
            lemma_block(finish);
            lemma_block(last_persisted);
            let n = persistence_fence::identity_text(finish);
            let k = persistence_fence::identity_text(last_persisted);
            let a = "Finish block "@;
            let b = " does not match last persisted block "@;
            assert(m =~= a + n + b + k);
            assert(two_blocks(m, a, n, b, k, finish, last_persisted));
        },
        PersistenceFenceError::MissingOwnerStage { stage, finish } => {
            lemma_number(finish);
            let n = text::decimal_digits(finish as nat);
            let a = "owner stage "@ + persistence_fence::stage_name_of(stage)
                + " is missing while Finish is "@;
            assert(m =~= a + n + Seq::<char>::empty());
            assert(one_number(m, a, n, Seq::empty(), finish));
        },
        PersistenceFenceError::OwnerStageDoesNotMatchFinish { stage, checkpoint, finish } => {
            lemma_number(finish);
            lemma_number(checkpoint);
            let n = text::decimal_digits(checkpoint as nat);
            let k = text::decimal_digits(finish as nat);
            let a = "owner stage "@ + persistence_fence::stage_name_of(stage) + " checkpoint "@;
            let b = " does not match Finish "@;
            assert(m =~= a + n + b + k);
            assert(two_numbers(m, a, n, b, k, checkpoint, finish));
        },
        PersistenceFenceError::FirstBlockDoesNotExtendFinish { first_block, finish } => {
            lemma_number(first_block);
            lemma_number(finish);
            let n = text::decimal_digits(first_block as nat);
            let k = text::decimal_digits(finish as nat);
            let a = "first Engine persistence block "@;
            let b = " does not extend Finish "@;
            assert(m =~= a + n + b + k);
            assert(two_numbers(m, a, n, b, k, first_block, finish));
        },
        PersistenceFenceError::FirstBlockParentDoesNotMatchFinish {
            first_block,
            parent_hash,
            finish,
        } => {
            lemma_block(first_block);
            lemma_hash(parent_hash);
            lemma_block(finish);
            let n = persistence_fence::identity_text(first_block);
            let h = hash::b256_text(parent_hash);
            let k = persistence_fence::identity_text(finish);
            let w = ("first Engine persistence block "@, ", not Finish "@);
            assert(m =~= w.0 + n + " has parent "@ + h + w.1 + k);
            assert(with_parent(m, w, n, h, k, first_block, parent_hash, finish));
        },
        PersistenceFenceError::BatchBlockDoesNotExtendPrevious { previous, block } => {
            lemma_block(previous);
            lemma_block(block);
            let n = persistence_fence::identity_text(block);
            let k = persistence_fence::identity_text(previous);
            let a = "Engine persistence batch block "@;
            let b = " does not extend previous block "@;
            assert(m =~= a + n + b + k);
            assert(two_blocks(m, a, n, b, k, block, previous));
        },
        PersistenceFenceError::BatchBlockParentDoesNotMatchPrevious {
            previous,
            block,
            parent_hash,
        } => {
            lemma_block(block);
            lemma_hash(parent_hash);
            lemma_block(previous);
            let n = persistence_fence::identity_text(block);
            let h = hash::b256_text(parent_hash);
            let k = persistence_fence::identity_text(previous);
            let w = ("Engine persistence batch block "@, ", not previous block "@);
            assert(m =~= w.0 + n + " has parent "@ + h + w.1 + k);
            assert(with_parent(m, w, n, h, k, block, parent_hash, previous));
        },
    }
}

/// A fault at the fence is told with the numbers, blocks and hashes that it is about,
/// each in its place, and is put down to the stage that it is about, or to the durable
/// watermark.
pub proof fn lemma_fence_fault(
    e: PersistenceFenceError,
    m: String,
    stage: StageId,
    reason: &'static str,
)
    requires
        call_ensures(PersistenceFenceError::message, (&e,), m),
        call_ensures(PersistenceFenceError::stage, (&e,), stage),
        call_ensures(PersistenceFenceError::reason, (&e,), reason),
    ensures
        tells_fault(m@, e),
        e matches PersistenceFenceError::MissingOwnerStage { stage: s, .. } ==> stage == s
            && reason@ == "missing_owner"@,
        e matches PersistenceFenceError::OwnerStageDoesNotMatchFinish { stage: s, .. } ==> stage
            == s && reason@ == "owner_finish_mismatch"@,
        !(e is MissingOwnerStage || e is OwnerStageDoesNotMatchFinish) ==> stage is Finish,
        e is MissingFinish ==> reason@ == "missing_finish"@,
        e is FinishDoesNotMatchLastPersisted ==> reason@ == "finish_last_persisted_mismatch"@,
        e is MissingFinishBlockHash ==> reason@ == "missing_finish_hash"@,
        e is FinishHashDoesNotMatchLastPersisted ==> reason@ == "finish_hash_mismatch"@,
        e is FirstBlockDoesNotExtendFinish || e is BatchBlockDoesNotExtendPrevious ==> reason@
            == "non_contiguous_batch"@,
        e is FirstBlockParentDoesNotMatchFinish || e is BatchBlockParentDoesNotMatchPrevious
            ==> reason@ == "wrong_parent"@,
{
    lemma_tells_fault(e);
}

// -------------------------------------------------------------- persistence

/// What is said of a failure of the persistence service.
pub open spec fn tells_failure(m: Seq<char>, e: PersistenceError) -> bool {
    match e {
        PersistenceError::Fence(f) => tells_fault(m, f),
        PersistenceError::PrunerError(s) => m == s@,
        PersistenceError::ProviderError(s) => m == s@,
    }
}

/// A failure of the persistence service is told in its own words.
pub proof fn lemma_failure(e: PersistenceError, m: String)
    requires
        call_ensures(PersistenceError::message, (&e,), m),
    ensures
        tells_failure(m@, e),
{
    if let PersistenceError::Fence(f) = e {
        lemma_tells_fault(f);
    }
}

/// `t` says a height, or that there is none.
pub open spec fn says_height(t: Seq<char>, n: Option<u64>) -> bool {
    match n {
        None => t == "None"@,
        Some(v) => exists|d: Seq<char>| #[trigger] one_number(t, "Some("@, d, ")"@, v),
    }
}

proof fn lemma_height(n: Option<u64>)
    ensures
        says_height(error::height_text(n), n),
{
    if let Some(v) = n {
        lemma_number(v);
        assert(one_number(
            error::height_text(n),
            "Some("@,
            text::decimal_digits(v as nat),
            ")"@,
            v,
        ));
    }
}

/// Words, and a fault at the fence.
pub open spec fn one_fault(m: Seq<char>, a: Seq<char>, t: Seq<char>, e: PersistenceFenceError) -> bool {
    tells_fault(t, e) && m == a + t
}

/// What a repair that has stalled was about.
pub open spec fn stalled(
    m: Seq<char>,
    b: Seq<char>,
    i: Seq<char>,
    p: Seq<char>,
    c: Seq<char>,
    f: Seq<char>,
    e: AdvancePersistenceError,
) -> bool {
    e matches AdvancePersistenceError::FenceRepairFailed {
        target,
        initial,
        previous_finish,
        current_finish,
        current,
    } && says_block(b, target) && tells_fault(i, initial) && says_height(p, previous_finish)
        && says_height(c, current_finish) && tells_fault(f, current) && m
        == "engine persistence fence convergence to "@ + b + " stalled: initial="@ + i
        + "; previous Finish="@ + p + "; current Finish="@ + c + "; current="@ + f
}

/// What is said of a failure to persist.
pub open spec fn tells_advance(m: Seq<char>, e: AdvancePersistenceError) -> bool {
    match e {
        AdvancePersistenceError::ChannelClosed => m == "persistence channel closed"@,
        AdvancePersistenceError::Provider(s) => m == s@,
        AdvancePersistenceError::Persistence(p) => tells_failure(m, p),
        AdvancePersistenceError::FenceRepairUnavailable { mismatch } => exists|t: Seq<char>|
            #[trigger]
            one_fault(
                m,
                "engine persistence fence cannot converge with pipeline backfill disabled: "@,
                t,
                mismatch,
            ),
        AdvancePersistenceError::FenceRepairTargetMissing { block_number } => exists|n: Seq<char>|
            #[trigger]
            one_number(
                m,
                "engine persistence fence cannot find block "@,
                n,
                " for pipeline convergence"@,
                block_number,
            ),
        AdvancePersistenceError::FenceRepairDispatchFailed => m
            == "engine persistence fence could not dispatch its pipeline convergence action"@,
        AdvancePersistenceError::FenceRepairFailed { .. } => exists|
            b: Seq<char>,
            i: Seq<char>,
            p: Seq<char>,
            c: Seq<char>,
            f: Seq<char>,
        | #[trigger]
            stalled(m, b, i, p, c, f, e),
        AdvancePersistenceError::FenceBatchRejected { mismatch } => exists|t: Seq<char>| #[trigger]
            one_fault(
                m,
                "engine persistence batch rejected before dispatch: "@,
                t,
                mismatch,
            ),
        AdvancePersistenceError::UnsafeShutdownFence { mismatch } => exists|t: Seq<char>| #[trigger]
            one_fault(m, "refusing unsafe graceful persistence flush: "@, t, mismatch),
        AdvancePersistenceError::UnsafeShutdownPipelineBusy => m
            == "refusing graceful persistence flush while pipeline backfill is pending or active"@,
    }
}

proof fn lemma_stalled(e: AdvancePersistenceError)
    requires
        e is FenceRepairFailed,
    ensures
        exists|b: Seq<char>, i: Seq<char>, p: Seq<char>, c: Seq<char>, f: Seq<char>| #[trigger]
            stalled(error::advance_message_of(e), b, i, p, c, f, e),
{
    let m = error::advance_message_of(e);
    lemma_block(e->target);
    lemma_tells_fault(e->initial);
    lemma_tells_fault(e->current);
    lemma_height(e->previous_finish);
    lemma_height(e->current_finish);
    let b = persistence_fence::identity_text(e->target);
    let i = persistence_fence::fence_message_of(e->initial);
    let p = error::height_text(e->previous_finish);
    let c = error::height_text(e->current_finish);
    let f = persistence_fence::fence_message_of(e->current);
    lemma_ten(
        "engine persistence fence convergence to "@,
        b,
        " stalled: initial="@,
        i,
        "; previous Finish="@,
        p,
        "; current Finish="@,
        c,
        "; current="@,
        f,
    );
    assert(stalled(m, b, i, p, c, f, e));
}

proof fn lemma_ten(
    a: Seq<char>,
    b: Seq<char>,
    c: Seq<char>,
    d: Seq<char>,
    e: Seq<char>,
    f: Seq<char>,
    g: Seq<char>,
    h: Seq<char>,
    i: Seq<char>,
    j: Seq<char>,
)
    ensures
        persistence_fence::five(a, b, c, d, e) + persistence_fence::five(f, g, h, i, j) == a + b + c
            + d + e + f + g + h + i + j,
{
    let x = a + b + c + d + e;
    assert(x + (f + g + h + i + j) =~= x + f + g + h + i + j);
}

pub(crate) proof fn lemma_tells_advance(e: AdvancePersistenceError)
    ensures
        tells_advance(error::advance_message_of(e), e),
{
    let m = error::advance_message_of(e);
    match e {
        AdvancePersistenceError::Persistence(p) => {
            if let PersistenceError::Fence(f) = p {
                lemma_tells_fault(f);
            }
        },
        AdvancePersistenceError::FenceRepairUnavailable { mismatch } => {
            lemma_tells_fault(mismatch);
            assert(one_fault(
                m,
                "engine persistence fence cannot converge with pipeline backfill disabled: "@,
                persistence_fence::fence_message_of(mismatch),
                mismatch,
            ));
        },
        AdvancePersistenceError::FenceRepairTargetMissing { block_number } => {
            lemma_number(block_number);
            assert(one_number(
                m,
                "engine persistence fence cannot find block "@,
                text::decimal_digits(block_number as nat),
                " for pipeline convergence"@,
                block_number,
            ));
        },
        AdvancePersistenceError::FenceRepairFailed { .. } => {
            lemma_stalled(e);
        },
        AdvancePersistenceError::FenceBatchRejected { mismatch } => {
            lemma_tells_fault(mismatch);
            assert(one_fault(
                m,
                "engine persistence batch rejected before dispatch: "@,
                persistence_fence::fence_message_of(mismatch),
                mismatch,
            ));
        },
        AdvancePersistenceError::UnsafeShutdownFence { mismatch } => {
            lemma_tells_fault(mismatch);
            assert(one_fault(
                m,
                "refusing unsafe graceful persistence flush: "@,
                persistence_fence::fence_message_of(mismatch),
                mismatch,
            ));
        },
        _ => {},
    }
}

/// A failure to persist is told with the fault, the block and the heights that it is
/// about, each in its place.
pub proof fn lemma_advance(e: AdvancePersistenceError, m: String)
    requires
        call_ensures(AdvancePersistenceError::message, (&e,), m),
    ensures
        tells_advance(m@, e),
{
    lemma_tells_advance(e);
}

// ----------------------------------------------------------------- insertion

/// What the kind of a failed insertion says of itself.
pub open spec fn inner(kind: InsertBlockErrorKind) -> String {
    match kind {
        InsertBlockErrorKind::Consensus(m) => m,
        InsertBlockErrorKind::Provider(m) => m,
        InsertBlockErrorKind::Other(m) => m,
        InsertBlockErrorKind::Execution(BlockExecutionError::Validation(m)) => m,
        InsertBlockErrorKind::Execution(BlockExecutionError::Internal(i)) => inside(i),
    }
}

/// What an internal failure says of itself.
pub open spec fn inside(e: InternalBlockExecutionError) -> String {
    match e {
        InternalBlockExecutionError::EVM(m) => m,
        InternalBlockExecutionError::Other(m) => m,
    }
}

/// A failed insertion is a fault of the block, or one of the node: what was said of it
/// goes along, and nothing but consensus and a failed validation is held against the
/// block.
pub proof fn lemma_fault_of_block(
    kind: InsertBlockErrorKind,
    m: String,
    r: Result<InsertBlockValidationError, InsertBlockFatalError>,
)
    requires
        call_ensures(InsertBlockErrorKind::message, (&kind,), m),
        call_ensures(InsertBlockErrorKind::ensure_validation_error, (kind,), r),
    ensures
        m@ == inner(kind)@,
        r is Ok <==> kind is Consensus || (kind is Execution && kind->Execution_0 is Validation),
        r matches Ok(InsertBlockValidationError::Consensus(s)) ==> kind is Consensus && s == inner(
            kind,
        ),
        r matches Ok(InsertBlockValidationError::Validation(s)) ==> kind is Execution && s
            == inner(kind),
        r matches Err(InsertBlockFatalError::Provider(s)) ==> kind is Provider && s == inner(kind),
        r matches Err(InsertBlockFatalError::BlockExecutionError(i)) ==> inside(i) == inner(kind)
            && (kind is Other ==> i is Other) && (kind is Execution ==> i
            == kind->Execution_0->Internal_0),
        r matches Err(e) ==> e is Provider || e is BlockExecutionError,
        r is Err && r->Err_0 is Provider <==> kind is Provider,
        r is Ok && r->Ok_0 is Consensus <==> kind is Consensus,
{
}

/// What is said of a fault of the node.
pub proof fn lemma_fatal(e: InsertBlockFatalError, m: String)
    requires
        call_ensures(InsertBlockFatalError::message, (&e,), m),
    ensures
        match e {
            InsertBlockFatalError::Provider(s) => m@ == s@,
            InsertBlockFatalError::BlockExecutionError(i) => m@ == inside(i)@,
            InsertBlockFatalError::Persistence(p) => tells_advance(m@, p),
            InsertBlockFatalError::RethNewPayloadPersistenceFailureDelivered => m@
                == "fatal reth_newPayload persistence failure was delivered to the caller"@,
            InsertBlockFatalError::BackfillPendingAcknowledgementClosed => m@
                == "backfill-pending acknowledgement receiver closed"@,
            InsertBlockFatalError::BackfillStartedWithoutPending => m@
                == "pipeline backfill started without an acknowledged pending handoff"@,
            InsertBlockFatalError::BackfillStartedWhileDisabled => m@
                == "pipeline backfill started while pipeline backfill is disabled"@,
        },
{
    if let InsertBlockFatalError::Persistence(p) = e {
        lemma_tells_advance(p);
    }
}

/// What is said of a block that could not be inserted: its hash, its number, its
/// parent and the reason.
pub open spec fn tells_insertion(
    m: Seq<char>,
    h: Seq<char>,
    n: Seq<char>,
    p: Seq<char>,
    hash: B256,
    number: u64,
    parent: B256,
    kind: InsertBlockErrorKind,
) -> bool {
    says_hash(h, hash) && says_number(n, number) && says_hash(p, parent) && m
        == "Failed to insert block (hash="@ + h + ", number="@ + n + ", parent_hash="@ + p
        + "): "@ + inner(kind)@
}

proof fn lemma_tells_insertion<B>(e: InsertBlockError<B>)
    ensures
        exists|h: Seq<char>, n: Seq<char>, p: Seq<char>| #[trigger]
            tells_insertion(
                e.text(),
                h,
                n,
                p,
                e.the_block().hash,
                e.the_block().number,
                e.the_block().parent_hash,
                e.the_kind(),
            ),
{
    let b = e.the_block();
    lemma_hash(b.hash);
    lemma_number(b.number);
    lemma_hash(b.parent_hash);
    assert(tells_insertion(
        e.text(),
        hash::b256_text(b.hash),
        text::decimal_digits(b.number as nat),
        hash::b256_text(b.parent_hash),
        b.hash,
        b.number,
        b.parent_hash,
        e.the_kind(),
    ));
}

/// A block that could not be inserted comes back as it was given, with the reason, and
/// is told with its hash, its number, its parent and the reason.
pub proof fn lemma_insertion<B>(
    block: SealedBlock<B>,
    kind: InsertBlockErrorKind,
    e: InsertBlockError<B>,
    m: String,
    back: SealedBlock<B>,
    parts: (SealedBlock<B>, InsertBlockErrorKind),
    k: &InsertBlockErrorKind,
    b: &SealedBlock<B>,
)
    requires
        call_ensures(InsertBlockError::<B>::new, (block, kind), e),
        call_ensures(InsertBlockError::<B>::message, (&e,), m),
        call_ensures(InsertBlockError::<B>::into_block, (e,), back),
        call_ensures(InsertBlockError::<B>::split, (e,), parts),
        call_ensures(InsertBlockError::<B>::kind, (&e,), k),
        call_ensures(InsertBlockError::<B>::block, (&e,), b),
    ensures
        back == block,
        parts == (block, kind),
        *k == kind,
        *b == block,
        exists|h: Seq<char>, n: Seq<char>, p: Seq<char>| #[trigger]
            tells_insertion(
                m@,
                h,
                n,
                p,
                block.hash,
                block.number,
                block.parent_hash,
                kind,
            ),
{
    lemma_tells_insertion(e);
}

/// A consensus error is an insertion that failed for consensus.
pub proof fn lemma_consensus_error<B>(
    error: String,
    block: SealedBlock<B>,
    e: InsertBlockError<B>,
    parts: (SealedBlock<B>, InsertBlockErrorKind),
)
    requires
        call_ensures(InsertBlockError::<B>::consensus_error, (error, block), e),
        call_ensures(InsertBlockError::<B>::split, (e,), parts),
    ensures
        parts.0 == block,
        parts.1 matches InsertBlockErrorKind::Consensus(s) && s == error,
{
}

/// A payload that could not be inserted is told as its block is, or in its own words.
pub proof fn lemma_payload<B>(e: InsertPayloadError<B>, m: String, t: String)
    requires
        call_ensures(InsertPayloadError::<B>::message, (&e,), m),
        e matches InsertPayloadError::Block(b) ==> call_ensures(
            InsertBlockError::<B>::message,
            (&b,),
            t,
        ),
    ensures
        e is Block ==> m@ == t@,
        e matches InsertPayloadError::Payload(s) ==> m@ == s@,
{
}

// -------------------------------------------------------------------- launch

/// Words, and one hash.
pub open spec fn one_hash(m: Seq<char>, a: Seq<char>, h: Seq<char>, b: Seq<char>, x: B256) -> bool {
    says_hash(h, x) && m == a + h + b
}

/// A node whose backfill is disabled refuses to start where the pipeline has to
/// converge first, and tells to which block; every other node starts.
pub proof fn lemma_backfill_allowed(
    given: TreeConfig,
    blocks: u64,
    config: TreeConfig,
    off: bool,
    target: Option<B256>,
    r: Result<(), String>,
)
    requires
        call_ensures(TreeConfig::with_min_blocks_for_pipeline_run, (given, blocks), config),
        call_ensures(TreeConfig::pipeline_backfill_disabled, (&config,), off),
        call_ensures(launch::ensure_initial_backfill_allowed, (&config, target), r),
    ensures
        off <==> blocks == 0xffff_ffff_ffff_ffff,
        r is Err <==> off && target is Some,
        r matches Err(m) ==> exists|h: Seq<char>| #[trigger]
            one_hash(
                m@,
                "database requires initial pipeline convergence to "@,
                h,
                ", but pipeline backfill is disabled"@,
                target->Some_0,
            ),
{
    if let Err(m) = r {
        lemma_hash(target->Some_0);
        assert(one_hash(
            m@,
            "database requires initial pipeline convergence to "@,
            hash::b256_text(target->Some_0),
            ", but pipeline backfill is disabled"@,
            target->Some_0,
        ));
    }
}

/// Words, and a failure to persist.
pub open spec fn one_failure(
    m: Seq<char>,
    a: Seq<char>,
    t: Seq<char>,
    e: AdvancePersistenceError,
) -> bool {
    tells_advance(t, e) && m == a + t
}

/// The node exits with what the engine's last flush failed with, and only then; an
/// engine that is gone before it answers has failed.
pub proof fn lemma_shutdown(
    said: Option<Result<(), AdvancePersistenceError>>,
    outcome: Result<(), AdvancePersistenceError>,
    r: Result<(), String>,
)
    requires
        call_ensures(launch::termination_outcome, (said,), outcome),
        call_ensures(launch::engine_shutdown_outcome_to_exit, (&outcome,), r),
    ensures
        said matches Some(s) ==> outcome == s,
        said is None ==> outcome is Err && outcome->Err_0 is ChannelClosed,
        r is Ok <==> outcome is Ok,
        r matches Err(m) ==> exists|t: Seq<char>| #[trigger]
            one_failure(m@, "Engine shutdown persistence failed: "@, t, outcome->Err_0),
{
    if let Err(e) = outcome {
        lemma_tells_advance(e);
        assert(one_failure(
            r->Err_0@,
            "Engine shutdown persistence failed: "@,
            error::advance_message_of(e),
            e,
        ));
    }
}

} // verus!
