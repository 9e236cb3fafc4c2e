//! The records that are spooled, one per canonical block, and the loop that
//! decides when they are written.

use vstd::prelude::*;

use crate::delta;
use crate::delta::{counted_delta, snapshot_original, snapshot_post, Bundle, Stats};
use crate::hash;
use crate::json;
use crate::json::{add_member, Json, JsonView};
use crate::primitives::{Address, B256};
use crate::snapshot::Snapshot;
use crate::text;

verus! {

/// Consecutive spool failures after which the emitter stops trying.
pub const PARK_AFTER: u32 = 50;

/// The version that every record carries.
pub const WIRE_V: u32 = 1;

/// What a record says of a block's header.
#[derive(Clone, Copy, Debug, PartialEq, Eq, Structural)]
pub struct BlockHeader {
    pub number: u64,
    pub hash: B256,
    pub parent_hash: B256,
    pub timestamp: u64,
    pub gas_limit: u64,
    pub base_fee_per_gas: Option<u64>,
    pub mix_hash: B256,
    pub beneficiary: Address,
    pub excess_blob_gas: Option<u64>,
}

/// A block, and the state after it where the chain can tell.
#[derive(Debug)]
pub struct ChainBlock {
    pub header: BlockHeader,
    pub outcome: Option<Bundle>,
}

/// A run of blocks with what executing all of them changed.
#[derive(Debug)]
pub struct ChainData {
    pub aggregate: Bundle,
    pub blocks: Vec<ChainBlock>,
}

impl ChainData {
    /// There is a block, and the blocks stand in ascending order.
    pub open spec fn well_formed(self) -> bool {
        &&& self.blocks@.len() > 0
        &&& forall|i: int, j: int|
            0 <= i < j < self.blocks@.len() ==> (#[trigger] self.blocks@[i]).header.number < (
            #[trigger] self.blocks@[j]).header.number
    }

    /// The first block's number.
    pub open spec fn first(self) -> u64 {
        self.blocks@[0].header.number
    }

    /// The last block.
    pub open spec fn tip(self) -> BlockHeader {
        self.blocks@.last().header
    }
}

/// The state after block `n`, where the chain can tell.
pub open spec fn outcome_at(blocks: Seq<ChainBlock>, n: int) -> Option<Bundle>
    decreases blocks.len(),
{
    if blocks.len() == 0 {
        None
    } else if blocks.last().header.number == n {
        blocks.last().outcome
    } else {
        outcome_at(blocks.drop_last(), n)
    }
}

/// `outcome_at` as a reference into the chain.
pub fn execution_outcome_at_block(chain: &ChainData, n: u64) -> (r: Option<&Bundle>)
    ensures
        match r {
            Some(b) => outcome_at(chain.blocks@, n as int) == Some(*b),
            None => outcome_at(chain.blocks@, n as int) is None,
        },
{
    let mut i: usize = chain.blocks.len();
    assert(chain.blocks@.take(i as int) =~= chain.blocks@);
    while i > 0
        invariant
            i <= chain.blocks@.len(),
            outcome_at(chain.blocks@, n as int) == outcome_at(
                chain.blocks@.take(i as int),
                n as int,
            ),
        decreases i,
    {
        assert(chain.blocks@.take(i as int).drop_last() =~= chain.blocks@.take(i - 1));
        if chain.blocks[i - 1].header.number == n {
            return chain.blocks[i - 1].outcome.as_ref();
        }
        i = i - 1;
    }
    None
}

// ------------------------------------------------------------------ records

/// The name under which the record of block `n` is spooled.
pub open spec fn segment_name_of(n: u64) -> Seq<char> {
    "cvsd~v1~blk~"@ + text::padded_digits(n as nat, 12) + ".json"@
}

/// The name under which the record of block `n` is spooled. It is the object's
/// key with `~` for `/`.
pub fn segment_name(n: u64) -> (r: String)
    ensures
        r@ == segment_name_of(n),
{
    let mut name = String::new();
    name.append("cvsd~v1~blk~");
    name.append(text::decimal_padded(n, 12).as_str());
    name.append(".json");
    proof {
        assert(name@ =~= segment_name_of(n));
    }
    name
}

/// The name that a segment has until all of it is on disk.
pub fn staging_name(name: &str) -> (r: String)
    ensures
        r@ == ".tmp-"@ + name@,
{
    let mut staged = String::new();
    staged.append(".tmp-");
    staged.append(name);
    assert(staged@ =~= ".tmp-"@ + name@);
    staged
}

/// An amount that may be missing.
pub open spec fn amount_view(n: Option<u64>) -> JsonView {
    match n {
        Some(v) => JsonView::Number(v),
        None => JsonView::Null,
    }
}

/// What both kinds of record say of the header.
pub open spec fn header_members(h: BlockHeader) -> Seq<(Seq<char>, JsonView)> {
    seq![
        ("gas_limit"@, JsonView::Number(h.gas_limit)),
        (
            "basefee"@,
            JsonView::Number(
                match h.base_fee_per_gas {
                    Some(fee) => fee,
                    None => 0,
                },
            ),
        ),
        ("prevrandao"@, JsonView::Text(hash::b256_text(h.mix_hash))),
        ("beneficiary"@, JsonView::Text(hash::address_text(h.beneficiary))),
    ]
}

/// The record of a block that joined the canonical chain.
pub open spec fn commit_record_view(h: BlockHeader, emit_unix: u64, delta: JsonView) -> JsonView {
    JsonView::Object(
        seq![
            ("v"@, JsonView::Number(WIRE_V as u64)),
            ("kind"@, JsonView::Text("commit"@)),
            ("block"@, JsonView::Number(h.number)),
            ("hash"@, JsonView::Text(hash::b256_text(h.hash))),
            ("parent"@, JsonView::Text(hash::b256_text(h.parent_hash))),
            ("ts"@, JsonView::Number(h.timestamp)),
            ("src"@, JsonView::Text("exex"@)),
            ("emit_unix"@, JsonView::Number(emit_unix)),
            (
                "header"@,
                JsonView::Object(
                    header_members(h).push(("excess_blob_gas"@, amount_view(h.excess_blob_gas))),
                ),
            ),
            ("delta"@, delta),
            ("unmodeled"@, JsonView::List(Seq::empty())),
            ("unmodeled_addrs"@, JsonView::List(Seq::empty())),
        ],
    )
}

/// A delta in which nothing changed.
pub open spec fn empty_delta_view() -> JsonView {
    JsonView::Object(
        seq![
            ("accounts"@, JsonView::List(Seq::empty())),
            ("storage"@, JsonView::List(Seq::empty())),
            ("code"@, JsonView::List(Seq::empty())),
        ],
    )
}

/// The record of a run of blocks that left the canonical chain: `tip` was its
/// last block and `first` its first.
pub open spec fn revert_record_view(first: u64, tip: BlockHeader, emit_unix: u64) -> JsonView {
    JsonView::Object(
        seq![
            ("v"@, JsonView::Number(WIRE_V as u64)),
            ("kind"@, JsonView::Text("revert"@)),
            ("block"@, JsonView::Number(tip.number)),
            ("first"@, JsonView::Number(first)),
            ("hash"@, JsonView::Text(hash::b256_text(tip.hash))),
            ("parent"@, JsonView::Text(hash::b256_text(tip.parent_hash))),
            ("ts"@, JsonView::Number(tip.timestamp)),
            ("src"@, JsonView::Text("exex"@)),
            ("emit_unix"@, JsonView::Number(emit_unix)),
            ("header"@, JsonView::Object(header_members(tip))),
            ("delta"@, empty_delta_view()),
        ],
    )
}

fn header_of(h: &BlockHeader) -> (r: Vec<(String, Json)>)
    ensures
        json::members_view(r@) == header_members(*h),
{
    let fee: u64 = match h.base_fee_per_gas {
        Some(fee) => fee,
        None => 0,
    };
    let mut members: Vec<(String, Json)> = Vec::new();
    add_member(&mut members, "gas_limit", Json::Number(h.gas_limit));
    add_member(&mut members, "basefee", Json::Number(fee));
    add_member(&mut members, "prevrandao", Json::Text(hash::hex_b256(&h.mix_hash)));
    add_member(&mut members, "beneficiary", Json::Text(hash::hex_address(&h.beneficiary)));
    assert(json::members_view(members@) =~= header_members(*h));
    members
}

fn empty_list() -> (r: Json)
    ensures
        r@ == JsonView::List(Seq::empty()),
{
    let items: Vec<Json> = Vec::new();
    assert(json::list_view(items@) =~= Seq::empty());
    Json::list(items)
}

/// The record of a block that joined the canonical chain.
pub fn commit_record(h: &BlockHeader, emit_unix: u64, delta: Json) -> (r: Json)
    ensures
        r@ == commit_record_view(*h, emit_unix, delta@),
{
    let ghost said = delta@;
    let mut header = header_of(h);
    add_member(
        &mut header,
        "excess_blob_gas",
        match h.excess_blob_gas {
            Some(v) => Json::Number(v),
            None => Json::Null,
        },
    );
    let mut members: Vec<(String, Json)> = Vec::new();
    add_member(&mut members, "v", Json::Number(WIRE_V as u64));
    add_member(&mut members, "kind", Json::text("commit"));
    add_member(&mut members, "block", Json::Number(h.number));
    add_member(&mut members, "hash", Json::Text(hash::hex_b256(&h.hash)));
    add_member(&mut members, "parent", Json::Text(hash::hex_b256(&h.parent_hash)));
    add_member(&mut members, "ts", Json::Number(h.timestamp));
    add_member(&mut members, "src", Json::text("exex"));
    add_member(&mut members, "emit_unix", Json::Number(emit_unix));
    add_member(&mut members, "header", Json::object(header));
    add_member(&mut members, "delta", delta);
    add_member(&mut members, "unmodeled", empty_list());
    add_member(&mut members, "unmodeled_addrs", empty_list());
    assert(json::members_view(members@) =~= commit_record_view(*h, emit_unix, said)->Object_0);
    Json::object(members)
}

fn empty_delta() -> (r: Json)
    ensures
        r@ == empty_delta_view(),
{
    let mut members: Vec<(String, Json)> = Vec::new();
    add_member(&mut members, "accounts", empty_list());
    add_member(&mut members, "storage", empty_list());
    add_member(&mut members, "code", empty_list());
    assert(json::members_view(members@) =~= empty_delta_view()->Object_0);
    Json::object(members)
}

/// The record of a run of blocks that left the canonical chain.
pub fn revert_record(first: u64, tip: &BlockHeader, emit_unix: u64) -> (r: Json)
    ensures
        r@ == revert_record_view(first, *tip, emit_unix),
{
    let mut members: Vec<(String, Json)> = Vec::new();
    add_member(&mut members, "v", Json::Number(WIRE_V as u64));
    add_member(&mut members, "kind", Json::text("revert"));
    add_member(&mut members, "block", Json::Number(tip.number));
    add_member(&mut members, "first", Json::Number(first));
    add_member(&mut members, "hash", Json::Text(hash::hex_b256(&tip.hash)));
    add_member(&mut members, "parent", Json::Text(hash::hex_b256(&tip.parent_hash)));
    add_member(&mut members, "ts", Json::Number(tip.timestamp));
    add_member(&mut members, "src", Json::text("exex"));
    add_member(&mut members, "emit_unix", Json::Number(emit_unix));
    add_member(&mut members, "header", Json::object(header_of(tip)));
    add_member(&mut members, "delta", empty_delta());
    assert(json::members_view(members@) =~= revert_record_view(
        first,
        *tip,
        emit_unix,
    )->Object_0);
    Json::object(members)
}

/// A file to be spooled: its name and what it says.
#[derive(Debug)]
pub struct Segment {
    pub name: String,
    pub record: Json,
    pub stats: Stats,
}

/// The marker of a reorg. The reader goes back to before `first` and reads on;
/// every block from `first` onward is published again, so that the marker
/// stands under the name of the first block that left.
pub fn write_revert(chain: &ChainData, emit_unix: u64) -> (r: Segment)
    requires
        chain.well_formed(),
    ensures
        r.name@ == segment_name_of(chain.first()),
        r.record@ == revert_record_view(chain.first(), chain.tip(), emit_unix),
        r.stats == delta::no_stats(),
{
    let first: u64 = chain.blocks[0].header.number;
    let tip: BlockHeader = chain.blocks[chain.blocks.len() - 1].header;
    Segment {
        name: segment_name(first),
        record: revert_record(first, &tip, emit_unix),
        stats: Stats::new(),
    }
}

// ----------------------------------------------------------------- segments

/// `s` holds what `bundle` says of its accounts and slots: as they are
/// (`present`), or as they were.
pub open spec fn says(s: Snapshot, bundle: Bundle, present: bool) -> bool {
    &&& s.well_formed()
    &&& s.account_map() == delta::bundle_accounts(bundle.state@, present)
    &&& s.slot_map() == delta::bundle_slots(bundle.state@, present)
}

/// The state after the chain's `i`th block.
pub open spec fn post_outcome(chain: ChainData, i: int) -> Option<Bundle> {
    if chain.first() == chain.tip().number {
        Some(chain.aggregate)
    } else {
        outcome_at(chain.blocks@, chain.blocks@[i].header.number as int)
    }
}

/// The state after the block before the chain's `i`th block, where that block
/// is not what the chain entered with.
pub open spec fn prev_outcome(chain: ChainData, i: int) -> Option<Bundle> {
    let n = chain.blocks@[i].header.number;
    if chain.first() == chain.tip().number || n == chain.first() {
        None
    } else {
        outcome_at(chain.blocks@, n - 1)
    }
}

/// `prev` holds the boundary before the `i`th block, if the chain has it.
pub open spec fn prev_says(chain: ChainData, i: int, prev: Option<&Snapshot>) -> bool {
    match prev_outcome(chain, i) {
        Some(b) => prev matches Some(p) && says(*p, b, true),
        None => prev is None,
    }
}

/// The three boundaries that decide the delta of the `i`th block: what the
/// chain entered with, the block before, and the block itself.
pub open spec fn boundaries(
    chain: ChainData,
    i: int,
    original: Snapshot,
    prev: Option<&Snapshot>,
    post: Snapshot,
) -> bool {
    &&& says(original, chain.aggregate, false)
    &&& prev_says(chain, i, prev)
    &&& post_outcome(chain, i) is Some
    &&& says(post, post_outcome(chain, i)->Some_0, true)
}

/// `segment` is the one that is published for the chain's `i`th block.
pub open spec fn segment_of(chain: ChainData, i: int, emit_unix: u64, segment: Segment) -> bool {
    let h = chain.blocks@[i].header;
    let contracts = chain.aggregate.contracts@;
    &&& segment.name@ == segment_name_of(h.number)
    &&& exists|original: Snapshot, prev: Option<&Snapshot>, post: Snapshot|
        {
            &&& #[trigger] boundaries(chain, i, original, prev, post)
            &&& segment.record@ == commit_record_view(
                h,
                emit_unix,
                delta::delta_view(original, prev, post, contracts),
            )
            &&& delta::delta_counts(original, prev, post, contracts, segment.stats)
        }
}

/// A chain decides its segments: two that are published for the same block at
/// the same time say the same under the same name, and are printed as the same
/// bytes.
pub proof fn lemma_segment_determined(
    chain: ChainData,
    i: int,
    emit_unix: u64,
    a: Segment,
    b: Segment,
)
    requires
        segment_of(chain, i, emit_unix, a),
        segment_of(chain, i, emit_unix, b),
    ensures
        a.name@ == b.name@,
        a.record@ == b.record@,
        json::printed(json::said(a.record@)) == json::printed(json::said(b.record@)),
        a.stats == b.stats,
{
    let contracts = chain.aggregate.contracts@;
    let h = chain.blocks@[i].header;
    let (oa, pa, qa) = choose|original: Snapshot, prev: Option<&Snapshot>, post: Snapshot|
        {
            &&& #[trigger] boundaries(chain, i, original, prev, post)
            &&& a.record@ == commit_record_view(
                h,
                emit_unix,
                delta::delta_view(original, prev, post, contracts),
            )
            &&& delta::delta_counts(original, prev, post, contracts, a.stats)
        };
    let (ob, pb, qb) = choose|original: Snapshot, prev: Option<&Snapshot>, post: Snapshot|
        {
            &&& #[trigger] boundaries(chain, i, original, prev, post)
            &&& b.record@ == commit_record_view(
                h,
                emit_unix,
                delta::delta_view(original, prev, post, contracts),
            )
            &&& delta::delta_counts(original, prev, post, contracts, b.stats)
        };
    delta::lemma_delta_determined(oa, ob, pa, pb, qa, qb, contracts, contracts);
    crate::snapshot::lemma_accounts_determined(qa.accounts@, qb.accounts@);
    crate::snapshot::lemma_slots_determined(qa.slots@, qb.slots@);
}

/// In a longer chain every segment starts where the one before it ended: the
/// boundary before a block is the state after the block that precedes it.
pub proof fn lemma_segments_join(chain: ChainData, i: int)
    requires
        chain.well_formed(),
        0 <= i < chain.blocks@.len() - 1,
        chain.blocks@[i].header.number + 1 == chain.blocks@[i + 1].header.number,
    ensures
        prev_outcome(chain, i + 1) == post_outcome(chain, i),
{
    assert(chain.blocks@[0].header.number < chain.blocks@[i + 1].header.number);
    assert(chain.blocks@[i + 1].header.number <= chain.blocks@.last().header.number);
}

/// What is to be done next for a chain that joined the canonical one.
#[derive(Debug)]
pub enum EmitStep {
    /// Spool this segment, then go on.
    Write(Segment),
    /// Fail: there is no execution outcome at this block.
    NoOutcome(u64),
    /// Every block has its segment.
    Done,
}

/// The segments of one chain, one block after the other.
#[derive(Debug)]
pub struct ChainEmission {
    /// State entering the chain.
    pub original: Snapshot,
    /// The block whose segment comes next, by its place in the chain.
    pub at: usize,
    /// What was written so far.
    pub stats: Stats,
}

impl ChainEmission {
    /// This emission is one of `chain`.
    pub open spec fn of(self, chain: ChainData) -> bool {
        &&& says(self.original, chain.aggregate, false)
        &&& self.at <= chain.blocks@.len()
    }

    /// An emission that has written nothing yet.
    pub fn new(chain: &ChainData) -> (r: Self)
        ensures
            r.of(*chain),
            r.at == 0,
            r.stats == delta::no_stats(),
    {
        ChainEmission { original: snapshot_original(&chain.aggregate), at: 0, stats: Stats::new() }
    }

    /// What is to be done next. A chain of one block is its own delta: what
    /// the chain entered with on one side, what it left on the other. In a
    /// longer chain the boundary before is the previous block's; what that
    /// never touched keeps the value it entered with.
    pub fn next(&self, chain: &ChainData, emit_unix: u64) -> (r: EmitStep)
        requires
            chain.well_formed(),
            self.of(*chain),
        ensures
            match r {
                EmitStep::Done => self.at == chain.blocks@.len(),
                EmitStep::NoOutcome(n) => {
                    &&& self.at < chain.blocks@.len()
                    &&& n == chain.blocks@[self.at as int].header.number
                    &&& post_outcome(*chain, self.at as int) is None
                },
                EmitStep::Write(segment) => {
                    &&& self.at < chain.blocks@.len()
                    &&& post_outcome(*chain, self.at as int) is Some
                    &&& segment_of(*chain, self.at as int, emit_unix, segment)
                },
            },
    {
        if self.at >= chain.blocks.len() {
            return EmitStep::Done;
        }
        let first: u64 = chain.blocks[0].header.number;
        let tip: u64 = chain.blocks[chain.blocks.len() - 1].header.number;
        let header: BlockHeader = chain.blocks[self.at].header;
        let n: u64 = header.number;
        let post: Snapshot = if first == tip {
            snapshot_post(&chain.aggregate)
        } else {
            match execution_outcome_at_block(chain, n) {
                Some(at_n) => snapshot_post(at_n),
                None => {
                    return EmitStep::NoOutcome(n);
                },
            }
        };
        let prev: Option<Snapshot> = if first == tip || n == first {
            None
        } else {
            match execution_outcome_at_block(chain, n - 1) {
                Some(before) => Some(snapshot_post(before)),
                None => None,
            }
        };
        let (changes, counts) = counted_delta(
            &self.original,
            prev.as_ref(),
            &post,
            &chain.aggregate,
        );
        let segment = Segment {
            name: segment_name(n),
            record: commit_record(&header, emit_unix, changes),
            stats: counts,
        };
        proof {
            let p: Option<&Snapshot> = match prev {
                Some(s) => Some(&s),
                None => None,
            };
            assert(boundaries(*chain, self.at as int, self.original, p, post));
        }
        EmitStep::Write(segment)
    }

    /// The segment that came last is on disk, `bytes` long.
    pub fn wrote(&mut self, chain: &ChainData, stats: &Stats, bytes: usize)
        requires
            old(self).of(*chain),
            old(self).at < chain.blocks@.len(),
            stats.blocks == 0,
            stats.bytes == 0,
            old(self).stats.fits((Stats { blocks: 1, bytes, ..*stats })),
        ensures
            final(self).of(*chain),
            final(self).at == old(self).at + 1,
            final(self).original == old(self).original,
            final(self).stats == old(self).stats.sum((Stats { blocks: 1, bytes, ..*stats })),
    {
        let one = Stats {
            blocks: 1,
            accounts: stats.accounts,
            slots: stats.slots,
            code: stats.code,
            bytes,
        };
        self.stats.grow(&one);
        assert(self.at < chain.blocks.len());
        self.at = self.at + 1;
    }
}

// --------------------------------------------------------------------- loop

/// What the emitter is waiting for.
#[derive(Clone, Copy, Debug, PartialEq, Eq, Structural)]
pub enum Phase {
    /// The next notification.
    Waiting,
    /// The marker of a reorg to be spooled; a commit may follow.
    Reverting { commit: bool },
    /// The segments of a chain to be spooled.
    Committing,
    /// The height to be acknowledged.
    Acknowledging,
    /// Nothing: the emitter is done.
    Stopped,
}

/// What happened.
#[derive(Clone, Copy, Debug, PartialEq, Eq, Structural)]
pub enum Event {
    /// A notification came: blocks left the chain, blocks joined it, or both.
    Notification { reverted: bool, committed: bool },
    /// The notification stream failed.
    StreamFailed,
    /// The notification stream ended.
    StreamEnded,
    /// The marker was spooled.
    RevertWritten,
    /// The marker could not be spooled.
    RevertFailed,
    /// So many blocks were spooled, all that joined.
    ChainEmitted { blocks: u64 },
    /// The chain could not be spooled.
    ChainFailed,
    /// The height was acknowledged.
    Acknowledged,
    /// The height could not be acknowledged.
    AcknowledgeFailed,
}

/// What is to be done.
#[derive(Clone, Copy, Debug, PartialEq, Eq, Structural)]
pub enum Action {
    /// Wait for the next notification.
    Await,
    /// Tell the operator that the emitter has just parked, then wait for the
    /// next notification.
    ParkThenAwait,
    /// Spool the marker of the reverted chain.
    WriteRevert,
    /// Spool the segments of the committed chain.
    EmitChain,
    /// Acknowledge the committed chain's tip; tell the operator, first, when
    /// the emitter has just parked.
    Acknowledge { parking: bool },
    /// Return, without an error.
    Stop,
}

/// The emitter: an observer that must never take the node down.
#[derive(Clone, Copy, Debug, PartialEq, Eq, Structural)]
pub struct Emitter {
    /// Consecutive failures to spool something, be it a marker or a chain.
    pub failures: u32,
    /// The emitter has stopped writing.
    pub parked: bool,
    /// Blocks spooled so far.
    pub emitted: u64,
    /// What it waits for.
    pub phase: Phase,
}

/// `event` can come in this state.
pub open spec fn expects(s: Emitter, event: Event) -> bool {
    match s.phase {
        Phase::Waiting => event is Notification || event is StreamFailed || event is StreamEnded,
        Phase::Reverting { .. } => event is RevertWritten || event is RevertFailed,
        Phase::Committing => event is ChainEmitted || event is ChainFailed,
        Phase::Acknowledging => event is Acknowledged || event is AcknowledgeFailed,
        Phase::Stopped => false,
    }
}

/// The counters have room for `event`.
pub open spec fn has_room(s: Emitter, event: Event) -> bool {
    match event {
        Event::RevertFailed => s.failures < u32::MAX,
        Event::ChainFailed => s.failures < u32::MAX,
        Event::ChainEmitted { blocks } => s.emitted + blocks <= u64::MAX,
        _ => true,
    }
}

/// The emitter after something could not be spooled: with the last of so many
/// consecutive failures it parks.
pub open spec fn with_failure(s: Emitter) -> Emitter {
    Emitter {
        failures: (s.failures + 1) as u32,
        parked: s.parked || s.failures + 1 >= PARK_AFTER,
        ..s
    }
}

/// What follows once a revert, if any, is dealt with; `parking` says whether
/// the emitter has just parked.
pub open spec fn on_to_commit(s: Emitter, commit: bool, parking: bool) -> (Emitter, Action) {
    if !commit {
        (
            Emitter { phase: Phase::Waiting, ..s },
            if parking {
                Action::ParkThenAwait
            } else {
                Action::Await
            },
        )
    } else if s.parked {
        (Emitter { phase: Phase::Acknowledging, ..s }, Action::Acknowledge { parking })
    } else {
        (Emitter { phase: Phase::Committing, ..s }, Action::EmitChain)
    }
}

/// The state after `event`, and what is to be done.
pub open spec fn after(s: Emitter, event: Event) -> (Emitter, Action) {
    match event {
        Event::StreamFailed => (Emitter { phase: Phase::Stopped, ..s }, Action::Stop),
        Event::StreamEnded => (Emitter { phase: Phase::Stopped, ..s }, Action::Stop),
        Event::Notification { reverted, committed } => if reverted && !s.parked {
            (Emitter { phase: Phase::Reverting { commit: committed }, ..s }, Action::WriteRevert)
        } else {
            on_to_commit(s, committed, false)
        },
        Event::RevertWritten => on_to_commit(
            Emitter { failures: 0, ..s },
            s.phase == Phase::Reverting { commit: true },
            false,
        ),
        Event::RevertFailed => on_to_commit(
            with_failure(s),
            s.phase == Phase::Reverting { commit: true },
            !s.parked && with_failure(s).parked,
        ),
        Event::ChainEmitted { blocks } => (
            Emitter {
                failures: 0,
                emitted: (s.emitted + blocks) as u64,
                phase: Phase::Acknowledging,
                ..s
            },
            Action::Acknowledge { parking: false },
        ),
        Event::ChainFailed => (
            Emitter { phase: Phase::Acknowledging, ..with_failure(s) },
            Action::Acknowledge { parking: !s.parked && with_failure(s).parked },
        ),
        Event::Acknowledged => (Emitter { phase: Phase::Waiting, ..s }, Action::Await),
        Event::AcknowledgeFailed => (Emitter { phase: Phase::Waiting, ..s }, Action::Await),
    }
}

impl Emitter {
    /// An emitter that has seen nothing yet.
    pub fn new() -> (r: Self)
        ensures
            r == (Emitter { failures: 0, parked: false, emitted: 0, phase: Phase::Waiting }),
    {
        Emitter { failures: 0, parked: false, emitted: 0, phase: Phase::Waiting }
    }

    /// Counts a failure, and says whether the emitter has just parked.
    fn count_failure(&mut self) -> (parking: bool)
        requires
            old(self).failures < u32::MAX,
        ensures
            *final(self) == with_failure(*old(self)),
            parking == (!old(self).parked && final(self).parked),
    {
        self.failures = self.failures + 1;
        let parking: bool = !self.parked && self.failures >= PARK_AFTER;
        if parking {
            self.parked = true;
        }
        parking
    }

    fn to_commit(&mut self, commit: bool, parking: bool) -> (r: Action)
        ensures
            (*final(self), r) == on_to_commit(*old(self), commit, parking),
    {
        if !commit {
            self.phase = Phase::Waiting;
            if parking {
                Action::ParkThenAwait
            } else {
                Action::Await
            }
        } else if self.parked {
            self.phase = Phase::Acknowledging;
            Action::Acknowledge { parking }
        } else {
            self.phase = Phase::Committing;
            Action::EmitChain
        }
    }

    /// Takes `event` in, and says what is to be done.
    pub fn on(&mut self, event: Event) -> (r: Action)
        requires
            expects(*old(self), event),
            has_room(*old(self), event),
        ensures
            (*final(self), r) == after(*old(self), event),
    {
        match event {
            Event::StreamFailed | Event::StreamEnded => {
                self.phase = Phase::Stopped;
                Action::Stop
            },
            Event::Notification { reverted, committed } => {
                if reverted && !self.parked {
                    self.phase = Phase::Reverting { commit: committed };
                    Action::WriteRevert
                } else {
                    self.to_commit(committed, false)
                }
            },
            Event::RevertWritten => {
                let commit: bool = self.phase == Phase::Reverting { commit: true };
                self.failures = 0;
                self.to_commit(commit, false)
            },
            Event::RevertFailed => {
                let commit: bool = self.phase == Phase::Reverting { commit: true };
                let parking: bool = self.count_failure();
                self.to_commit(commit, parking)
            },
            Event::ChainEmitted { blocks } => {
                self.failures = 0;
                self.emitted = self.emitted + blocks;
                self.phase = Phase::Acknowledging;
                Action::Acknowledge { parking: false }
            },
            Event::ChainFailed => {
                let parking: bool = self.count_failure();
                self.phase = Phase::Acknowledging;
                Action::Acknowledge { parking }
            },
            Event::Acknowledged | Event::AcknowledgeFailed => {
                self.phase = Phase::Waiting;
                Action::Await
            },
        }
    }
}

/// The state after all of `events`.
pub open spec fn after_all(s: Emitter, events: Seq<Event>) -> Emitter
    decreases events.len(),
{
    if events.len() == 0 {
        s
    } else {
        after(after_all(s, events.drop_last()), events.last()).0
    }
}

/// Every event came where it can come, with room for it.
pub open spec fn runs(s: Emitter, events: Seq<Event>) -> bool
    decreases events.len(),
{
    events.len() == 0 || {
        &&& runs(s, events.drop_last())
        &&& expects(after_all(s, events.drop_last()), events.last())
        &&& has_room(after_all(s, events.drop_last()), events.last())
    }
}

/// Nothing is spooled on any of the events.
pub open spec fn quiet(s: Emitter, events: Seq<Event>) -> bool
    decreases events.len(),
{
    events.len() == 0 || {
        &&& quiet(s, events.drop_last())
        &&& !spools(after(after_all(s, events.drop_last()), events.last()).1)
    }
}

/// The emitter is parked, and not in the middle of writing.
pub open spec fn at_rest(s: Emitter) -> bool {
    s.parked && !(s.phase is Reverting) && s.phase != Phase::Committing
}

/// The action spools something.
pub open spec fn spools(action: Action) -> bool {
    action == Action::WriteRevert || action == Action::EmitChain
}

proof fn lemma_parked_step(s: Emitter, event: Event)
    requires
        at_rest(s),
        expects(s, event),
    ensures
        at_rest(after(s, event).0),
        after(s, event).0.emitted == s.emitted,
        !spools(after(s, event).1),
{
}

/// An emitter that has parked writes nothing more, whatever happens.
pub proof fn lemma_parked_stays(s: Emitter, events: Seq<Event>)
    requires
        at_rest(s),
        runs(s, events),
    ensures
        at_rest(after_all(s, events)),
        after_all(s, events).emitted == s.emitted,
        quiet(s, events),
    decreases events.len(),
{
    if events.len() > 0 {
        lemma_parked_stays(s, events.drop_last());
        lemma_parked_step(after_all(s, events.drop_last()), events.last());
    }
}

/// A committed chain is still to be acknowledged.
pub open spec fn owes(s: Emitter) -> bool {
    s.phase == (Phase::Reverting { commit: true }) || s.phase == Phase::Committing
}

/// Every committed chain is acknowledged, parked or not, whether its spooling
/// succeeded or not: from the notification on, each event either brings the
/// acknowledgement or leaves it owed, and two events at most stand in between.
pub proof fn lemma_commit_is_acknowledged(s: Emitter, event: Event)
    requires
        expects(s, event),
        event == (Event::Notification { reverted: true, committed: true }) || event == (
        Event::Notification { reverted: false, committed: true }) || owes(s),
    ensures
        after(s, event).1 is Acknowledge || owes(after(s, event).0),
        s.phase == Phase::Committing ==> after(s, event).1 is Acknowledge,
        s.phase is Reverting ==> !(after(s, event).0.phase is Reverting),
{
}

/// The emitter never stops of itself, whatever fails: only the end or the
/// failure of the notification stream stops it.
pub proof fn lemma_stops_with_stream(s: Emitter, event: Event)
    requires
        expects(s, event),
    ensures
        after(s, event).1 == Action::Stop <==> event == Event::StreamEnded || event
            == Event::StreamFailed,
{
}

/// Something could not be spooled.
pub open spec fn spool_failed(event: Event) -> bool {
    event == Event::RevertFailed || event == Event::ChainFailed
}

/// Something was spooled.
pub open spec fn spool_succeeded(event: Event) -> bool {
    event == Event::RevertWritten || event is ChainEmitted
}

/// The emitter parks on the failure, of a marker or of a chain, that is the
/// last of so many in a row, and on nothing else. The operator is told then,
/// and only then.
pub proof fn lemma_parks_on_failure(s: Emitter, event: Event)
    requires
        expects(s, event),
        has_room(s, event),
    ensures
        !s.parked ==> (after(s, event).0.parked <==> spool_failed(event) && s.failures + 1
            >= PARK_AFTER),
        !s.parked && after(s, event).0.parked <==> after(s, event).1 == Action::ParkThenAwait
            || after(s, event).1 == (Action::Acknowledge { parking: true }),
        spool_succeeded(event) ==> after(s, event).0.failures == 0,
{
}

/// The emitter is parked exactly after so many consecutive failures, and then
/// it is not writing.
pub open spec fn counted(s: Emitter) -> bool {
    &&& s.parked <==> s.failures >= PARK_AFTER
    &&& s.parked ==> at_rest(s)
}

/// How many of the events are failures to spool something.
pub open spec fn failures_in(events: Seq<Event>) -> nat
    decreases events.len(),
{
    if events.len() == 0 {
        0
    } else {
        failures_in(events.drop_last()) + (if spool_failed(events.last()) {
            1nat
        } else {
            0
        })
    }
}

/// None of the events is a success in spooling something.
pub open spec fn no_success(events: Seq<Event>) -> bool {
    forall|i: int| 0 <= i < events.len() ==> !spool_succeeded(#[trigger] events[i])
}

/// Whatever happens, the emitter is parked exactly after so many consecutive
/// failures; and failures add up until something is spooled.
pub proof fn lemma_failures_count(s: Emitter, events: Seq<Event>)
    requires
        counted(s),
        runs(s, events),
    ensures
        counted(after_all(s, events)),
        no_success(events) ==> after_all(s, events).failures == s.failures + failures_in(events),
    decreases events.len(),
{
    if events.len() > 0 {
        let earlier = events.drop_last();
        let mid = after_all(s, earlier);
        lemma_failures_count(s, earlier);
        lemma_count_step(mid, events.last());
        if no_success(events) {
            assert forall|i: int| 0 <= i < earlier.len() implies !spool_succeeded(
                #[trigger] earlier[i],
            ) by {
                assert(!spool_succeeded(events[i]));
            }
            assert(!spool_succeeded(events[events.len() - 1]));
        }
    }
}

proof fn lemma_count_step(s: Emitter, event: Event)
    requires
        counted(s),
        expects(s, event),
        has_room(s, event),
    ensures
        counted(after(s, event).0),
        !spool_succeeded(event) ==> after(s, event).0.failures == s.failures + (if spool_failed(
            event,
        ) {
            1int
        } else {
            0
        }),
{
}

/// After so many failures with no success in between, markers and chains alike,
/// the emitter is parked, and whatever happens then it writes nothing more.
pub proof fn lemma_consecutive_failures_park(s: Emitter, events: Seq<Event>, later: Seq<Event>)
    requires
        counted(s),
        runs(s, events),
        no_success(events),
        failures_in(events) >= PARK_AFTER,
        runs(after_all(s, events), later),
    ensures
        after_all(s, events).parked,
        quiet(after_all(s, events), later),
{
    lemma_failures_count(s, events);
    lemma_parked_stays(after_all(s, events), later);
}

// -------------------------------------------------------------------- clock

/// Seconds since the epoch as std's `SystemTime::elapsed` has them for the
/// epoch; `None` where the clock stands before it. Nothing is claimed of what
/// the clock says.
#[verifier::external_body]
fn epoch_elapsed() -> (r: Option<u64>) {
    match std::time::UNIX_EPOCH.elapsed() {
        Ok(since) => Some(since.as_secs()),
        Err(_) => None,
    }
}

/// The time that is written for what the clock says: zero for a clock that
/// stands before the epoch.
pub fn unix_seconds(since_epoch: Option<u64>) -> (r: u64)
    ensures
        r == (match since_epoch {
            Some(s) => s,
            None => 0,
        }),
{
    match since_epoch {
        Some(s) => s,
        None => 0,
    }
}

/// The clock was read, and said this.
pub closed spec fn clock_said(since_epoch: Option<u64>) -> bool {
    call_ensures(epoch_elapsed, (), since_epoch)
}

/// Seconds since the epoch, now: what the clock says when it is read.
pub fn now_unix() -> (r: u64)
    ensures
        exists|said: Option<u64>|
            #[trigger] clock_said(said) && r == (match said {
                Some(s) => s,
                None => 0,
            }),
{
    let clock = epoch_elapsed;
    let said = clock();
    assert(clock_said(said));
    unix_seconds(said)
}

/// How old a block is at `now`; nothing for a block of the future.
pub fn block_age_secs(now: u64, timestamp: u64) -> (r: u64)
    ensures
        r == (if now >= timestamp {
            now - timestamp
        } else {
            0
        }),
{
    now.saturating_sub(timestamp)
}

} // verus!
