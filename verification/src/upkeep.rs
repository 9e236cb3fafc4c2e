//! What the emitter does with an event, what is counted, what records are made of, and
//! the small steps that the rest is built on.

use vstd::prelude::*;
use vstd::utf8;

use crate::commit_point;
use crate::delta;
use crate::delta::Stats;
use crate::emit;
use crate::emit::{Action, Emitter, Event, Phase};
use crate::export;
use crate::export::{Complete, Lacks};
use crate::hash;
use crate::json;
use crate::json::{Json, JsonView, ValueView};
use crate::marker;
use crate::marker::{MarkerValues, Progress, Refusal};
use crate::persistence::{
    Job, JobView, PersistenceAction, PersistenceHandle, PersistenceService,
};
use crate::persistence_fence::{PersistenceCheckpointSnapshot, PersistenceFenceError};
use crate::primitives::{BlockNumHash, B256};
use crate::sink::Sink;
use crate::snapshot::{AcctFields, SlotKey, Snapshot};
use crate::text;

verus! {

// ------------------------------------------------------------------- emitter

/// A commit that came with what is being done is still to be taken up.
pub open spec fn commit_waits(p: Phase) -> bool {
    p matches Phase::Reverting { commit } && commit
}

/// An emitter starts out waiting, with nothing counted and not parked.
pub proof fn lemma_new_emitter(r: Emitter)
    requires
        call_ensures(Emitter::new, (), r),
    ensures
        r.failures == 0,
        !r.parked,
        r.emitted == 0,
        r.phase is Waiting,
{
}

/// How the emitter counts: what was written well ends a run of failures, and what
/// failed makes it longer; the 50th failure in a row parks the emitter for good; the
/// blocks that were emitted are counted.
pub proof fn lemma_emitter_counts(x: &mut Emitter, event: Event, r: Action)
    requires
        emit::expects(*old(x), event),
        emit::has_room(*old(x), event),
        call_ensures(Emitter::on, (x, event), r),
    ensures
        event is RevertWritten || event is ChainEmitted ==> final(x).failures == 0,
        event is RevertFailed || event is ChainFailed ==> final(x).failures == old(x).failures + 1,
        !(event is RevertWritten || event is ChainEmitted || event is RevertFailed
            || event is ChainFailed) ==> final(x).failures == old(x).failures,
        final(x).parked <==> old(x).parked || ((event is RevertFailed || event is ChainFailed)
            && old(x).failures + 1 >= 50),
        event matches Event::ChainEmitted { blocks } ==> final(x).emitted == old(x).emitted
            + blocks,
        !(event is ChainEmitted) ==> final(x).emitted == old(x).emitted,
{
    assert((*final(x), r) == emit::after(*old(x), event));
}

/// What the emitter does next. A revert is written before the commit that came with
/// it; a commit is emitted and then acknowledged, and where the emitter is parked only
/// acknowledged; that the emitter parks is told once, with the failure that parks it.
pub proof fn lemma_emitter_acts(x: &mut Emitter, event: Event, r: Action)
    requires
        emit::expects(*old(x), event),
        emit::has_room(*old(x), event),
        call_ensures(Emitter::on, (x, event), r),
    ensures
        ({
            let parks = final(x).parked && !old(x).parked;
            let commits = (event is Notification && event->committed && r != Action::WriteRevert)
                || ((event is RevertWritten || event is RevertFailed) && commit_waits(old(x).phase));
            &&& r is Stop <==> event is StreamFailed || event is StreamEnded
            &&& r is WriteRevert <==> event is Notification && event->reverted && !old(x).parked
            &&& r is EmitChain <==> commits && !final(x).parked
            &&& r is Acknowledge <==> (commits && final(x).parked) || event is ChainEmitted
                || event is ChainFailed
            &&& r matches Action::Acknowledge { parking } ==> (parking <==> parks)
            &&& r is ParkThenAwait <==> parks && event is RevertFailed && !commits
            &&& r is Await || r is ParkThenAwait <==> final(x).phase is Waiting
            &&& final(x).phase is Stopped <==> r is Stop
            &&& final(x).phase is Reverting <==> r is WriteRevert
            &&& r is WriteRevert ==> (commit_waits(final(x).phase) <==> event->committed)
            &&& final(x).phase is Committing <==> r is EmitChain
            &&& final(x).phase is Acknowledging <==> r is Acknowledge
        }),
{
    assert((*final(x), r) == emit::after(*old(x), event));
}

/// What the emitter can hear: what it waits for, and nothing else.
pub proof fn lemma_emitter_hears(s: Emitter, event: Event)
    ensures
        emit::expects(s, event) <==> {
            ||| s.phase is Waiting && (event is Notification || event is StreamFailed
                || event is StreamEnded)
            ||| s.phase is Reverting && (event is RevertWritten || event is RevertFailed)
            ||| s.phase is Committing && (event is ChainEmitted || event is ChainFailed)
            ||| s.phase is Acknowledging && (event is Acknowledged || event is AcknowledgeFailed)
        },
{
}

/// A block is as old as the time since it was made, and not older than now; a clock
/// from before the epoch says the epoch.
pub proof fn lemma_times(now: u64, timestamp: u64, age: u64, said: Option<u64>, r: u64)
    requires
        call_ensures(emit::block_age_secs, (now, timestamp), age),
        call_ensures(emit::unix_seconds, (said,), r),
    ensures
        timestamp <= now ==> timestamp + age == now,
        timestamp > now ==> age == 0,
        said matches Some(s) ==> r == s,
        said is None ==> r == 0,
{
}

/// The time is what the clock said.
pub proof fn lemma_now(r: u64)
    requires
        call_ensures(emit::now_unix, (), r),
    ensures
        emit::clock_said(Some(r)) || (r == 0 && emit::clock_said(None)),
{
    let said = choose|said: Option<u64>|
        #[trigger] emit::clock_said(said) && r == (match said {
            Some(s) => s,
            None => 0,
        });
    assert(emit::clock_said(said));
}

// -------------------------------------------------------------------- counts

/// Counts start at nothing, and each is added to its own.
pub proof fn lemma_counts(x: &mut Stats, more: Stats, fresh: Stats)
    requires
        call_ensures(Stats::new, (), fresh),
        old(x).fits(more),
        call_ensures(Stats::grow, (x, &more), ()),
    ensures
        fresh.blocks == 0 && fresh.accounts == 0 && fresh.slots == 0 && fresh.code == 0
            && fresh.bytes == 0,
        final(x).blocks == old(x).blocks + more.blocks,
        final(x).accounts == old(x).accounts + more.accounts,
        final(x).slots == old(x).slots + more.slots,
        final(x).code == old(x).code + more.code,
        final(x).bytes == old(x).bytes + more.bytes,
{
}

/// An account that is not there has nothing, and the hash of no code.
pub proof fn lemma_absent_account(account: Option<AcctFields>, r: AcctFields)
    requires
        call_ensures(delta::fields_or_empty, (account,), r),
    ensures
        account matches Some(a) ==> r == a,
        account is None ==> {
            &&& r.nonce == 0
            &&& r.balance.hi == 0
            &&& r.balance.lo == 0
            &&& r.code_hash.hi == 0xc5d2460186f7233c927e7db2dcc703c0
            &&& r.code_hash.lo == 0xe500b653ca82273b7bfad8045d85a470
        },
{
}

/// A snapshot starts out knowing nothing.
pub proof fn lemma_new_snapshot(r: Snapshot)
    requires
        call_ensures(Snapshot::new, (), r),
    ensures
        r.well_formed(),
        forall|a: crate::primitives::Address| !#[trigger] r.account_map().contains_key(a),
        forall|k: SlotKey| !#[trigger] r.slot_map().contains_key(k),
{
}

/// Slots stand in the order of their accounts, and those of one account in the order
/// of their keys.
pub proof fn lemma_slot_order(a: SlotKey, b: SlotKey, r: bool)
    requires
        call_ensures(SlotKey::is_before, (&a, &b), r),
    ensures
        a.addr.before(b.addr) ==> r,
        b.addr.before(a.addr) && !a.addr.before(b.addr) && a.addr != b.addr ==> !r,
        a.addr == b.addr && !a.addr.before(b.addr) ==> (r <==> a.key.before(b.key)),
{
}

// ------------------------------------------------------------------- records

/// What a record is made of, is what it was made from.
pub proof fn lemma_records(
    s: &str,
    t: Json,
    items: Vec<Json>,
    l: Json,
    a: Json,
    b: Json,
    p: Json,
    numbers: Vec<u64>,
    n: Json,
    members: Vec<(String, Json)>,
    o: Json,
)
    requires
        call_ensures(Json::text, (s,), t),
        call_ensures(Json::list, (items,), l),
        call_ensures(Json::pair, (a, b), p),
        call_ensures(Json::numbers, (&numbers,), n),
        call_ensures(Json::object, (members,), o),
    ensures
        t matches Json::Text(x) && x@ == s@,
        l matches Json::List(v) && v@.len() == items@.len() && forall|i: int|
            0 <= i < v@.len() ==> (#[trigger] v@[i])@ == items@[i]@,
        p matches Json::List(v) && v@.len() == 2 && v@[0]@ == a@ && v@[1]@ == b@,
        n matches Json::List(v) && v@.len() == numbers@.len() && forall|i: int|
            0 <= i < v@.len() ==> (#[trigger] v@[i]) == Json::Number(numbers@[i]),
        o matches Json::Object(v) && v@.len() == members@.len() && forall|i: int|
            0 <= i < v@.len() ==> (#[trigger] v@[i]).0@ == members@[i].0@ && v@[i].1@
                == members@[i].1@,
{
    lemma_view(t);
    lemma_view(l);
    lemma_view(p);
    lemma_view(n);
    lemma_view(o);
    let lv = json::list_view(items@);
    let ov = json::members_view(members@);
    let nv = numbers@.map_values(|k: u64| JsonView::Number(k));
    if let Json::List(v) = l {
        assert forall|i: int| 0 <= i < v@.len() implies (#[trigger] v@[i])@ == items@[i]@ by {
            assert(lv[i] == items@[i]@);
        }
    }
    if let Json::List(v) = p {
        assert(v@[0]@ == a@ && v@[1]@ == b@);
    }
    if let Json::List(v) = n {
        assert forall|i: int| 0 <= i < v@.len() implies (#[trigger] v@[i]) == Json::Number(
            numbers@[i],
        ) by {
            assert(nv[i] == JsonView::Number(numbers@[i]));
            lemma_view(v@[i]);
        }
    }
    if let Json::Object(v) = o {
        assert forall|i: int| 0 <= i < v@.len() implies (#[trigger] v@[i]).0@ == members@[i].0@
            && v@[i].1@ == members@[i].1@ by {
            assert(ov[i] == (members@[i].0@, members@[i].1@));
        }
    }
}

proof fn lemma_view(j: Json)
    ensures
        j is Null <==> j@ is Null,
        j@ matches JsonView::Bool(b) ==> j == Json::Bool(b),
        j@ matches JsonView::Number(n) ==> j == Json::Number(n),
        j@ matches JsonView::Text(s) ==> j is Text && j->Text_0@ == s,
        j@ matches JsonView::List(s) ==> j is List && j->List_0@.len() == s.len() && forall|i: int|
            0 <= i < s.len() ==> #[trigger] j->List_0@[i]@ == s[i],
        j@ matches JsonView::Object(s) ==> j is Object && j->Object_0@.len() == s.len() && forall|
            i: int,
        |
            0 <= i < s.len() ==> (#[trigger] j->Object_0@[i]).0@ == s[i].0 && j->Object_0@[i].1@
                == s[i].1,
{
    reveal_with_fuel(json::json_view, 2);
}

/// A member that is added stands last, and the others stay where they are.
pub proof fn lemma_member_added(x: &mut Vec<(String, Json)>, name: &str, value: Json)
    requires
        call_ensures(json::add_member, (x, name, value), ()),
    ensures
        final(x)@.len() == old(x)@.len() + 1,
        final(x)@.last().0@ == name@,
        final(x)@.last().1@ == value@,
        forall|i: int|
            0 <= i < old(x)@.len() ==> (#[trigger] final(x)@[i]).0@ == old(x)@[i].0@
                && final(x)@[i].1@ == old(x)@[i].1@,
{
    let a = json::members_view(old(x)@);
    let b = json::members_view(final(x)@);
    assert(b.len() == final(x)@.len() && a.len() == old(x)@.len());
    assert(b.last() == (final(x)@.last().0@, final(x)@.last().1@));
    assert(b.last() == (name@, value@));
    assert forall|i: int| 0 <= i < old(x)@.len() implies (#[trigger] final(x)@[i]).0@ == old(
        x)@[i].0@ && final(x)@[i].1@ == old(x)@[i].1@ by {
        assert(b[i] == a[i]);
        assert(b[i] == (final(x)@[i].0@, final(x)@[i].1@));
        assert(a[i] == (old(x)@[i].0@, old(x)@[i].1@));
    }
}

/// `v` is what `j` says: the same truth, number or text; a list of as many values, each
/// of them what its own item says.
pub open spec fn means(v: ValueView, j: JsonView) -> bool {
    &&& j is Null <==> v is Null
    &&& j matches JsonView::Bool(b) ==> v == ValueView::Bool(b)
    &&& j matches JsonView::Number(n) ==> v == ValueView::Number(n)
    &&& j matches JsonView::Text(s) ==> v == ValueView::Text(s)
    &&& j matches JsonView::List(l) ==> v is List && v->List_0.len() == l.len()
    &&& j is Object ==> v is Object
}

/// Nothing behind this member has its name.
pub open spec fn is_last(members: Seq<(Seq<char>, JsonView)>, i: int) -> bool {
    &&& 0 <= i < members.len()
    &&& forall|k: int| i < k < members.len() ==> (#[trigger] members[k]).0 != members[i].0
}

proof fn lemma_last_named(members: Seq<(Seq<char>, JsonView)>, i: int)
    requires
        is_last(members, i),
    ensures
        json::last_named(members, members[i].0) == i,
    decreases members.len(),
{
    let n = members.len() - 1;
    if i < n {
        assert(members[n].0 != members[i].0);
        let p = members.drop_last();
        assert(p[i] == members[i]);
        assert forall|k: int| i < k < p.len() implies (#[trigger] p[k]).0 != p[i].0 by {
            assert(p[k] == members[k]);
        }
        lemma_last_named(p, i);
    }
}

proof fn lemma_named_is_there(members: Seq<(Seq<char>, JsonView)>, name: Seq<char>)
    ensures
        json::last_named(members, name) >= 0 ==> exists|i: int|
            0 <= i < members.len() && (#[trigger] members[i]).0 == name,
    decreases members.len(),
{
    if members.len() > 0 {
        let p = members.drop_last();
        lemma_named_is_there(p, name);
        if members.last().0 == name {
            assert(members[members.len() - 1].0 == name);
        } else if json::last_named(p, name) >= 0 {
            let i = choose|i: int| 0 <= i < p.len() && (#[trigger] p[i]).0 == name;
            assert(members[i] == p[i]);
        }
    }
}

/// What is printed of a record is what it says, member by member: of each name the
/// last member, and no other name.
pub proof fn lemma_printed(
    j: Json,
    i: int,
    name: Seq<char>,
    b: Result<Vec<u8>, serde_json::Error>,
    c: Result<Vec<u8>, serde_json::Error>,
)
    requires
        call_ensures(json::record_bytes, (&j,), b),
        call_ensures(json::record_bytes_pretty, (&j,), c),
    ensures
        b is Ok && c is Ok,
        exists|v: ValueView|
            {
                &&& #[trigger] means(v, j@)
                &&& b->Ok_0@ == json::printed(v)
                &&& c->Ok_0@ == json::printed_pretty(v)
                &&& j@ matches JsonView::List(l) ==> (0 <= i < l.len() ==> means(
                    v->List_0[i],
                    l[i],
                ) && v->List_0[i] == json::said(l[i]))
                &&& j@ matches JsonView::Object(m) ==> (is_last(m, i)
                    ==> v->Object_0.contains_key(m[i].0) && means(v->Object_0[m[i].0], m[i].1)
                    && v->Object_0[m[i].0] == json::said(m[i].1)) && (v->Object_0.contains_key(name)
                    ==> exists|k: int| 0 <= k < m.len() && (#[trigger] m[k]).0 == name)
            },
{
    let v = json::said(j@);
    lemma_means(j@);
    assert(means(v, j@));
    match j@ {
        JsonView::List(l) => {
            if 0 <= i < l.len() {
                lemma_means(l[i]);
            }
        },
        JsonView::Object(m) => {
            if is_last(m, i) {
                lemma_last_named(m, i);
                lemma_means(m[i].1);
            }
            lemma_named_is_there(m, name);
        },
        _ => {},
    }
}

proof fn lemma_means(j: JsonView)
    ensures
        means(json::said(j), j),
{
}

// ------------------------------------------------------------------- markers

/// A number that is not there is zero, and of sizes those are taken that are numbers.
pub proof fn lemma_marker_parts(
    n: Option<u64>,
    r: u64,
    sizes: Option<Vec<Option<u64>>>,
    s: Vec<u64>,
)
    requires
        call_ensures(marker::number_or_zero, (n,), r),
        call_ensures(marker::sizes_from, (&sizes,), s),
    ensures
        n matches Some(v) ==> r == v,
        n is None ==> r == 0,
        sizes is None ==> s@.len() == 0,
        sizes matches Some(v) ==> s@ == commit_point::integers_of(v@),
{
    if let Some(v) = sizes {
        commit_point::lemma_integers(v@);
    }
}

/// A table is complete where its marker is marked so, is of this block, and has one
/// size for each part: else the first of these that fails is told.
pub proof fn lemma_complete(values: MarkerValues, block: u64, r: Result<Complete, Lacks>)
    requires
        call_ensures(export::complete_from, (&values, block), r),
    ensures
        ({
            let sizes = match values.sizes {
                Some(v) => commit_point::integers_of(v@),
                None => Seq::empty(),
            };
            let part: u64 = match values.part {
                Some(n) => n,
                None => 0,
            };
            &&& r == Err::<Complete, Lacks>(Lacks::Done) <==> values.done != Some(true)
            &&& values.done == Some(true) ==> (values.block != Some(block) <==> r == Err::<
                Complete,
                Lacks,
            >(Lacks::Block { marker: values.block, database: block }))
            &&& values.done == Some(true) && values.block == Some(block) && part <= usize::MAX ==> (
            r is Ok <==> sizes.len() == part)
            &&& r matches Ok(c) ==> c.sizes@ == sizes && c.count == (match values.count {
                Some(n) => n,
                None => 0,
            })
        }),
{
    if let Some(v) = values.sizes {
        commit_point::lemma_integers(v@);
    }
}

/// A sink that goes on has the progress that it is given, with nothing being filled
/// and nothing on its way.
pub proof fn lemma_resumed(name: &str, part_bytes: usize, index_every: u64, p: Progress, s: Sink)
    requires
        call_ensures(Sink::resume, (name, part_bytes, index_every, p), s),
    ensures
        s.name@ == name@,
        s.part_bytes == part_bytes,
        s.index_every == index_every,
        s.part == p.part,
        s.count == p.count,
        s.global_off == p.global_off,
        s.sizes@ == p.sizes@,
        s.last_key is Some <==> p.last_key is Some,
        s.last_key matches Some(k) ==> k@ == p.last_key->Some_0@,
        s.buf@.len() == 0,
        s.idx_frag@.len() == 0,
        s.pending@.len() == 0,
{
    let v = s@;
    assert(v.name == s.name@ && v.buf == s.buf@ && v.idx_frag == s.idx_frag@);
    assert(v.sizes == s.sizes@ && v.pending.len() == s.pending@.len());
    assert(v.last_key == marker::key_view(s.last_key));
}

/// A sink goes on from what a marker holds exactly where the progress can be taken up,
/// and then with that progress.
pub proof fn lemma_opened_at(
    values: MarkerValues,
    name: &str,
    part_bytes: usize,
    index_every: u64,
    block: u64,
    p: Result<Progress, Refusal>,
    r: Result<(Sink, bool), Refusal>,
)
    requires
        call_ensures(marker::progress_from, (&values, block), p),
        call_ensures(Sink::open_at, (&values, name, part_bytes, index_every, block), r),
    ensures
        p matches Err(e) ==> r == Err::<(Sink, bool), Refusal>(e),
        p matches Ok(q) ==> (r matches Ok((s, done)) && {
            &&& done == q.done
            &&& s.name@ == name@
            &&& s.part_bytes == part_bytes
            &&& s.index_every == index_every
            &&& s.part == q.part
            &&& s.count == q.count
            &&& s.global_off == q.global_off
            &&& s.sizes@ == q.sizes@
            &&& s.last_key is Some <==> q.last_key is Some
            &&& s.last_key is Some ==> s.last_key->Some_0@ == q.last_key->Some_0@
            &&& s.buf@.len() == 0
            &&& s.idx_frag@.len() == 0
            &&& s.pending@.len() == 0
        }),
{
    if let Ok((s, done)) = r {
        let v = s@;
        assert(v.name == s.name@ && v.buf == s.buf@ && v.idx_frag == s.idx_frag@);
        assert(v.sizes == s.sizes@ && v.pending.len() == s.pending@.len());
        assert(v.last_key == marker::key_view(s.last_key));
    }
}

// --------------------------------------------------------------------- fence

/// The fence lets through exactly the block that is expected, where the watermark
/// stands at its number, has its hash, and every owner stands there too.
pub proof fn lemma_fence(
    s: PersistenceCheckpointSnapshot,
    expected: BlockNumHash,
    r: Result<BlockNumHash, PersistenceFenceError>,
)
    requires
        call_ensures(PersistenceCheckpointSnapshot::validate, (&s, expected), r),
    ensures
        r matches Ok(b) ==> b == expected,
        r is Ok <==> s.finish == Some(expected.number) && s.finish_hash == Some(expected.hash)
            && forall|i: int|
            0 <= i < s.owners@.len() ==> (#[trigger] s.owners@[i]).checkpoint == Some(
                expected.number,
            ),
        s.finish is None ==> r is Err && r->Err_0 is MissingFinish,
        s.finish matches Some(n) ==> n != expected.number ==> r == Err::<
            BlockNumHash,
            PersistenceFenceError,
        >(
            PersistenceFenceError::FinishDoesNotMatchLastPersisted {
                finish: n,
                last_persisted: expected.number,
            },
        ),
{
    if s.finish == Some(expected.number) {
        lemma_owners(s.owners@, expected.number);
    }
}

proof fn lemma_owners(
    owners: Seq<crate::persistence_fence::PersistenceOwnerCheckpoint>,
    finish: u64,
)
    ensures
        crate::persistence_fence::owner_fault(owners, finish) is None <==> forall|i: int|
            0 <= i < owners.len() ==> (#[trigger] owners[i]).checkpoint == Some(finish),
    decreases owners.len(),
{
    if owners.len() > 0 {
        let p = owners.drop_last();
        lemma_owners(p, finish);
        if forall|i: int|
            0 <= i < owners.len() ==> (#[trigger] owners[i]).checkpoint == Some(finish) {
            assert(owners[owners.len() - 1].checkpoint == Some(finish));
            assert forall|i: int| 0 <= i < p.len() implies (#[trigger] p[i]).checkpoint == Some(
                finish,
            ) by {
                assert(p[i] == owners[i]);
            }
        }
        if crate::persistence_fence::owner_fault(owners, finish) is None {
            assert forall|i: int| 0 <= i < owners.len() implies (
            #[trigger] owners[i]).checkpoint == Some(finish) by {
                if i < p.len() {
                    assert(p[i] == owners[i]);
                }
            }
        }
    }
}

/// A block follows another where its number is the next one, and its parent is that
/// block; the number is looked at first, and what is told is of these blocks.
pub proof fn lemma_follows(
    before: BlockNumHash,
    block: BlockNumHash,
    parent: B256,
    first: Result<(), PersistenceFenceError>,
    next: Result<(), PersistenceFenceError>,
)
    requires
        call_ensures(
            PersistenceCheckpointSnapshot::validate_first_block,
            (before, block, parent),
            first,
        ),
        call_ensures(
            PersistenceCheckpointSnapshot::validate_next_block,
            (before, block, parent),
            next,
        ),
    ensures
        first is Ok <==> block.number == before.number + 1 && parent == before.hash,
        next is Ok <==> block.number == before.number + 1 && parent == before.hash,
        block.number != before.number + 1 ==> {
            &&& first matches Err(PersistenceFenceError::FirstBlockDoesNotExtendFinish {
                first_block,
                finish,
            }) && first_block == block.number && finish == before.number
            &&& next matches Err(PersistenceFenceError::BatchBlockDoesNotExtendPrevious {
                previous,
                block: b,
            }) && previous == before && b == block
        },
        block.number == before.number + 1 && parent != before.hash ==> {
            &&& first matches Err(PersistenceFenceError::FirstBlockParentDoesNotMatchFinish {
                first_block,
                parent_hash,
                finish,
            }) && first_block == block && parent_hash == parent && finish == before
            &&& next matches Err(PersistenceFenceError::BatchBlockParentDoesNotMatchPrevious {
                previous,
                block: b,
                parent_hash,
            }) && previous == before && b == block && parent_hash == parent
        },
{
}

/// The service starts out idle, with no number to write; a handle sends where it was
/// told to.
pub proof fn lemma_service<B>(
    s: PersistenceService,
    sender: std::sync::mpsc::Sender<PersistenceAction<B>>,
    h: PersistenceHandle<B>,
)
    requires
        call_ensures(PersistenceService::new, (), s),
        call_ensures(PersistenceHandle::<B>::new, (sender,), h),
    ensures
        s.pending_finalized_block is None,
        s.pending_safe_block is None,
        s.job is Idle,
        h.to() == sender,
{
    assert(s@.pending_finalized == s.pending_finalized_block);
    assert(s@.pending_safe == s.pending_safe_block);
}

/// What the service is doing is seen as it is.
pub proof fn lemma_job_seen(s: PersistenceService)
    ensures
        s@.pending_finalized == s.pending_finalized_block,
        s@.pending_safe == s.pending_safe_block,
        s.job is Idle <==> s@.job is Idle,
        s.job is Stopped <==> s@.job is Stopped,
        s.job matches Job::Saving { links, expected, finalized, safe, phase } ==> s@.job == (
        JobView::Saving { links: links@, expected, finalized, safe, phase }),
        s.job matches Job::ReadingTip { tip } ==> s@.job == (JobView::ReadingTip { tip }),
        s.job matches Job::Removing { tip, hash } ==> s@.job == (JobView::Removing { tip, hash }),
        s.job matches Job::CommittingRemoval { tip, hash } ==> s@.job == (
        JobView::CommittingRemoval { tip, hash }),
{
}

/// What is handed to a handle is what it sends, and what comes back.
pub proof fn lemma_send<B>(
    h: PersistenceHandle<B>,
    action: PersistenceAction<B>,
    r: Result<(), PersistenceAction<B>>,
)
    requires
        call_ensures(PersistenceHandle::<B>::send_action, (&h, action), r),
    ensures
        h.asked(action, r),
        r matches Err(back) ==> back == action,
{
}

// ---------------------------------------------------------------------- text

/// Digits and bytes are what they are read as.
pub proof fn lemma_text_parts(
    d: u8,
    c: char,
    s: &str,
    v: Vec<char>,
    x: char,
    y: char,
    hx: Option<u8>,
    p: Option<u8>,
)
    requires
        d < 16,
        call_ensures(text::digit, (d,), c),
        call_ensures(text::chars_of, (s,), v),
        call_ensures(text::hex_value_of, (x,), hx),
        call_ensures(text::pair_value_of, (x, y), p),
    ensures
        d < 10 ==> c as u32 == 0x30 + d,
        d >= 10 ==> c as u32 == 0x61 + (d - 10),
        v@ == s@,
        hx matches Some(h) ==> h < 16 && {
            ||| 0x30 <= x as u32 <= 0x39 && h == x as u32 - 0x30
            ||| 0x41 <= x as u32 <= 0x46 && h == x as u32 - 0x41 + 10
            ||| 0x61 <= x as u32 <= 0x66 && h == x as u32 - 0x61 + 10
        },
        hx is None <==> !(0x30 <= x as u32 <= 0x39 || 0x41 <= x as u32 <= 0x46 || 0x61 <= x as u32
            <= 0x66),
        hx is Some && text::hex_value(y) is Some ==> p is Some && p->Some_0 == 16 * hx->Some_0
            + text::hex_value(y)->Some_0,
        hx is None && x == '+' ==> p == text::hex_value(y),
        hx is None && x != '+' ==> p is None,
        text::hex_value(y) is None ==> p is None,
{
}

/// A text of one byte for each character can always be cut into pairs of bytes; one
/// whose first pair would cut through a character cannot, where the number of its
/// bytes is even. What stands behind a pair that is no byte is not looked at.
pub proof fn lemma_cuts(s: &str, rest: Seq<char>, t: &str, q: bool, r: bool)
    requires
        call_ensures(text::hex_cuts_whole, (s,), r),
        call_ensures(text::hex_cuts_whole, (t,), q),
        rest == t@,
    ensures
        utf8::is_ascii_chars(s@) ==> r,
        utf8::encode_utf8(s@).len() % 2 != 0 ==> r,
        ({
            let even = utf8::encode_utf8(s@).len() % 2 == 0;
            &&& s@.len() >= 2 && even && (s@[0] as u32) < 0x80 && (s@[1] as u32) >= 0x80 ==> !r
            &&& s@.len() >= 1 && even && (s@[0] as u32) >= 0x800 ==> !r
            &&& s@.len() >= 1 && 0x80 <= (s@[0] as u32) < 0x800 ==> r
            &&& s@.len() >= 2 && (s@[0] as u32) < 0x80 && (s@[1] as u32) < 0x80
                && text::pair_value(s@[0], s@[1]) is None ==> r
            &&& s@.len() >= 2 && even && utf8::encode_utf8(t@).len() % 2 == 0 && (s@[0] as u32)
                < 0x80 && (s@[1] as u32) < 0x80 && text::pair_value(s@[0], s@[1]) is Some && s@
                == seq![s@[0], s@[1]] + rest ==> (r <==> q)
        }),
{
    if utf8::is_ascii_chars(s@) {
        utf8::is_ascii_chars_encode_utf8(s@);
        if s@.len() % 2 == 0 {
            lemma_ascii_pairs(s@);
        }
    }
    if s@.len() >= 2 && s@ == seq![s@[0], s@[1]] + rest {
        assert(s@.subrange(2, s@.len() as int) =~= rest);
    }
}

proof fn lemma_ascii_pairs(s: Seq<char>)
    requires
        utf8::is_ascii_chars(s),
        s.len() % 2 == 0,
    ensures
        text::pairs_whole(s),
    decreases s.len(),
{
    utf8::is_ascii_chars_nat_bound(s);
    if s.len() > 0 {
        let t = s.subrange(2, s.len() as int);
        assert(s =~= seq![s[0], s[1]] + t);
        utf8::is_ascii_chars_concat(s, seq![s[0], s[1]], t);
        lemma_ascii_pairs(t);
        assert((s[0] as u32) < 0x80 && (s[1] as u32) < 0x80);
    }
}

/// An array is the bytes that it was made from.
pub proof fn lemma_array<const N: usize>(bytes: &[u8], r: [u8; N])
    requires
        bytes@.len() == N,
        call_ensures(hash::to_array::<N>, (bytes,), r),
    ensures
        r@.len() == bytes@.len(),
        forall|i: int| 0 <= i < bytes@.len() ==> #[trigger] r@[i] == bytes@[i],
{
}

} // verus!
