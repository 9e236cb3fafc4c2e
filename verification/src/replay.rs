//! What a reader of the records of a chain comes to know, block by block.

use vstd::prelude::*;

use crate::changes;
use crate::changes::{bundle_account, bundle_lacks_account, bundle_lacks_slot, bundle_slot};
use crate::delta;
use crate::delta::{Bundle, Stats};
use crate::emit;
use crate::emit::{ChainBlock, ChainData, ChainEmission, EmitStep};
use crate::json::JsonView;
use crate::primitives::{Address, U256};
use crate::published;
use crate::snapshot::{AcctFields, SlotKey, Snapshot};

verus! {

// ------------------------------------------------------------------ outcomes

proof fn lemma_outcome_at(blocks: Seq<ChainBlock>, n: int)
    ensures
        (exists|i: int|
            {
                &&& 0 <= i < blocks.len()
                &&& (#[trigger] blocks[i]).header.number == n
                &&& forall|k: int|
                    i < k < blocks.len() ==> (#[trigger] blocks[k]).header.number != n
                &&& emit::outcome_at(blocks, n) == blocks[i].outcome
            }) || (emit::outcome_at(blocks, n) is None && forall|i: int|
            0 <= i < blocks.len() ==> (#[trigger] blocks[i]).header.number != n),
    decreases blocks.len(),
{
    if blocks.len() > 0 {
        let p = blocks.drop_last();
        let m = blocks.len() - 1;
        lemma_outcome_at(p, n);
        if blocks.last().header.number == n {
            assert(blocks[m].header.number == n);
        } else if exists|i: int|
            {
                &&& 0 <= i < p.len()
                &&& (#[trigger] p[i]).header.number == n
                &&& forall|k: int| i < k < p.len() ==> (#[trigger] p[k]).header.number != n
                &&& emit::outcome_at(p, n) == p[i].outcome
            } {
            let i = choose|i: int|
                {
                    &&& 0 <= i < p.len()
                    &&& (#[trigger] p[i]).header.number == n
                    &&& forall|k: int| i < k < p.len() ==> (#[trigger] p[k]).header.number != n
                    &&& emit::outcome_at(p, n) == p[i].outcome
                };
            assert(blocks[i] == p[i]);
            assert forall|k: int| i < k < blocks.len() implies (
            #[trigger] blocks[k]).header.number != n by {
                if k < m {
                    assert(p[k] == blocks[k]);
                }
            }
        } else {
            assert forall|i: int| 0 <= i < blocks.len() implies (
            #[trigger] blocks[i]).header.number != n by {
                if i < m {
                    assert(p[i] == blocks[i]);
                }
            }
        }
    }
}

/// The state after a block is the one that the chain holds for the block of that
/// number, and none where it has no such block or no state for it.
pub proof fn lemma_outcome_of_block(chain: ChainData, n: u64, r: Option<&Bundle>, i: int)
    requires
        chain.well_formed(),
        call_ensures(emit::execution_outcome_at_block, (&chain, n), r),
        0 <= i < chain.blocks@.len(),
    ensures
        chain.blocks@[i].header.number == n ==> match chain.blocks@[i].outcome {
            Some(b) => r == Some(&b),
            None => r is None,
        },
        (forall|k: int|
            0 <= k < chain.blocks@.len() ==> (#[trigger] chain.blocks@[k]).header.number != n)
            ==> r is None,
{
    let blocks = chain.blocks@;
    lemma_outcome_at(blocks, n as int);
    if blocks[i].header.number == n {
        let k = choose|k: int|
            {
                &&& 0 <= k < blocks.len()
                &&& (#[trigger] blocks[k]).header.number == n
                &&& forall|l: int|
                    k < l < blocks.len() ==> (#[trigger] blocks[l]).header.number != n
                &&& emit::outcome_at(blocks, n as int) == blocks[k].outcome
            };
        if i < k {
            assert(blocks[i].header.number < blocks[k].header.number);
        } else if k < i {
            assert(blocks[k].header.number < blocks[i].header.number);
        }
    }
}

proof fn lemma_outcome_here(chain: ChainData, i: int)
    requires
        chain.well_formed(),
        0 <= i < chain.blocks@.len(),
    ensures
        emit::outcome_at(chain.blocks@, chain.blocks@[i].header.number as int)
            == chain.blocks@[i].outcome,
        i > 0 && chain.blocks@[i - 1].header.number + 1 == chain.blocks@[i].header.number
            ==> emit::outcome_at(chain.blocks@, chain.blocks@[i].header.number - 1)
            == chain.blocks@[i - 1].outcome,
        i > 0 && chain.blocks@[i - 1].header.number + 1 != chain.blocks@[i].header.number
            ==> emit::outcome_at(chain.blocks@, chain.blocks@[i].header.number - 1) is None,
        i > 0 ==> chain.blocks@[i].header.number != chain.first(),
        chain.first() == chain.tip().number <==> chain.blocks@.len() == 1,
{
    let blocks = chain.blocks@;
    let n = blocks[i].header.number as int;
    lemma_outcome_at(blocks, n);
    let k = choose|k: int|
        {
            &&& 0 <= k < blocks.len()
            &&& (#[trigger] blocks[k]).header.number == n
            &&& forall|l: int| k < l < blocks.len() ==> (#[trigger] blocks[l]).header.number != n
            &&& emit::outcome_at(blocks, n) == blocks[k].outcome
        };
    if i < k {
        assert(blocks[i].header.number < blocks[k].header.number);
    } else if k < i {
        assert(blocks[k].header.number < blocks[i].header.number);
    }
    if blocks.len() > 1 {
        assert(blocks[0].header.number < blocks[blocks.len() - 1].header.number);
    }
    if i > 0 {
        assert(blocks[0].header.number < blocks[i].header.number);
        assert(blocks[i - 1].header.number < blocks[i].header.number);
        lemma_outcome_at(blocks, n - 1);
        if exists|k: int|
            {
                &&& 0 <= k < blocks.len()
                &&& (#[trigger] blocks[k]).header.number == n - 1
                &&& forall|l: int|
                    k < l < blocks.len() ==> (#[trigger] blocks[l]).header.number != n - 1
                &&& emit::outcome_at(blocks, n - 1) == blocks[k].outcome
            } {
            let k = choose|k: int|
                {
                    &&& 0 <= k < blocks.len()
                    &&& (#[trigger] blocks[k]).header.number == n - 1
                    &&& forall|l: int|
                        k < l < blocks.len() ==> (#[trigger] blocks[l]).header.number != n - 1
                    &&& emit::outcome_at(blocks, n - 1) == blocks[k].outcome
                };
            if k < i - 1 {
                assert(blocks[k].header.number < blocks[i - 1].header.number);
            } else if k == i {
            } else if k > i {
                assert(blocks[i].header.number < blocks[k].header.number);
            }
        } else {
            assert(blocks[i - 1].header.number != n - 1);
        }
    }
}

/// The state that the chain's `i`th block left: its own, or the whole chain's where
/// the chain is one block.
pub open spec fn left(chain: ChainData, i: int) -> Option<Bundle> {
    if chain.blocks@.len() == 1 {
        Some(chain.aggregate)
    } else {
        chain.blocks@[i].outcome
    }
}

/// The state that the block before the chain's `i`th block left, where the chain
/// holds that block.
pub open spec fn left_before(chain: ChainData, i: int) -> Option<Bundle> {
    if i > 0 && chain.blocks@[i - 1].header.number + 1 == chain.blocks@[i].header.number {
        chain.blocks@[i - 1].outcome
    } else {
        None
    }
}

// --------------------------------------------------------------------- slots

/// The `i`th block found the slot `at` at `v`: as the block before left it, or where
/// that never touched it as the chain entered with it, or zero where the chain never
/// touches it.
pub open spec fn slot_found(chain: ChainData, i: int, at: SlotKey, v: U256) -> bool {
    ||| left_before(chain, i) matches Some(b) && exists|x: U256| #[trigger]
        bundle_slot(b, at, x, v)
    ||| (left_before(chain, i) matches Some(b) ==> bundle_lacks_slot(b, at)) && slot_entered(
        chain,
        at,
        v,
    )
}

/// The chain entered with the slot `at` at `v`, zero where it never touches it.
pub open spec fn slot_entered(chain: ChainData, at: SlotKey, v: U256) -> bool {
    ||| exists|y: U256| #[trigger] bundle_slot(chain.aggregate, at, v, y)
    ||| bundle_lacks_slot(chain.aggregate, at) && v == (U256 { hi: 0, lo: 0 })
}

/// The `i`th block left the slot `at` at `v`.
pub open spec fn slot_left(chain: ChainData, i: int, at: SlotKey, v: U256) -> bool {
    left(chain, i) matches Some(b) && exists|x: U256| #[trigger] bundle_slot(b, at, x, v)
}

/// The `i`th block found the account `addr` as `info`, in the same way.
pub open spec fn account_found(
    chain: ChainData,
    i: int,
    addr: Address,
    info: Option<AcctFields>,
) -> bool {
    ||| left_before(chain, i) matches Some(b) && exists|x: Option<AcctFields>| #[trigger]
        bundle_account(b, addr, x, info)
    ||| (left_before(chain, i) matches Some(b) ==> bundle_lacks_account(b, addr)) && {
        ||| exists|y: Option<AcctFields>| #[trigger]
            bundle_account(chain.aggregate, addr, info, y)
        ||| bundle_lacks_account(chain.aggregate, addr) && info is None
    }
}

/// The `i`th block left the account `addr` as `info`.
pub open spec fn account_left(
    chain: ChainData,
    i: int,
    addr: Address,
    info: Option<AcctFields>,
) -> bool {
    left(chain, i) matches Some(b) && exists|x: Option<AcctFields>| #[trigger]
        bundle_account(b, addr, x, info)
}

proof fn lemma_side_slot(s: Snapshot, b: Bundle, present: bool, at: SlotKey, v: U256)
    requires
        emit::says(s, b, present),
    ensures
        present ==> (changes::has_slot(s, at, v) <==> exists|x: U256| #[trigger]
            bundle_slot(b, at, x, v)),
        !present ==> (changes::has_slot(s, at, v) <==> exists|y: U256| #[trigger]
            bundle_slot(b, at, v, y)),
        changes::lacks_slot(s, at) <==> bundle_lacks_slot(b, at),
{
    changes::lemma_side(s, b, present);
    changes::lemma_slot_map(s, at);
    changes::lemma_bundle_slots(b.state@, present, at);
    assert(changes::lacks_slot(s, at) <==> bundle_lacks_slot(b, at));
    if changes::has_slot(s, at, v) {
        let (a, k) = choose|a: int, k: int| #[trigger]
            changes::last_there(b.state@, at, a, k) && s.slot_map()[at] == changes::side(
                b.state@[a].storage@[k],
                present,
            );
        assert(changes::slot_there(b.state@, at, a, k));
        let slot = b.state@[a].storage@[k];
        assert(bundle_slot(b, at, slot.previous_or_original_value, slot.present_value));
    }
    if present {
        if exists|x: U256| #[trigger] bundle_slot(b, at, x, v) {
            let x = choose|x: U256| #[trigger] bundle_slot(b, at, x, v);
            assert(changes::has_slot(s, at, v));
        }
    } else {
        if exists|y: U256| #[trigger] bundle_slot(b, at, v, y) {
            let y = choose|y: U256| #[trigger] bundle_slot(b, at, v, y);
            assert(changes::has_slot(s, at, v));
        }
    }
}

proof fn lemma_side_account(
    s: Snapshot,
    b: Bundle,
    present: bool,
    addr: Address,
    v: Option<AcctFields>,
)
    requires
        emit::says(s, b, present),
    ensures
        present ==> (changes::has_account(s, addr, v) <==> exists|x: Option<AcctFields>| #[trigger]
            bundle_account(b, addr, x, v)),
        !present ==> (changes::has_account(s, addr, v) <==> exists|y: Option<AcctFields>|
            #[trigger]
            bundle_account(b, addr, v, y)),
        changes::lacks_account(s, addr) <==> bundle_lacks_account(b, addr),
{
    changes::lemma_side(s, b, present);
    changes::lemma_account_map(s, addr);
    changes::lemma_bundle_accounts(b.state@, present, addr);
    assert(changes::lacks_account(s, addr) <==> bundle_lacks_account(b, addr));
    if changes::has_account(s, addr, v) {
        let a = choose|a: int| #[trigger]
            changes::last_account(b.state@, addr, a) && s.account_map()[addr]
                == changes::account_side(b.state@[a], present);
        let acct = b.state@[a];
        assert(b.state@[a].addr == addr);
        assert(bundle_account(b, addr, acct.original_info, acct.info));
    }
    if present {
        if exists|x: Option<AcctFields>| #[trigger] bundle_account(b, addr, x, v) {
            let x = choose|x: Option<AcctFields>| #[trigger] bundle_account(b, addr, x, v);
            assert(changes::has_account(s, addr, v));
        }
    } else {
        if exists|y: Option<AcctFields>| #[trigger] bundle_account(b, addr, v, y) {
            let y = choose|y: Option<AcctFields>| #[trigger] bundle_account(b, addr, v, y);
            assert(changes::has_account(s, addr, v));
        }
    }
}

/// `d` is the delta of the chain's `i`th block: it tells of a slot exactly that the
/// block left it at another value than it found, and of an account that the block
/// left it as something else.
pub open spec fn is_delta(chain: ChainData, i: int, d: JsonView) -> bool {
    &&& forall|at: SlotKey, pre: U256, v: U256|
        #[trigger] changes::tells_slot(d, at, pre, v) <==> slot_found(chain, i, at, pre)
            && slot_left(chain, i, at, v) && pre != v
    &&& forall|addr: Address, before: Option<AcctFields>, after: Option<AcctFields>|
        #![trigger account_found(chain, i, addr, before), account_left(chain, i, addr, after)]
        account_found(chain, i, addr, before) && account_left(chain, i, addr, after) ==> {
            &&& before != after ==> changes::tells_account(d, addr, before, after)
            &&& before == after ==> !changes::speaks_of(d, addr)
        }
    &&& forall|addr: Address| #[trigger]
        changes::speaks_of(d, addr) ==> exists|before: Option<AcctFields>, after: Option<
            AcctFields,
        >|
            {
                &&& #[trigger] account_found(chain, i, addr, before)
                &&& #[trigger] account_left(chain, i, addr, after)
                &&& before != after
            }
}

proof fn lemma_boundaries(
    chain: ChainData,
    i: int,
    original: Snapshot,
    prev: Option<&Snapshot>,
    post: Snapshot,
)
    requires
        chain.well_formed(),
        0 <= i < chain.blocks@.len(),
        emit::boundaries(chain, i, original, prev, post),
    ensures
        original.well_formed(),
        delta::prev_well_formed(prev),
        post.well_formed(),
        forall|at: SlotKey, v: U256|
            #[trigger] changes::slot_was(original, prev, at, v) <==> slot_found(chain, i, at, v),
        forall|at: SlotKey, v: U256|
            #[trigger] changes::has_slot(post, at, v) <==> slot_left(chain, i, at, v),
        forall|addr: Address, v: Option<AcctFields>|
            #[trigger] changes::account_was(original, prev, addr, v) <==> account_found(
                chain,
                i,
                addr,
                v,
            ),
        forall|addr: Address, v: Option<AcctFields>|
            #[trigger] changes::has_account(post, addr, v) <==> account_left(chain, i, addr, v),
{
    lemma_outcome_here(chain, i);
    let b = left(chain, i)->Some_0;
    assert(emit::post_outcome(chain, i) == left(chain, i));
    assert(emit::prev_outcome(chain, i) == left_before(chain, i));
    assert forall|at: SlotKey, v: U256|
        #[trigger] changes::slot_was(original, prev, at, v) <==> slot_found(chain, i, at, v) by {
        lemma_side_slot(original, chain.aggregate, false, at, v);
        if let Some(p) = prev {
            lemma_side_slot(*p, left_before(chain, i)->Some_0, true, at, v);
        }
    }
    assert forall|at: SlotKey, v: U256|
        #[trigger] changes::has_slot(post, at, v) <==> slot_left(chain, i, at, v) by {
        lemma_side_slot(post, b, true, at, v);
    }
    assert forall|addr: Address, v: Option<AcctFields>|
        #[trigger] changes::account_was(original, prev, addr, v) <==> account_found(
            chain,
            i,
            addr,
            v,
        ) by {
        lemma_side_account(original, chain.aggregate, false, addr, v);
        if let Some(p) = prev {
            lemma_side_account(*p, left_before(chain, i)->Some_0, true, addr, v);
        }
    }
    assert forall|addr: Address, v: Option<AcctFields>|
        #[trigger] changes::has_account(post, addr, v) <==> account_left(chain, i, addr, v) by {
        lemma_side_account(post, b, true, addr, v);
    }
}

proof fn lemma_is_delta(
    chain: ChainData,
    i: int,
    original: Snapshot,
    prev: Option<&Snapshot>,
    post: Snapshot,
)
    requires
        chain.well_formed(),
        0 <= i < chain.blocks@.len(),
        emit::boundaries(chain, i, original, prev, post),
    ensures
        is_delta(
            chain,
            i,
            delta::delta_view(original, prev, post, chain.aggregate.contracts@),
        ),
{
    let contracts = chain.aggregate.contracts@;
    let d = delta::delta_view(original, prev, post, contracts);
    lemma_boundaries(chain, i, original, prev, post);
    assert forall|at: SlotKey, pre: U256, v: U256|
        #[trigger] changes::tells_slot(d, at, pre, v) <==> slot_found(chain, i, at, pre)
            && slot_left(chain, i, at, v) && pre != v by {
        assert(changes::slot_was(original, prev, at, pre) <==> slot_found(chain, i, at, pre));
        assert(changes::has_slot(post, at, v) <==> slot_left(chain, i, at, v));
        if changes::tells_slot(d, at, pre, v) {
            changes::lemma_told_slot(original, prev, post, contracts, at, pre, v);
        }
        if slot_found(chain, i, at, pre) && slot_left(chain, i, at, v) && pre != v {
            changes::lemma_slot_told(original, prev, post, contracts, at, pre, v);
        }
    }
    assert forall|addr: Address| #[trigger] changes::speaks_of(d, addr) implies exists|
        before: Option<AcctFields>,
        after: Option<AcctFields>,
    |
        {
            &&& #[trigger] account_found(chain, i, addr, before)
            &&& #[trigger] account_left(chain, i, addr, after)
            &&& before != after
        } by {
        changes::lemma_told_account(original, prev, post, contracts, addr);
        let (x, y) = choose|x: Option<AcctFields>, y: Option<AcctFields>|
            {
                &&& #[trigger] changes::has_account(post, addr, y)
                &&& #[trigger] changes::account_was(original, prev, addr, x)
                &&& x != y
            };
        assert(account_found(chain, i, addr, x));
        assert(account_left(chain, i, addr, y));
    }
    assert forall|addr: Address, before: Option<AcctFields>, after: Option<AcctFields>|
        #![trigger account_found(chain, i, addr, before), account_left(chain, i, addr, after)]
        account_found(chain, i, addr, before) && account_left(chain, i, addr, after) implies {
        &&& before != after ==> changes::tells_account(d, addr, before, after)
        &&& before == after ==> !changes::speaks_of(d, addr)
    } by {
        assert(changes::account_was(original, prev, addr, before));
        assert(changes::has_account(post, addr, after));
        if before != after {
            changes::lemma_account_told(original, prev, post, contracts, addr, before, after);
        } else if changes::speaks_of(d, addr) {
            changes::lemma_told_account(original, prev, post, contracts, addr);
            let (x, y) = choose|x: Option<AcctFields>, y: Option<AcctFields>|
                {
                    &&& #[trigger] changes::has_account(post, addr, y)
                    &&& #[trigger] changes::account_was(original, prev, addr, x)
                    &&& x != y
                };
            changes::lemma_account_was(original, prev, addr);
            changes::lemma_account_map(post, addr);
            assert(changes::has_account(post, addr, y) && changes::has_account(post, addr, after));
            assert(changes::account_was(original, prev, addr, before));
        }
    }
}

/// One step of an emission: the next block has its segment, under its own number,
/// with its own header and its own delta; a longer chain fails at a block for which
/// it holds no state; and it is done when every block had its turn.
pub proof fn lemma_emission_step(chain: ChainData, e: ChainEmission, emit_unix: u64, r: EmitStep)
    requires
        chain.well_formed(),
        e.of(chain),
        call_ensures(ChainEmission::next, (&e, &chain, emit_unix), r),
    ensures
        r is Done <==> e.at == chain.blocks@.len(),
        r is NoOutcome <==> e.at < chain.blocks@.len() && chain.blocks@.len() > 1
            && chain.blocks@[e.at as int].outcome is None,
        r matches EmitStep::NoOutcome(n) ==> n == chain.blocks@[e.at as int].header.number,
        r matches EmitStep::Write(segment) ==> {
            &&& published::names_block(
                segment.name@,
                chain.blocks@[e.at as int].header.number,
            )
            &&& exists|d: JsonView|
                {
                    &&& #[trigger] published::tells_commit(
                        segment.record@,
                        chain.blocks@[e.at as int].header,
                        emit_unix,
                        d,
                    )
                    &&& is_delta(chain, e.at as int, d)
                }
        },
{
    let i = e.at as int;
    if i < chain.blocks@.len() {
        lemma_outcome_here(chain, i);
        if let EmitStep::Write(segment) = r {
            let h = chain.blocks@[i].header;
            published::lemma_named(h.number);
            let contracts = chain.aggregate.contracts@;
            let (original, prev, post) = choose|
                original: Snapshot,
                prev: Option<&Snapshot>,
                post: Snapshot,
            |
                {
                    &&& #[trigger] emit::boundaries(chain, i, original, prev, post)
                    &&& segment.record@ == emit::commit_record_view(
                        h,
                        emit_unix,
                        delta::delta_view(original, prev, post, contracts),
                    )
                    &&& delta::delta_counts(original, prev, post, contracts, segment.stats)
                };
            let d = delta::delta_view(original, prev, post, contracts);
            lemma_is_delta(chain, i, original, prev, post);
            published::lemma_commit_told(h, emit_unix, d);
        }
    }
}

/// An emission starts with the first block, and a segment that was written moves it
/// on by one block and is counted: one block, its changes, its bytes.
pub proof fn lemma_emission_moves_on(
    chain: ChainData,
    first: ChainEmission,
    x: &mut ChainEmission,
    stats: Stats,
    bytes: usize,
)
    requires
        call_ensures(ChainEmission::new, (&chain,), first),
        call_ensures(ChainEmission::wrote, (x, &chain, &stats, bytes), ()),
        old(x).stats.blocks < u64::MAX,
        old(x).stats.accounts + stats.accounts <= usize::MAX,
        old(x).stats.slots + stats.slots <= usize::MAX,
        old(x).stats.code + stats.code <= usize::MAX,
        old(x).stats.bytes + bytes <= usize::MAX,
    ensures
        first.of(chain),
        first.at == 0,
        first.stats == (Stats { blocks: 0, accounts: 0, slots: 0, code: 0, bytes: 0 }),
        final(x).at == old(x).at + 1,
        final(x).original == old(x).original,
        final(x).stats.blocks == old(x).stats.blocks + 1,
        final(x).stats.accounts == old(x).stats.accounts + stats.accounts,
        final(x).stats.slots == old(x).stats.slots + stats.slots,
        final(x).stats.code == old(x).stats.code + stats.code,
        final(x).stats.bytes == old(x).stats.bytes + bytes,
{
}

// -------------------------------------------------------------------- reader

/// What a reader holds of the slot `at` that started with `start` and took in these
/// deltas, one after the other.
pub open spec fn slot_read(deltas: Seq<JsonView>, start: U256, at: SlotKey) -> U256
    decreases deltas.len(),
{
    if deltas.len() == 0 {
        start
    } else if exists|pre: U256, v: U256| #[trigger]
        changes::tells_slot(deltas.last(), at, pre, v) {
        (choose|p: (U256, U256)| #[trigger] changes::tells_slot(deltas.last(), at, p.0, p.1)).1
    } else {
        slot_read(deltas.drop_last(), start, at)
    }
}

/// The chain is a run of consecutive blocks with a state after each, and a slot that
/// a block's state speaks of is one that the state after the next block speaks of.
pub open spec fn full_chain(chain: ChainData) -> bool {
    &&& chain.well_formed()
    &&& chain.blocks@.len() > 1
    &&& forall|i: int, j: int|
        0 <= i && j == i + 1 && j < chain.blocks@.len() ==> (
        #[trigger] chain.blocks@[i]).header.number + 1 == (#[trigger] chain.blocks@[j]).header.number
    &&& forall|i: int| 0 <= i < chain.blocks@.len() ==> (#[trigger] chain.blocks@[i]).outcome is Some
    &&& forall|i: int, j: int, at: SlotKey|
        #![trigger chain.blocks@[i], chain.blocks@[j], bundle_lacks_slot(chain.blocks@[j].outcome->Some_0, at)]
        0 <= i && j == i + 1 && j < chain.blocks@.len() && bundle_lacks_slot(
            chain.blocks@[j].outcome->Some_0,
            at,
        ) ==> bundle_lacks_slot(chain.blocks@[i].outcome->Some_0, at)
}

proof fn lemma_one_slot(b: Bundle, at: SlotKey, x: U256, y: U256, u: U256, v: U256)
    requires
        bundle_slot(b, at, x, y),
        bundle_slot(b, at, u, v),
    ensures
        x == u,
        y == v,
        !bundle_lacks_slot(b, at),
{
    let (a, s) = choose|a: int, s: int|
        {
            &&& #[trigger] changes::slot_there(b.state@, at, a, s)
            &&& forall|c: int, t: int|
                #[trigger] changes::slot_there(b.state@, at, c, t) ==> c < a || (c == a && t <= s)
            &&& b.state@[a].storage@[s].previous_or_original_value == x
            &&& b.state@[a].storage@[s].present_value == y
        };
    let (c, t) = choose|c: int, t: int|
        {
            &&& #[trigger] changes::slot_there(b.state@, at, c, t)
            &&& forall|k: int, l: int|
                #[trigger] changes::slot_there(b.state@, at, k, l) ==> k < c || (k == c && l <= t)
            &&& b.state@[c].storage@[t].previous_or_original_value == u
            &&& b.state@[c].storage@[t].present_value == v
        };
    assert(changes::slot_there(b.state@, at, a, s) && changes::slot_there(b.state@, at, c, t));
}

/// A reader that takes in the deltas of a chain, from what the chain entered with,
/// has after each block what the block left: of every slot that the state after the
/// block speaks of its value there, and of every other slot the value it started
/// with.
pub proof fn lemma_reader_follows(
    chain: ChainData,
    deltas: Seq<JsonView>,
    at: SlotKey,
    start: U256,
)
    requires
        full_chain(chain),
        0 < deltas.len() <= chain.blocks@.len(),
        forall|i: int| 0 <= i < deltas.len() ==> is_delta(chain, i, #[trigger] deltas[i]),
        slot_entered(chain, at, start),
    ensures
        forall|v: U256|
            #[trigger] slot_left(chain, deltas.len() - 1, at, v) ==> slot_read(deltas, start, at)
                == v,
        bundle_lacks_slot(chain.blocks@[deltas.len() - 1].outcome->Some_0, at) ==> slot_read(
            deltas,
            start,
            at,
        ) == start,
    decreases deltas.len(),
{
    let n = deltas.len() - 1;
    let d = deltas.last();
    let p = deltas.drop_last();
    let b = chain.blocks@[n].outcome->Some_0;
    assert(deltas[n] == d);
    assert(is_delta(chain, n, d));
    assert(chain.blocks@[n].outcome is Some);
    if n > 0 {
        assert forall|i: int| 0 <= i < p.len() implies is_delta(chain, i, #[trigger] p[i]) by {
            assert(p[i] == deltas[i]);
        }
        lemma_reader_follows(chain, p, at, start);
        assert(chain.blocks@[n - 1].header.number + 1 == chain.blocks@[n].header.number);
        assert(chain.blocks@[n - 1].outcome is Some);
    } else {
        assert(p =~= Seq::<JsonView>::empty());
    }
    let held = slot_read(p, start, at);
    if bundle_lacks_slot(b, at) {
        assert forall|pre: U256, v: U256| !(#[trigger] changes::tells_slot(d, at, pre, v)) by {
            if changes::tells_slot(d, at, pre, v) {
                assert(slot_left(chain, n, at, v));
                let x = choose|x: U256| #[trigger] bundle_slot(b, at, x, v);
                lemma_one_slot(b, at, x, v, x, v);
            }
        }
        if n > 0 {
            let c = chain.blocks@[n - 1].outcome->Some_0;
            assert(bundle_lacks_slot(chain.blocks@[n].outcome->Some_0, at));
            assert(bundle_lacks_slot(c, at));
        }
    }
    assert forall|v: U256| #[trigger] slot_left(chain, n, at, v) implies slot_read(
        deltas,
        start,
        at,
    ) == v by {
        let x = choose|x: U256| #[trigger] bundle_slot(b, at, x, v);
        if exists|pre: U256, w: U256| #[trigger] changes::tells_slot(d, at, pre, w) {
            let (pre, w) = choose|pre: U256, w: U256| #[trigger]
                changes::tells_slot(d, at, pre, w);
            let one = (pre, w);
            assert(changes::tells_slot(d, at, one.0, one.1));
            let q = choose|q: (U256, U256)| #[trigger] changes::tells_slot(d, at, q.0, q.1);
            assert(slot_left(chain, n, at, q.1));
            let y = choose|y: U256| #[trigger] bundle_slot(b, at, y, q.1);
            lemma_one_slot(b, at, x, v, y, q.1);
        } else {
            lemma_found_is_held(chain, n, at, start, held);
            assert(slot_found(chain, n, at, held));
            assert(!changes::tells_slot(d, at, held, v));
        }
    }
}

proof fn lemma_found_is_held(
    chain: ChainData,
    n: int,
    at: SlotKey,
    start: U256,
    held: U256,
)
    requires
        full_chain(chain),
        0 <= n < chain.blocks@.len(),
        slot_entered(chain, at, start),
        n == 0 ==> held == start,
        n > 0 ==> {
            &&& forall|v: U256| #[trigger] slot_left(chain, n - 1, at, v) ==> held == v
            &&& bundle_lacks_slot(chain.blocks@[n - 1].outcome->Some_0, at) ==> held == start
        },
    ensures
        slot_found(chain, n, at, held),
{
    if n > 0 {
        let c = chain.blocks@[n - 1].outcome->Some_0;
        assert(chain.blocks@[n - 1].header.number + 1 == chain.blocks@[n].header.number);
        assert(chain.blocks@[n - 1].outcome is Some);
        if !bundle_lacks_slot(c, at) {
            let (a, s) = choose|a: int, s: int| #[trigger]
                changes::slot_there(c.state@, at, a, s);
            assert(changes::slot_there(c.state@, at, a, s));
            changes::lemma_bundle_slots(c.state@, true, at);
            let (e, t) = choose|e: int, t: int| #[trigger]
                changes::last_there(c.state@, at, e, t) && delta::bundle_slots(c.state@, true)[at]
                    == changes::side(c.state@[e].storage@[t], true);
            let slot = c.state@[e].storage@[t];
            assert(changes::slot_there(c.state@, at, e, t));
            assert(bundle_slot(c, at, slot.previous_or_original_value, slot.present_value));
            assert(slot_left(chain, n - 1, at, slot.present_value));
        }
    }
}

} // verus!
