//! Which changes a delta tells: those between two boundaries, in terms of what the
//! bundles of a chain say of each account and slot.

use vstd::prelude::*;

use crate::delta;
use crate::delta::{Bundle, BundleAccount, BundleSlot, ContractCode, SlotGroup, Stats};
use crate::emit;
use crate::hash;
use crate::json::{Json, JsonView};
use crate::primitives::{Address, B256, U256};
use crate::published;
use crate::published::{has_member, lacks_member};
use crate::readback;
use crate::snapshot;
use crate::snapshot::{AccountRow, AcctFields, SlotKey, SlotRow, Snapshot};
use crate::text;

verus! {

// ----------------------------------------------------------------- snapshots

/// The snapshot has the slot `at`, with the value `v`.
pub open spec fn has_slot(s: Snapshot, at: SlotKey, v: U256) -> bool {
    exists|i: int|
        0 <= i < s.slots@.len() && (#[trigger] s.slots@[i]).at == at && s.slots@[i].value == v
}

/// The snapshot knows nothing of the slot `at`.
pub open spec fn lacks_slot(s: Snapshot, at: SlotKey) -> bool {
    forall|i: int| 0 <= i < s.slots@.len() ==> (#[trigger] s.slots@[i]).at != at
}

/// The snapshot has the account `addr`, which is `info`.
pub open spec fn has_account(s: Snapshot, addr: Address, info: Option<AcctFields>) -> bool {
    exists|i: int|
        0 <= i < s.accounts@.len() && (#[trigger] s.accounts@[i]).addr == addr
            && s.accounts@[i].fields == info
}

/// The snapshot knows nothing of the account `addr`.
pub open spec fn lacks_account(s: Snapshot, addr: Address) -> bool {
    forall|i: int| 0 <= i < s.accounts@.len() ==> (#[trigger] s.accounts@[i]).addr != addr
}

pub(crate) proof fn lemma_slot_map(s: Snapshot, at: SlotKey)
    requires
        s.well_formed(),
    ensures
        s.slot_map().dom().contains(at) <==> !lacks_slot(s, at),
        forall|v: U256|
            #[trigger] has_slot(s, at, v) <==> s.slot_map().dom().contains(at) && s.slot_map()[at]
                == v,
{
    if s.slot_map().dom().contains(at) {
        let i = choose|i: int| 0 <= i < s.slots@.len() && #[trigger] s.slots@[i].at == at;
        snapshot::lemma_slot_at(s.slots@, i);
        assert(has_slot(s, at, s.slots@[i].value));
    }
    assert forall|v: U256| #[trigger] has_slot(s, at, v) implies s.slot_map().dom().contains(at)
        && s.slot_map()[at] == v by {
        let i = choose|i: int|
            0 <= i < s.slots@.len() && (#[trigger] s.slots@[i]).at == at && s.slots@[i].value == v;
        snapshot::lemma_slot_at(s.slots@, i);
    }
}

pub(crate) proof fn lemma_account_map(s: Snapshot, addr: Address)
    requires
        s.well_formed(),
    ensures
        s.account_map().dom().contains(addr) <==> !lacks_account(s, addr),
        forall|v: Option<AcctFields>|
            #[trigger] has_account(s, addr, v) <==> s.account_map().dom().contains(addr)
                && s.account_map()[addr] == v,
{
    if s.account_map().dom().contains(addr) {
        let i = choose|i: int| 0 <= i < s.accounts@.len() && #[trigger] s.accounts@[i].addr == addr;
        snapshot::lemma_account_at(s.accounts@, i);
        assert(has_account(s, addr, s.accounts@[i].fields));
    }
    assert forall|v: Option<AcctFields>|
        #[trigger] has_account(s, addr, v) implies s.account_map().dom().contains(addr)
        && s.account_map()[addr] == v by {
        let i = choose|i: int|
            0 <= i < s.accounts@.len() && (#[trigger] s.accounts@[i]).addr == addr
                && s.accounts@[i].fields == v;
        snapshot::lemma_account_at(s.accounts@, i);
    }
}

/// What a snapshot says of an account and of a slot is what its rows say.
pub proof fn lemma_snapshot_reads(
    s: Snapshot,
    addr: Address,
    at: SlotKey,
    info: Option<Option<AcctFields>>,
    value: Option<U256>,
)
    requires
        s.well_formed(),
        call_ensures(Snapshot::account, (&s, &addr), info),
        call_ensures(Snapshot::slot, (&s, &at), value),
    ensures
        info matches Some(f) ==> has_account(s, addr, f),
        info is None ==> lacks_account(s, addr),
        value matches Some(v) ==> has_slot(s, at, v),
        value is None ==> lacks_slot(s, at),
{
    lemma_account_map(s, addr);
    lemma_slot_map(s, at);
}

/// An account that is set is set, and every other account and slot is as it was.
pub proof fn lemma_snapshot_sets_account(
    x: &mut Snapshot,
    addr: Address,
    info: Option<AcctFields>,
    other: Address,
    was: Option<AcctFields>,
)
    requires
        old(x).well_formed(),
        call_ensures(Snapshot::set_account, (x, addr, info), ()),
    ensures
        has_account(*final(x), addr, info),
        other != addr ==> (has_account(*final(x), other, was) <==> has_account(
            *old(x),
            other,
            was,
        )),
        final(x).slots@ == old(x).slots@,
{
    lemma_account_map(*final(x), addr);
    lemma_account_map(*final(x), other);
    lemma_account_map(*old(x), other);
}

/// A slot that is set is set, and every other slot and account is as it was.
pub proof fn lemma_snapshot_sets_slot(
    x: &mut Snapshot,
    at: SlotKey,
    value: U256,
    other: SlotKey,
    was: U256,
)
    requires
        old(x).well_formed(),
        call_ensures(Snapshot::set_slot, (x, at, value), ()),
    ensures
        has_slot(*final(x), at, value),
        other != at ==> (has_slot(*final(x), other, was) <==> has_slot(*old(x), other, was)),
        final(x).accounts@ == old(x).accounts@,
{
    lemma_slot_map(*final(x), at);
    lemma_slot_map(*final(x), other);
    lemma_slot_map(*old(x), other);
}

// ------------------------------------------------------------------- bundles

/// The bundle speaks of the slot `at` there: in its `a`th account, `s`th slot.
pub open spec fn slot_there(state: Seq<BundleAccount>, at: SlotKey, a: int, s: int) -> bool {
    &&& 0 <= a < state.len()
    &&& 0 <= s < state[a].storage@.len()
    &&& state[a].addr == at.addr
    &&& state[a].storage@[s].key == at.key
}

/// The bundle says that the slot `at` was `before` and is `after`, at the last place
/// where it speaks of it.
pub open spec fn bundle_slot(b: Bundle, at: SlotKey, before: U256, after: U256) -> bool {
    exists|a: int, s: int|
        {
            &&& #[trigger] slot_there(b.state@, at, a, s)
            &&& forall|c: int, t: int|
                #[trigger] slot_there(b.state@, at, c, t) ==> c < a || (c == a && t <= s)
            &&& b.state@[a].storage@[s].previous_or_original_value == before
            &&& b.state@[a].storage@[s].present_value == after
        }
}

/// The bundle does not speak of the slot `at`.
pub open spec fn bundle_lacks_slot(b: Bundle, at: SlotKey) -> bool {
    forall|a: int, s: int| !(#[trigger] slot_there(b.state@, at, a, s))
}

/// The bundle says that the account `addr` was `before` and is `after`, at the last
/// place where it speaks of it.
pub open spec fn bundle_account(
    b: Bundle,
    addr: Address,
    before: Option<AcctFields>,
    after: Option<AcctFields>,
) -> bool {
    exists|a: int|
        {
            &&& 0 <= a < b.state@.len()
            &&& (#[trigger] b.state@[a]).addr == addr
            &&& forall|c: int|
                a < c < b.state@.len() ==> (#[trigger] b.state@[c]).addr != addr
            &&& b.state@[a].original_info == before
            &&& b.state@[a].info == after
        }
}

/// The bundle does not speak of the account `addr`.
pub open spec fn bundle_lacks_account(b: Bundle, addr: Address) -> bool {
    forall|a: int| 0 <= a < b.state@.len() ==> (#[trigger] b.state@[a]).addr != addr
}

pub(crate) open spec fn side(slot: BundleSlot, present: bool) -> U256 {
    if present {
        slot.present_value
    } else {
        slot.previous_or_original_value
    }
}

spec fn last_key(storage: Seq<BundleSlot>, key: U256, s: int) -> bool {
    &&& 0 <= s < storage.len()
    &&& storage[s].key == key
    &&& forall|t: int| s < t < storage.len() ==> (#[trigger] storage[t]).key != key
}

proof fn lemma_with_storage(
    m: Map<SlotKey, U256>,
    addr: Address,
    storage: Seq<BundleSlot>,
    present: bool,
    at: SlotKey,
)
    ensures
        ({
            let r = delta::with_storage(m, addr, storage, present);
            ||| at.addr == addr && r.dom().contains(at) && exists|s: int| #[trigger]
                last_key(storage, at.key, s) && r[at] == side(storage[s], present)
            ||| (at.addr != addr || forall|s: int|
                0 <= s < storage.len() ==> (#[trigger] storage[s]).key != at.key)
                && r.dom().contains(at) == m.dom().contains(at) && r[at] == m[at]
        }),
    decreases storage.len(),
{
    if storage.len() > 0 {
        let p = storage.drop_last();
        let n = storage.len() - 1;
        lemma_with_storage(m, addr, p, present, at);
        let q = delta::with_storage(m, addr, p, present);
        let r = delta::with_storage(m, addr, storage, present);
        if at.addr == addr && storage.last().key == at.key {
            assert(last_key(storage, at.key, n));
            assert(at == SlotKey { addr, key: storage.last().key });
        } else {
            assert(r.dom().contains(at) == q.dom().contains(at) && r[at] == q[at]);
            if at.addr == addr && exists|s: int| #[trigger]
                last_key(p, at.key, s) && q[at] == side(p[s], present) && q.dom().contains(at) {
                let s = choose|s: int| #[trigger]
                    last_key(p, at.key, s) && q[at] == side(p[s], present)
                        && q.dom().contains(at);
                assert(p[s] == storage[s]);
                assert forall|t: int| s < t < storage.len() implies (#[trigger] storage[t]).key
                    != at.key by {
                    if t < n {
                        assert(p[t] == storage[t]);
                    }
                }
                assert(last_key(storage, at.key, s));
            } else {
                if at.addr == addr {
                    assert forall|s: int| 0 <= s < storage.len() implies (
                    #[trigger] storage[s]).key != at.key by {
                        if s < n {
                            assert(p[s] == storage[s]);
                        }
                    }
                }
            }
        }
    }
}

pub(crate) open spec fn last_there(state: Seq<BundleAccount>, at: SlotKey, a: int, s: int) -> bool {
    &&& slot_there(state, at, a, s)
    &&& forall|c: int, t: int|
        #[trigger] slot_there(state, at, c, t) ==> c < a || (c == a && t <= s)
}

pub(crate) proof fn lemma_bundle_slots(state: Seq<BundleAccount>, present: bool, at: SlotKey)
    ensures
        ({
            let r = delta::bundle_slots(state, present);
            ||| r.dom().contains(at) && exists|a: int, s: int| #[trigger]
                last_there(state, at, a, s) && r[at] == side(state[a].storage@[s], present)
            ||| !r.dom().contains(at) && forall|a: int, s: int|
                !(#[trigger] slot_there(state, at, a, s))
        }),
    decreases state.len(),
{
    if state.len() > 0 {
        let p = state.drop_last();
        let n = state.len() - 1;
        let last = state.last();
        lemma_bundle_slots(p, present, at);
        let q = delta::bundle_slots(p, present);
        let r = delta::bundle_slots(state, present);
        lemma_with_storage(q, last.addr, last.storage@, present, at);
        assert forall|a: int, s: int| a < n implies slot_there(p, at, a, s) == #[trigger] slot_there(
            state,
            at,
            a,
            s,
        ) by {
            if 0 <= a < n {
                assert(p[a] == state[a]);
            }
        }
        if at.addr == last.addr && exists|s: int| #[trigger]
            last_key(last.storage@, at.key, s) && r[at] == side(last.storage@[s], present)
                && r.dom().contains(at) {
            let s = choose|s: int| #[trigger]
                last_key(last.storage@, at.key, s) && r[at] == side(last.storage@[s], present)
                    && r.dom().contains(at);
            assert(slot_there(state, at, n, s));
            assert(last_there(state, at, n, s));
        } else {
            assert forall|s: int| !(#[trigger] slot_there(state, at, n, s)) by {
                if slot_there(state, at, n, s) {
                    assert(last.storage@[s].key == at.key);
                }
            }
            assert(r.dom().contains(at) == q.dom().contains(at) && r[at] == q[at]);
            if q.dom().contains(at) {
                let (a, s) = choose|a: int, s: int| #[trigger]
                    last_there(p, at, a, s) && q[at] == side(p[a].storage@[s], present);
                assert(slot_there(p, at, a, s));
                assert(slot_there(state, at, a, s));
                assert(p[a] == state[a]);
                assert forall|c: int, t: int| #[trigger] slot_there(state, at, c, t) implies c < a
                    || (c == a && t <= s) by {
                    if c < n {
                        assert(slot_there(p, at, c, t));
                    } else {
                        assert(c == n);
                    }
                }
                assert(last_there(state, at, a, s));
            } else {
                assert forall|a: int, s: int| !(#[trigger] slot_there(state, at, a, s)) by {
                    if slot_there(state, at, a, s) {
                        if a < n {
                            assert(slot_there(p, at, a, s));
                        } else {
                            assert(a == n);
                        }
                    }
                }
            }
        }
    }
}

pub(crate) open spec fn last_account(state: Seq<BundleAccount>, addr: Address, a: int) -> bool {
    &&& 0 <= a < state.len()
    &&& state[a].addr == addr
    &&& forall|c: int| a < c < state.len() ==> (#[trigger] state[c]).addr != addr
}

pub(crate) open spec fn account_side(a: BundleAccount, present: bool) -> Option<AcctFields> {
    if present {
        a.info
    } else {
        a.original_info
    }
}

pub(crate) proof fn lemma_bundle_accounts(state: Seq<BundleAccount>, present: bool, addr: Address)
    ensures
        ({
            let r = delta::bundle_accounts(state, present);
            ||| r.dom().contains(addr) && exists|a: int| #[trigger]
                last_account(state, addr, a) && r[addr] == account_side(state[a], present)
            ||| !r.dom().contains(addr) && forall|a: int|
                0 <= a < state.len() ==> (#[trigger] state[a]).addr != addr
        }),
    decreases state.len(),
{
    if state.len() > 0 {
        let p = state.drop_last();
        let n = state.len() - 1;
        lemma_bundle_accounts(p, present, addr);
        let q = delta::bundle_accounts(p, present);
        if state.last().addr == addr {
            assert(last_account(state, addr, n));
        } else if q.dom().contains(addr) {
            let a = choose|a: int| #[trigger]
                last_account(p, addr, a) && q[addr] == account_side(p[a], present);
            assert(p[a] == state[a]);
            assert forall|c: int| a < c < state.len() implies (#[trigger] state[c]).addr
                != addr by {
                if c < n {
                    assert(p[c] == state[c]);
                }
            }
            assert(last_account(state, addr, a));
        } else {
            assert forall|a: int| 0 <= a < state.len() implies (#[trigger] state[a]).addr
                != addr by {
                if a < n {
                    assert(p[a] == state[a]);
                }
            }
        }
    }
}

/// `s` is one side of what `b` says: its slots and accounts before (`present` is
/// false) or after.
pub open spec fn is_side(s: Snapshot, b: Bundle, present: bool) -> bool {
    &&& forall|at: SlotKey|
        #![trigger lacks_slot(s, at)]
        #![trigger bundle_lacks_slot(b, at)]
        lacks_slot(s, at) <==> bundle_lacks_slot(b, at)
    &&& forall|at: SlotKey, x: U256, y: U256|
        #[trigger] bundle_slot(b, at, x, y) ==> has_slot(
            s,
            at,
            if present {
                y
            } else {
                x
            },
        )
    &&& forall|addr: Address|
        #![trigger lacks_account(s, addr)]
        #![trigger bundle_lacks_account(b, addr)]
        lacks_account(s, addr) <==> bundle_lacks_account(b, addr)
    &&& forall|addr: Address, x: Option<AcctFields>, y: Option<AcctFields>|
        #[trigger] bundle_account(b, addr, x, y) ==> has_account(
            s,
            addr,
            if present {
                y
            } else {
                x
            },
        )
}

pub(crate) proof fn lemma_side(s: Snapshot, b: Bundle, present: bool)
    requires
        emit::says(s, b, present),
    ensures
        is_side(s, b, present),
{
    assert forall|at: SlotKey|
        #![trigger lacks_slot(s, at)]
        #![trigger bundle_lacks_slot(b, at)]
        lacks_slot(s, at) <==> bundle_lacks_slot(b, at) by {
        lemma_slot_map(s, at);
        lemma_bundle_slots(b.state@, present, at);
        if s.slot_map().dom().contains(at) {
            let (a, k) = choose|a: int, k: int| #[trigger]
                last_there(b.state@, at, a, k) && s.slot_map()[at] == side(
                    b.state@[a].storage@[k],
                    present,
                );
            assert(slot_there(b.state@, at, a, k));
        }
    }
    assert forall|at: SlotKey, x: U256, y: U256| #[trigger] bundle_slot(b, at, x, y) implies has_slot(
        s,
        at,
        if present {
            y
        } else {
            x
        },
    ) by {
        lemma_slot_map(s, at);
        lemma_bundle_slots(b.state@, present, at);
        let (a, k) = choose|a: int, k: int|
            {
                &&& #[trigger] slot_there(b.state@, at, a, k)
                &&& forall|c: int, t: int|
                    #[trigger] slot_there(b.state@, at, c, t) ==> c < a || (c == a && t <= k)
                &&& b.state@[a].storage@[k].previous_or_original_value == x
                &&& b.state@[a].storage@[k].present_value == y
            };
        let (c, t) = choose|c: int, t: int| #[trigger]
            last_there(b.state@, at, c, t) && s.slot_map()[at] == side(
                b.state@[c].storage@[t],
                present,
            );
        assert(slot_there(b.state@, at, c, t));
        assert(a == c && k == t);
    }
    assert forall|addr: Address|
        #![trigger lacks_account(s, addr)]
        #![trigger bundle_lacks_account(b, addr)]
        lacks_account(s, addr) <==> bundle_lacks_account(b, addr) by {
        lemma_account_map(s, addr);
        lemma_bundle_accounts(b.state@, present, addr);
    }
    assert forall|addr: Address, x: Option<AcctFields>, y: Option<AcctFields>|
        #[trigger] bundle_account(b, addr, x, y) implies has_account(
        s,
        addr,
        if present {
            y
        } else {
            x
        },
    ) by {
        lemma_account_map(s, addr);
        lemma_bundle_accounts(b.state@, present, addr);
        let a = choose|a: int|
            {
                &&& 0 <= a < b.state@.len()
                &&& (#[trigger] b.state@[a]).addr == addr
                &&& forall|c: int| a < c < b.state@.len() ==> (#[trigger] b.state@[c]).addr != addr
                &&& b.state@[a].original_info == x
                &&& b.state@[a].info == y
            };
        assert(b.state@[a].addr == addr);
    }
}

/// A snapshot of what a chain entered with holds, of every account and slot that
/// the bundle speaks of and of no other, what it was; one of what the chain left,
/// what it is.
pub proof fn lemma_snapshots_of_bundle(b: Bundle, original: Snapshot, post: Snapshot)
    requires
        call_ensures(delta::snapshot_original, (&b,), original),
        call_ensures(delta::snapshot_post, (&b,), post),
    ensures
        original.well_formed(),
        post.well_formed(),
        is_side(original, b, false),
        is_side(post, b, true),
{
    lemma_side(original, b, false);
    lemma_side(post, b, true);
}

// -------------------------------------------------------------------- before

/// The slot `at` was `v` at the boundary before: what that boundary says, or where
/// it never touched the slot what the chain entered with, or zero where nothing is
/// known of it.
pub open spec fn slot_was(
    original: Snapshot,
    prev: Option<&Snapshot>,
    at: SlotKey,
    v: U256,
) -> bool {
    ||| prev matches Some(p) && has_slot(*p, at, v)
    ||| (prev matches Some(p) ==> lacks_slot(*p, at)) && has_slot(original, at, v)
    ||| (prev matches Some(p) ==> lacks_slot(*p, at)) && lacks_slot(original, at) && v == (U256 {
        hi: 0,
        lo: 0,
    })
}

/// The account `addr` was `info` at the boundary before, in the same way.
pub open spec fn account_was(
    original: Snapshot,
    prev: Option<&Snapshot>,
    addr: Address,
    info: Option<AcctFields>,
) -> bool {
    ||| prev matches Some(p) && has_account(*p, addr, info)
    ||| (prev matches Some(p) ==> lacks_account(*p, addr)) && has_account(original, addr, info)
    ||| (prev matches Some(p) ==> lacks_account(*p, addr)) && lacks_account(original, addr) && info
        is None
}

pub(crate) proof fn lemma_slot_was(original: Snapshot, prev: Option<&Snapshot>, at: SlotKey)
    requires
        original.well_formed(),
        delta::prev_well_formed(prev),
    ensures
        forall|v: U256|
            #[trigger] slot_was(original, prev, at, v) <==> delta::slot_before(
                original.slot_map(),
                delta::slots_of(prev),
                at,
            ) == v,
{
    lemma_slot_map(original, at);
    if let Some(p) = prev {
        lemma_slot_map(*p, at);
    }
    assert forall|v: U256|
        #[trigger] slot_was(original, prev, at, v) <==> delta::slot_before(
            original.slot_map(),
            delta::slots_of(prev),
            at,
        ) == v by {
        assert(has_slot(original, at, v) <==> original.slot_map().dom().contains(at)
            && original.slot_map()[at] == v);
        if let Some(p) = prev {
            assert(has_slot(*p, at, v) <==> p.slot_map().dom().contains(at) && p.slot_map()[at]
                == v);
        }
    }
}

pub(crate) proof fn lemma_account_was(original: Snapshot, prev: Option<&Snapshot>, addr: Address)
    requires
        original.well_formed(),
        delta::prev_well_formed(prev),
    ensures
        forall|v: Option<AcctFields>|
            #[trigger] account_was(original, prev, addr, v) <==> delta::account_before(
                original.account_map(),
                delta::accounts_of(prev),
                addr,
            ) == v,
{
    lemma_account_map(original, addr);
    if let Some(p) = prev {
        lemma_account_map(*p, addr);
    }
    assert forall|v: Option<AcctFields>|
        #[trigger] account_was(original, prev, addr, v) <==> delta::account_before(
            original.account_map(),
            delta::accounts_of(prev),
            addr,
        ) == v by {
        assert(has_account(original, addr, v) <==> original.account_map().dom().contains(addr)
            && original.account_map()[addr] == v);
        if let Some(p) = prev {
            assert(has_account(*p, addr, v) <==> p.account_map().dom().contains(addr)
                && p.account_map()[addr] == v);
        }
    }
}

// --------------------------------------------------------------------- slots

/// The entry `e` tells that the slot under `key` went from `pre` to `post`.
pub open spec fn entry_tells(e: JsonView, key: U256, pre: U256, post: U256) -> bool {
    &&& has_member(e, "key"@, JsonView::Text(hash::u256_text(key)))
    &&& has_member(e, "pre"@, JsonView::Text(hash::u256_text(pre)))
    &&& has_member(e, "post"@, JsonView::Text(hash::u256_text(post)))
}

/// The entry `g` is of the slot's account, and tells that the slot went from `pre`
/// to `post`.
pub open spec fn group_tells(g: JsonView, at: SlotKey, pre: U256, post: U256) -> bool {
    &&& has_member(g, "addr"@, JsonView::Text(hash::address_text(at.addr)))
    &&& exists|slots: Seq<JsonView>, k: int|
        {
            &&& #[trigger] has_member(g, "slots"@, JsonView::List(slots))
            &&& 0 <= k < slots.len()
            &&& entry_tells(#[trigger] slots[k], at.key, pre, post)
        }
}

/// The delta `d` tells that the slot `at` went from `pre` to `post`.
pub open spec fn tells_slot(d: JsonView, at: SlotKey, pre: U256, post: U256) -> bool {
    exists|groups: Seq<JsonView>, k: int|
        {
            &&& #[trigger] has_member(d, "storage"@, JsonView::List(groups))
            &&& 0 <= k < groups.len()
            &&& group_tells(#[trigger] groups[k], at, pre, post)
        }
}

proof fn lemma_changed_row(
    rows: Seq<SlotRow>,
    original: Map<SlotKey, U256>,
    prev: Option<Map<SlotKey, U256>>,
    addr: Address,
    row: SlotRow,
)
    ensures
        delta::changed_slots_of(rows, original, prev, addr).contains(row) <==> rows.contains(row)
            && row.at.addr == addr && delta::slot_before(original, prev, row.at) != row.value,
    decreases rows.len(),
{
    let c = delta::changed_slots_of(rows, original, prev, addr);
    if rows.len() > 0 {
        let p = rows.drop_last();
        let e = delta::changed_slots_of(p, original, prev, addr);
        let last = rows.last();
        lemma_changed_row(p, original, prev, addr, row);
        if rows.contains(row) {
            let i = choose|i: int| 0 <= i < rows.len() && rows[i] == row;
            if i < p.len() {
                assert(p[i] == row);
                assert(p.contains(row));
            } else {
                assert(row == last);
            }
        }
        if p.contains(row) {
            let i = choose|i: int| 0 <= i < p.len() && p[i] == row;
            assert(rows[i] == row);
        }
        assert(rows[rows.len() - 1] == last);
        if e.contains(row) {
            let i = choose|i: int| 0 <= i < e.len() && e[i] == row;
            assert(c[i] == row);
        }
        if c.contains(row) {
            let i = choose|i: int| 0 <= i < c.len() && c[i] == row;
            if i < e.len() {
                assert(e[i] == row);
            } else {
                assert(row == last);
            }
        }
        if c.len() > e.len() {
            assert(c[c.len() - 1] == last);
        }
    }
}

proof fn lemma_group_members(g: SlotGroup)
    ensures
        has_member(
            delta::group_entry(g),
            "addr"@,
            JsonView::Text(hash::address_text(g.addr)),
        ),
        has_member(delta::group_entry(g), "slots"@, JsonView::List(g.slots)),
{
    published::lemma_names();
    let j = delta::group_entry(g);
    assert(j->Object_0.len() == 2);
    published::lemma_member_at(j, 0);
    published::lemma_member_at(j, 1);
}

proof fn lemma_entry_members(key: U256, pre: U256, post: U256)
    ensures
        entry_tells(delta::slot_entry(key, pre, post), key, pre, post),
{
    published::lemma_names();
    let j = delta::slot_entry(key, pre, post);
    assert(j->Object_0.len() == 3);
    published::lemma_member_at(j, 0);
    published::lemma_member_at(j, 1);
    published::lemma_member_at(j, 2);
}

proof fn lemma_delta_members(
    original: Snapshot,
    prev: Option<&Snapshot>,
    post: Snapshot,
    contracts: Seq<ContractCode>,
)
    ensures
        ({
            let d = delta::delta_view(original, prev, post, contracts);
            let om = original.account_map();
            let pm = delta::accounts_of(prev);
            &&& has_member(
                d,
                "accounts"@,
                JsonView::List(delta::account_entries(post.accounts@, om, pm)),
            )
            &&& has_member(
                d,
                "storage"@,
                JsonView::List(
                    delta::slot_groups(
                        post.slots@,
                        original.slot_map(),
                        delta::slots_of(prev),
                    ).map_values(|g: SlotGroup| delta::group_entry(g)),
                ),
            )
            &&& has_member(
                d,
                "code"@,
                JsonView::List(
                    delta::code_hashes(post.accounts@, om, pm, contracts).map_values(
                        |h: B256| delta::code_entry(contracts, h),
                    ),
                ),
            )
        }),
{
    published::lemma_names();
    let d = delta::delta_view(original, prev, post, contracts);
    assert(d->Object_0.len() == 3);
    published::lemma_member_at(d, 0);
    published::lemma_member_at(d, 1);
    published::lemma_member_at(d, 2);
}

proof fn lemma_entries_told_apart(key: U256, pre: U256, post: U256, k: U256, x: U256, y: U256)
    requires
        entry_tells(delta::slot_entry(key, pre, post), k, x, y),
    ensures
        key == k,
        pre == x,
        post == y,
{
    let j = delta::slot_entry(key, pre, post);
    lemma_entry_members(key, pre, post);
    published::lemma_one_member(
        j,
        "key"@,
        JsonView::Text(hash::u256_text(key)),
        JsonView::Text(hash::u256_text(k)),
    );
    published::lemma_one_member(
        j,
        "pre"@,
        JsonView::Text(hash::u256_text(pre)),
        JsonView::Text(hash::u256_text(x)),
    );
    published::lemma_one_member(
        j,
        "post"@,
        JsonView::Text(hash::u256_text(post)),
        JsonView::Text(hash::u256_text(y)),
    );
    let h = B256 { hi: 0, lo: 0 };
    let a = Address { hi: 0, lo: 0 };
    readback::lemma_texts_tell_apart(h, h, a, a, key, k);
    readback::lemma_texts_tell_apart(h, h, a, a, pre, x);
    readback::lemma_texts_tell_apart(h, h, a, a, post, y);
}

pub(crate) proof fn lemma_told_slot(
    original: Snapshot,
    prev: Option<&Snapshot>,
    post: Snapshot,
    contracts: Seq<ContractCode>,
    at: SlotKey,
    pre: U256,
    v: U256,
)
    requires
        original.well_formed(),
        delta::prev_well_formed(prev),
        post.well_formed(),
        tells_slot(delta::delta_view(original, prev, post, contracts), at, pre, v),
    ensures
        has_slot(post, at, v),
        slot_was(original, prev, at, pre),
        pre != v,
{
    let d = delta::delta_view(original, prev, post, contracts);
    let om = original.slot_map();
    let pm = delta::slots_of(prev);
    let rows = post.slots@;
    let gs = delta::slot_groups(rows, om, pm);
    lemma_delta_members(original, prev, post, contracts);
    let (groups, k) = choose|groups: Seq<JsonView>, k: int|
        {
            &&& #[trigger] has_member(d, "storage"@, JsonView::List(groups))
            &&& 0 <= k < groups.len()
            &&& group_tells(#[trigger] groups[k], at, pre, v)
        };
    let mapped = gs.map_values(|g: SlotGroup| delta::group_entry(g));
    published::lemma_one_member(d, "storage"@, JsonView::List(groups), JsonView::List(mapped));
    let g = gs[k];
    assert(groups[k] == delta::group_entry(g));
    lemma_group_members(g);
    published::lemma_one_member(
        groups[k],
        "addr"@,
        JsonView::Text(hash::address_text(g.addr)),
        JsonView::Text(hash::address_text(at.addr)),
    );
    let h = B256 { hi: 0, lo: 0 };
    readback::lemma_texts_tell_apart(h, h, g.addr, at.addr, pre, pre);
    let (slots, m) = choose|slots: Seq<JsonView>, m: int|
        {
            &&& #[trigger] has_member(groups[k], "slots"@, JsonView::List(slots))
            &&& 0 <= m < slots.len()
            &&& entry_tells(#[trigger] slots[m], at.key, pre, v)
        };
    published::lemma_one_member(
        groups[k],
        "slots"@,
        JsonView::List(slots),
        JsonView::List(g.slots),
    );
    delta::lemma_slots_ascend(rows, om, pm, k);
    let c = delta::changed_slots_of(rows, om, pm, g.addr);
    let row = c[m];
    assert(slots[m] == delta::slot_entry(row.at.key, delta::slot_before(om, pm, row.at), row.value));
    lemma_entries_told_apart(
        row.at.key,
        delta::slot_before(om, pm, row.at),
        row.value,
        at.key,
        pre,
        v,
    );
    assert(c.contains(row));
    lemma_changed_row(rows, om, pm, g.addr, row);
    assert(row.at == at);
    let i = choose|i: int| 0 <= i < rows.len() && rows[i] == row;
    assert(post.slots@[i].at == at);
    lemma_slot_was(original, prev, at);
    assert(slot_was(original, prev, at, pre));
}

pub(crate) proof fn lemma_slot_told(
    original: Snapshot,
    prev: Option<&Snapshot>,
    post: Snapshot,
    contracts: Seq<ContractCode>,
    at: SlotKey,
    pre: U256,
    v: U256,
)
    requires
        original.well_formed(),
        delta::prev_well_formed(prev),
        post.well_formed(),
        has_slot(post, at, v),
        slot_was(original, prev, at, pre),
        pre != v,
    ensures
        tells_slot(delta::delta_view(original, prev, post, contracts), at, pre, v),
{
    let d = delta::delta_view(original, prev, post, contracts);
    let om = original.slot_map();
    let pm = delta::slots_of(prev);
    let rows = post.slots@;
    let gs = delta::slot_groups(rows, om, pm);
    lemma_delta_members(original, prev, post, contracts);
    lemma_slot_was(original, prev, at);
    let row = SlotRow { at, value: v };
    let i = choose|i: int|
        0 <= i < rows.len() && (#[trigger] rows[i]).at == at && rows[i].value == v;
    assert(rows[i] == row);
    assert(rows.contains(row));
    lemma_changed_row(rows, om, pm, at.addr, row);
    let c = delta::changed_slots_of(rows, om, pm, at.addr);
    assert(c.contains(row));
    let m = choose|m: int| 0 <= m < c.len() && c[m] == row;
    delta::lemma_changed_is_grouped(rows, om, pm, at.addr);
    let k = choose|k: int| 0 <= k < gs.len() && (#[trigger] gs[k]).addr == at.addr;
    delta::lemma_slots_ascend(rows, om, pm, k);
    let g = gs[k];
    lemma_group_members(g);
    lemma_entry_members(at.key, pre, v);
    assert(g.slots[m] == delta::slot_entry(at.key, pre, v));
    let groups = gs.map_values(|g: SlotGroup| delta::group_entry(g));
    assert(groups[k] == delta::group_entry(g));
    assert(has_member(groups[k], "slots"@, JsonView::List(g.slots)));
    assert(group_tells(groups[k], at, pre, v));
    assert(has_member(d, "storage"@, JsonView::List(groups)));
}

/// A delta tells of a slot that it went from one value to another exactly where the
/// boundary has the slot with the one, it was the other before, and the two differ.
pub proof fn lemma_delta_tells_slots(
    original: Snapshot,
    prev: Option<&Snapshot>,
    post: Snapshot,
    aggregate: Bundle,
    r: (Json, Stats),
    at: SlotKey,
    pre: U256,
    v: U256,
)
    requires
        original.well_formed(),
        delta::prev_well_formed(prev),
        post.well_formed(),
        call_ensures(delta::counted_delta, (&original, prev, &post, &aggregate), r),
    ensures
        tells_slot(r.0@, at, pre, v) <==> has_slot(post, at, v) && slot_was(
            original,
            prev,
            at,
            pre,
        ) && pre != v,
{
    if tells_slot(r.0@, at, pre, v) {
        lemma_told_slot(original, prev, post, aggregate.contracts@, at, pre, v);
    }
    if has_slot(post, at, v) && slot_was(original, prev, at, pre) && pre != v {
        lemma_slot_told(original, prev, post, aggregate.contracts@, at, pre, v);
    }
}

// ------------------------------------------------------------------ accounts

/// What an account reads as. One that does not exist has no balance, no nonce and
/// no code, whose hash is the one of no bytes.
pub open spec fn reads_as(info: Option<AcctFields>) -> AcctFields {
    match info {
        Some(fields) => fields,
        None => AcctFields {
            balance: U256 { hi: 0, lo: 0 },
            nonce: 0,
            code_hash: B256 {
                hi: 0xc5d2460186f7233c927e7db2dcc703c0,
                lo: 0xe500b653ca82273b7bfad8045d85a470,
            },
        },
    }
}

/// The member `name` of `e` is the pair of `a` and `b` where something moved, and is
/// not there where nothing did.
pub open spec fn tells_move(
    e: JsonView,
    name: Seq<char>,
    moved: bool,
    a: JsonView,
    b: JsonView,
) -> bool {
    if moved {
        has_member(e, name, JsonView::List(seq![a, b]))
    } else {
        lacks_member(e, name)
    }
}

/// The entry `e` tells that the account `addr` went from `before` to `after`:
/// whether it existed and exists, and of each field that moved its value on either
/// side.
pub open spec fn account_tells(
    e: JsonView,
    addr: Address,
    before: Option<AcctFields>,
    after: Option<AcctFields>,
) -> bool {
    let b = reads_as(before);
    let a = reads_as(after);
    &&& has_member(e, "addr"@, JsonView::Text(hash::address_text(addr)))
    &&& has_member(
        e,
        "exists"@,
        JsonView::List(seq![JsonView::Bool(before is Some), JsonView::Bool(after is Some)]),
    )
    &&& tells_move(
        e,
        "balance"@,
        b.balance != a.balance,
        JsonView::Text(hash::u256_text(b.balance)),
        JsonView::Text(hash::u256_text(a.balance)),
    )
    &&& tells_move(
        e,
        "nonce"@,
        b.nonce != a.nonce,
        JsonView::Number(b.nonce),
        JsonView::Number(a.nonce),
    )
    &&& tells_move(
        e,
        "code_hash"@,
        b.code_hash != a.code_hash,
        JsonView::Text(hash::b256_text(b.code_hash)),
        JsonView::Text(hash::b256_text(a.code_hash)),
    )
}

/// The delta `d` tells that the account `addr` went from `before` to `after`.
pub open spec fn tells_account(
    d: JsonView,
    addr: Address,
    before: Option<AcctFields>,
    after: Option<AcctFields>,
) -> bool {
    exists|entries: Seq<JsonView>, k: int|
        {
            &&& #[trigger] has_member(d, "accounts"@, JsonView::List(entries))
            &&& 0 <= k < entries.len()
            &&& account_tells(#[trigger] entries[k], addr, before, after)
        }
}

/// The delta `d` has an entry for the account `addr`.
pub open spec fn speaks_of(d: JsonView, addr: Address) -> bool {
    exists|entries: Seq<JsonView>, k: int|
        {
            &&& #[trigger] has_member(d, "accounts"@, JsonView::List(entries))
            &&& 0 <= k < entries.len()
            &&& has_member(
                #[trigger] entries[k],
                "addr"@,
                JsonView::Text(hash::address_text(addr)),
            )
        }
}

proof fn lemma_account_entry(
    addr: Address,
    before: Option<AcctFields>,
    after: Option<AcctFields>,
)
    ensures
        account_tells(delta::account_entry(addr, before, after), addr, before, after),
{
    published::lemma_names();
    let e = delta::account_entry(addr, before, after);
    let b = reads_as(before);
    let a = reads_as(after);
    assert(b == delta::fields_of(before) && a == delta::fields_of(after));
    let ms = e->Object_0;
    let x: int = if b.balance != a.balance {
        1
    } else {
        0
    };
    let y: int = if b.nonce != a.nonce {
        1
    } else {
        0
    };
    let z: int = if b.code_hash != a.code_hash {
        1
    } else {
        0
    };
    assert(ms.len() == 2 + x + y + z);
    assert(ms[0].0 == "addr"@ && ms[1].0 == "exists"@);
    if x == 1 {
        assert(ms[2].0 == "balance"@);
    }
    if y == 1 {
        assert(ms[2 + x].0 == "nonce"@);
    }
    if z == 1 {
        assert(ms[2 + x + y].0 == "code_hash"@);
    }
    published::lemma_member_at(e, 0);
    published::lemma_member_at(e, 1);
    if x == 1 {
        published::lemma_member_at(e, 2);
    }
    if y == 1 {
        published::lemma_member_at(e, 2 + x);
    }
    if z == 1 {
        published::lemma_member_at(e, 2 + x + y);
    }
}

proof fn lemma_changed_account(
    rows: Seq<AccountRow>,
    original: Map<Address, Option<AcctFields>>,
    prev: Option<Map<Address, Option<AcctFields>>>,
    row: AccountRow,
)
    ensures
        delta::changed_accounts(rows, original, prev).contains(row) <==> rows.contains(row)
            && delta::account_before(original, prev, row.addr) != row.fields,
    decreases rows.len(),
{
    let c = delta::changed_accounts(rows, original, prev);
    if rows.len() > 0 {
        let p = rows.drop_last();
        let e = delta::changed_accounts(p, original, prev);
        let last = rows.last();
        lemma_changed_account(p, original, prev, row);
        if rows.contains(row) {
            let i = choose|i: int| 0 <= i < rows.len() && rows[i] == row;
            if i < p.len() {
                assert(p[i] == row);
            } else {
                assert(row == last);
            }
        }
        if p.contains(row) {
            let i = choose|i: int| 0 <= i < p.len() && p[i] == row;
            assert(rows[i] == row);
        }
        assert(rows[rows.len() - 1] == last);
        if e.contains(row) {
            let i = choose|i: int| 0 <= i < e.len() && e[i] == row;
            assert(c[i] == row);
        }
        if c.contains(row) {
            let i = choose|i: int| 0 <= i < c.len() && c[i] == row;
            if i < e.len() {
                assert(e[i] == row);
            } else {
                assert(row == last);
            }
        }
        if c.len() > e.len() {
            assert(c[c.len() - 1] == last);
        }
    }
}

pub(crate) proof fn lemma_account_told(
    original: Snapshot,
    prev: Option<&Snapshot>,
    post: Snapshot,
    contracts: Seq<ContractCode>,
    addr: Address,
    before: Option<AcctFields>,
    after: Option<AcctFields>,
)
    requires
        original.well_formed(),
        delta::prev_well_formed(prev),
        post.well_formed(),
        has_account(post, addr, after),
        account_was(original, prev, addr, before),
        before != after,
    ensures
        tells_account(
            delta::delta_view(original, prev, post, contracts),
            addr,
            before,
            after,
        ),
{
    let d = delta::delta_view(original, prev, post, contracts);
    let om = original.account_map();
    let pm = delta::accounts_of(prev);
    let rows = post.accounts@;
    lemma_delta_members(original, prev, post, contracts);
    lemma_account_was(original, prev, addr);
    let row = AccountRow { addr, fields: after };
    let i = choose|i: int|
        0 <= i < rows.len() && (#[trigger] rows[i]).addr == addr && rows[i].fields == after;
    assert(rows[i] == row);
    assert(rows.contains(row));
    lemma_changed_account(rows, om, pm, row);
    delta::lemma_accounts_ascend(rows, om, pm);
    let c = delta::changed_accounts(rows, om, pm);
    let entries = delta::account_entries(rows, om, pm);
    assert(account_was(original, prev, addr, before));
    assert(c.contains(row));
    let m = choose|m: int| 0 <= m < c.len() && c[m] == row;
    assert(entries[m] == delta::account_entry(addr, before, after));
    lemma_account_entry(addr, before, after);
    assert(has_member(d, "accounts"@, JsonView::List(entries)));
}

pub(crate) proof fn lemma_told_account(
    original: Snapshot,
    prev: Option<&Snapshot>,
    post: Snapshot,
    contracts: Seq<ContractCode>,
    addr: Address,
)
    requires
        original.well_formed(),
        delta::prev_well_formed(prev),
        post.well_formed(),
        speaks_of(delta::delta_view(original, prev, post, contracts), addr),
    ensures
        exists|before: Option<AcctFields>, after: Option<AcctFields>|
            {
                &&& #[trigger] has_account(post, addr, after)
                &&& #[trigger] account_was(original, prev, addr, before)
                &&& before != after
            },
{
    let d = delta::delta_view(original, prev, post, contracts);
    let om = original.account_map();
    let pm = delta::accounts_of(prev);
    let rows = post.accounts@;
    lemma_delta_members(original, prev, post, contracts);
    let (entries, k) = choose|entries: Seq<JsonView>, k: int|
        {
            &&& #[trigger] has_member(d, "accounts"@, JsonView::List(entries))
            &&& 0 <= k < entries.len()
            &&& has_member(
                #[trigger] entries[k],
                "addr"@,
                JsonView::Text(hash::address_text(addr)),
            )
        };
    let mine = delta::account_entries(rows, om, pm);
    published::lemma_one_member(d, "accounts"@, JsonView::List(entries), JsonView::List(mine));
    delta::lemma_accounts_ascend(rows, om, pm);
    let c = delta::changed_accounts(rows, om, pm);
    let row = c[k];
    let before = delta::account_before(om, pm, row.addr);
    assert(entries[k] == delta::account_entry(row.addr, before, row.fields));
    lemma_account_entry(row.addr, before, row.fields);
    published::lemma_one_member(
        entries[k],
        "addr"@,
        JsonView::Text(hash::address_text(row.addr)),
        JsonView::Text(hash::address_text(addr)),
    );
    let h = B256 { hi: 0, lo: 0 };
    let u = U256 { hi: 0, lo: 0 };
    readback::lemma_texts_tell_apart(h, h, row.addr, addr, u, u);
    assert(c.contains(row));
    lemma_changed_account(rows, om, pm, row);
    let i = choose|i: int| 0 <= i < rows.len() && rows[i] == row;
    assert(post.accounts@[i].addr == addr);
    lemma_account_was(original, prev, addr);
    assert(has_account(post, addr, row.fields));
    assert(account_was(original, prev, addr, before));
}

/// A delta tells of an account exactly where the boundary has it as something else
/// than it was before, and then it tells both.
pub proof fn lemma_delta_tells_accounts(
    original: Snapshot,
    prev: Option<&Snapshot>,
    post: Snapshot,
    aggregate: Bundle,
    r: (Json, Stats),
    addr: Address,
    before: Option<AcctFields>,
    after: Option<AcctFields>,
)
    requires
        original.well_formed(),
        delta::prev_well_formed(prev),
        post.well_formed(),
        call_ensures(delta::counted_delta, (&original, prev, &post, &aggregate), r),
        has_account(post, addr, after),
        account_was(original, prev, addr, before),
    ensures
        before != after ==> tells_account(r.0@, addr, before, after),
        before == after ==> !speaks_of(r.0@, addr),
{
    if before != after {
        lemma_account_told(original, prev, post, aggregate.contracts@, addr, before, after);
    } else if speaks_of(r.0@, addr) {
        lemma_told_account(original, prev, post, aggregate.contracts@, addr);
        let (x, y) = choose|x: Option<AcctFields>, y: Option<AcctFields>|
            {
                &&& #[trigger] has_account(post, addr, y)
                &&& #[trigger] account_was(original, prev, addr, x)
                &&& x != y
            };
        lemma_account_was(original, prev, addr);
        lemma_account_map(post, addr);
        assert(has_account(post, addr, y) && has_account(post, addr, after));
        assert(account_was(original, prev, addr, before));
    }
}

/// A delta tells of no account that the boundary does not have.
pub proof fn lemma_delta_tells_no_other_account(
    original: Snapshot,
    prev: Option<&Snapshot>,
    post: Snapshot,
    aggregate: Bundle,
    r: (Json, Stats),
    addr: Address,
)
    requires
        original.well_formed(),
        delta::prev_well_formed(prev),
        post.well_formed(),
        call_ensures(delta::counted_delta, (&original, prev, &post, &aggregate), r),
        lacks_account(post, addr),
    ensures
        !speaks_of(r.0@, addr),
{
    if speaks_of(r.0@, addr) {
        lemma_told_account(original, prev, post, aggregate.contracts@, addr);
        let (x, y) = choose|x: Option<AcctFields>, y: Option<AcctFields>|
            {
                &&& #[trigger] has_account(post, addr, y)
                &&& #[trigger] account_was(original, prev, addr, x)
                &&& x != y
            };
        assert(has_account(post, addr, y));
    }
}

// ---------------------------------------------------------------------- code

/// The code under the hash `h` is `code`.
pub open spec fn known_code(contracts: Seq<ContractCode>, h: B256, code: Seq<u8>) -> bool {
    exists|i: int|
        {
            &&& 0 <= i < contracts.len()
            &&& (#[trigger] contracts[i]).hash == h
            &&& contracts[i].code@ == code
            &&& forall|k: int| 0 <= k < i ==> (#[trigger] contracts[k]).hash != h
        }
}

/// The delta `d` carries `code`, under the hash `h`.
pub open spec fn tells_code(d: JsonView, h: B256, code: Seq<u8>) -> bool {
    exists|entries: Seq<JsonView>, k: int|
        {
            &&& #[trigger] has_member(d, "code"@, JsonView::List(entries))
            &&& 0 <= k < entries.len()
            &&& has_member(#[trigger] entries[k], "hash"@, JsonView::Text(hash::b256_text(h)))
            &&& has_member(
                entries[k],
                "code"@,
                JsonView::Text(hash::prefixed(text::hex_digits(code))),
            )
        }
}

/// The account `addr` moved from or to the code with the hash `h`.
pub open spec fn moved_code(
    original: Snapshot,
    prev: Option<&Snapshot>,
    post: Snapshot,
    addr: Address,
    h: B256,
) -> bool {
    exists|before: Option<AcctFields>, after: Option<AcctFields>|
        {
            &&& #[trigger] has_account(post, addr, after)
            &&& #[trigger] account_was(original, prev, addr, before)
            &&& reads_as(before).code_hash != reads_as(after).code_hash
            &&& h == reads_as(before).code_hash || h == reads_as(after).code_hash
        }
}

proof fn lemma_known_code(contracts: Seq<ContractCode>, h: B256)
    ensures
        forall|code: Seq<u8>|
            #[trigger] known_code(contracts, h, code) <==> delta::find_code(contracts, h) == Some(
                code,
            ),
    decreases contracts.len(),
{
    if contracts.len() == 0 {
    } else if contracts[0].hash == h {
        let c = contracts[0].code@;
        assert(known_code(contracts, h, c));
        assert forall|code: Seq<u8>| #[trigger] known_code(contracts, h, code) implies code
            == c by {
            let i = choose|i: int|
                {
                    &&& 0 <= i < contracts.len()
                    &&& (#[trigger] contracts[i]).hash == h
                    &&& contracts[i].code@ == code
                    &&& forall|k: int| 0 <= k < i ==> (#[trigger] contracts[k]).hash != h
                };
            if i > 0 {
                assert(contracts[0].hash != h);
            }
        }
    } else {
        let rest = contracts.drop_first();
        lemma_known_code(rest, h);
        assert forall|code: Seq<u8>|
            #[trigger] known_code(contracts, h, code) <==> known_code(rest, h, code) by {
            if known_code(contracts, h, code) {
                let i = choose|i: int|
                    {
                        &&& 0 <= i < contracts.len()
                        &&& (#[trigger] contracts[i]).hash == h
                        &&& contracts[i].code@ == code
                        &&& forall|k: int| 0 <= k < i ==> (#[trigger] contracts[k]).hash != h
                    };
                assert(rest[i - 1] == contracts[i]);
                assert forall|k: int| 0 <= k < i - 1 implies (#[trigger] rest[k]).hash != h by {
                    assert(contracts[k + 1].hash != h);
                }
                assert(known_code(rest, h, code));
            }
            if known_code(rest, h, code) {
                let i = choose|i: int|
                    {
                        &&& 0 <= i < rest.len()
                        &&& (#[trigger] rest[i]).hash == h
                        &&& rest[i].code@ == code
                        &&& forall|k: int| 0 <= k < i ==> (#[trigger] rest[k]).hash != h
                    };
                assert(contracts[i + 1] == rest[i]);
                assert forall|k: int| 0 <= k < i + 1 implies (#[trigger] contracts[k]).hash
                    != h by {
                    if k > 0 {
                        assert(rest[k - 1].hash != h);
                    }
                }
                assert(known_code(contracts, h, code));
            }
        }
    }
}

proof fn lemma_moved(
    original: Snapshot,
    prev: Option<&Snapshot>,
    post: Snapshot,
    h: B256,
)
    requires
        original.well_formed(),
        delta::prev_well_formed(prev),
        post.well_formed(),
    ensures
        (exists|i: int|
            0 <= i < post.accounts@.len() && delta::moves_code(
                #[trigger] post.accounts@[i],
                original.account_map(),
                delta::accounts_of(prev),
                h,
            )) <==> exists|addr: Address| #[trigger] moved_code(original, prev, post, addr, h),
{
    let om = original.account_map();
    let pm = delta::accounts_of(prev);
    if exists|i: int|
        0 <= i < post.accounts@.len() && delta::moves_code(
            #[trigger] post.accounts@[i],
            om,
            pm,
            h,
        ) {
        let i = choose|i: int|
            0 <= i < post.accounts@.len() && delta::moves_code(
                #[trigger] post.accounts@[i],
                om,
                pm,
                h,
            );
        let row = post.accounts@[i];
        lemma_account_was(original, prev, row.addr);
        let before = delta::account_before(om, pm, row.addr);
        assert(has_account(post, row.addr, row.fields));
        assert(account_was(original, prev, row.addr, before));
        assert(reads_as(before) == delta::fields_of(before));
        assert(reads_as(row.fields) == delta::fields_of(row.fields));
        assert(moved_code(original, prev, post, row.addr, h));
    }
    if exists|addr: Address| #[trigger] moved_code(original, prev, post, addr, h) {
        let addr = choose|addr: Address| #[trigger] moved_code(original, prev, post, addr, h);
        let (before, after) = choose|before: Option<AcctFields>, after: Option<AcctFields>|
            {
                &&& #[trigger] has_account(post, addr, after)
                &&& #[trigger] account_was(original, prev, addr, before)
                &&& reads_as(before).code_hash != reads_as(after).code_hash
                &&& h == reads_as(before).code_hash || h == reads_as(after).code_hash
            };
        lemma_account_was(original, prev, addr);
        let i = choose|i: int|
            0 <= i < post.accounts@.len() && (#[trigger] post.accounts@[i]).addr == addr
                && post.accounts@[i].fields == after;
        assert(account_was(original, prev, addr, before));
        assert(reads_as(before) == delta::fields_of(before));
        assert(reads_as(after) == delta::fields_of(after));
        assert(delta::moves_code(post.accounts@[i], om, pm, h));
    }
}

proof fn lemma_code_members(contracts: Seq<ContractCode>, h: B256)
    ensures
        has_member(
            delta::code_entry(contracts, h),
            "hash"@,
            JsonView::Text(hash::b256_text(h)),
        ),
        has_member(
            delta::code_entry(contracts, h),
            "code"@,
            JsonView::Text(hash::prefixed(text::hex_digits(delta::find_code(contracts, h)->0))),
        ),
{
    published::lemma_names();
    let j = delta::code_entry(contracts, h);
    assert(j->Object_0.len() == 2);
    published::lemma_member_at(j, 0);
    published::lemma_member_at(j, 1);
}

/// A delta carries the code under a hash exactly where it is known and some account
/// moved from it or to it.
pub proof fn lemma_delta_tells_codes(
    original: Snapshot,
    prev: Option<&Snapshot>,
    post: Snapshot,
    aggregate: Bundle,
    r: (Json, Stats),
    h: B256,
    code: Seq<u8>,
)
    requires
        original.well_formed(),
        delta::prev_well_formed(prev),
        post.well_formed(),
        call_ensures(delta::counted_delta, (&original, prev, &post, &aggregate), r),
    ensures
        tells_code(r.0@, h, code) <==> known_code(aggregate.contracts@, h, code) && exists|
            addr: Address,
        | #[trigger] moved_code(original, prev, post, addr, h),
{
    let d = r.0@;
    let contracts = aggregate.contracts@;
    let om = original.account_map();
    let pm = delta::accounts_of(prev);
    let rows = post.accounts@;
    let hashes = delta::code_hashes(rows, om, pm, contracts);
    let mine = hashes.map_values(|h: B256| delta::code_entry(contracts, h));
    lemma_delta_members(original, prev, post, contracts);
    delta::lemma_code_hashes(rows, om, pm, contracts);
    lemma_moved(original, prev, post, h);
    lemma_known_code(contracts, h);
    assert(known_code(contracts, h, code) <==> delta::find_code(contracts, h) == Some(code));
    let a = Address { hi: 0, lo: 0 };
    let u = U256 { hi: 0, lo: 0 };
    if tells_code(d, h, code) {
        let (entries, k) = choose|entries: Seq<JsonView>, k: int|
            {
                &&& #[trigger] has_member(d, "code"@, JsonView::List(entries))
                &&& 0 <= k < entries.len()
                &&& has_member(#[trigger] entries[k], "hash"@, JsonView::Text(hash::b256_text(h)))
                &&& has_member(
                    entries[k],
                    "code"@,
                    JsonView::Text(hash::prefixed(text::hex_digits(code))),
                )
            };
        published::lemma_one_member(d, "code"@, JsonView::List(entries), JsonView::List(mine));
        let g = hashes[k];
        assert(entries[k] == delta::code_entry(contracts, g));
        lemma_code_members(contracts, g);
        published::lemma_one_member(
            entries[k],
            "hash"@,
            JsonView::Text(hash::b256_text(g)),
            JsonView::Text(hash::b256_text(h)),
        );
        readback::lemma_texts_tell_apart(g, h, a, a, u, u);
        assert(hashes.contains(h));
        let said = delta::find_code(contracts, h)->0;
        published::lemma_one_member(
            entries[k],
            "code"@,
            JsonView::Text(hash::prefixed(text::hex_digits(said))),
            JsonView::Text(hash::prefixed(text::hex_digits(code))),
        );
        readback::lemma_prefixed_bytes(said);
        readback::lemma_prefixed_bytes(code);
    }
    if known_code(contracts, h, code) && exists|addr: Address| #[trigger]
        moved_code(original, prev, post, addr, h) {
        assert(hashes.contains(h));
        let k = choose|k: int| 0 <= k < hashes.len() && hashes[k] == h;
        lemma_code_members(contracts, h);
        assert(mine[k] == delta::code_entry(contracts, h));
        assert(has_member(d, "code"@, JsonView::List(mine)));
    }
}

// -------------------------------------------------------------------- counts

/// How many slots these groups tell of.
pub open spec fn slots_told(groups: Seq<JsonView>) -> nat
    decreases groups.len(),
{
    if groups.len() == 0 {
        0
    } else {
        slots_told(groups.drop_last()) + (choose|slots: Seq<JsonView>| #[trigger]
            has_member(groups.last(), "slots"@, JsonView::List(slots))).len()
    }
}

proof fn lemma_slots_of_group(g: SlotGroup)
    ensures
        (choose|slots: Seq<JsonView>| #[trigger]
            has_member(delta::group_entry(g), "slots"@, JsonView::List(slots))) == g.slots,
{
    lemma_group_members(g);
    let s = choose|slots: Seq<JsonView>| #[trigger]
        has_member(delta::group_entry(g), "slots"@, JsonView::List(slots));
    published::lemma_one_member(
        delta::group_entry(g),
        "slots"@,
        JsonView::List(s),
        JsonView::List(g.slots),
    );
}

proof fn lemma_slots_counted(
    rows: Seq<SlotRow>,
    original: Map<SlotKey, U256>,
    prev: Option<Map<SlotKey, U256>>,
)
    ensures
        slots_told(
            delta::slot_groups(rows, original, prev).map_values(
                |g: SlotGroup| delta::group_entry(g),
            ),
        ) == delta::changed_slots(rows, original, prev),
    decreases rows.len(),
{
    let f = |g: SlotGroup| delta::group_entry(g);
    let gs = delta::slot_groups(rows, original, prev);
    if rows.len() > 0 {
        let p = rows.drop_last();
        let e = delta::slot_groups(p, original, prev);
        lemma_slots_counted(p, original, prev);
        let row = rows.last();
        if delta::slot_before(original, prev, row.at) != row.value {
            let g = gs.last();
            lemma_slots_of_group(g);
            if e.len() > 0 && e.last().addr == row.at.addr {
                lemma_slots_of_group(e.last());
                assert(gs.map_values(f).drop_last() =~= e.map_values(f).drop_last());
                assert(e.map_values(f).last() == delta::group_entry(e.last()));
            } else {
                assert(gs.map_values(f).drop_last() =~= e.map_values(f));
            }
            assert(gs.map_values(f).last() == delta::group_entry(g));
        }
    }
}

/// What is counted of a delta is what it holds: its accounts, the slots of all its
/// groups, and its codes.
pub proof fn lemma_delta_counts(
    original: Snapshot,
    prev: Option<&Snapshot>,
    post: Snapshot,
    aggregate: Bundle,
    r: (Json, Stats),
    accounts: Seq<JsonView>,
    groups: Seq<JsonView>,
    codes: Seq<JsonView>,
)
    requires
        original.well_formed(),
        delta::prev_well_formed(prev),
        post.well_formed(),
        call_ensures(delta::counted_delta, (&original, prev, &post, &aggregate), r),
        has_member(r.0@, "accounts"@, JsonView::List(accounts)),
        has_member(r.0@, "storage"@, JsonView::List(groups)),
        has_member(r.0@, "code"@, JsonView::List(codes)),
    ensures
        r.1.accounts == accounts.len(),
        r.1.slots == slots_told(groups),
        r.1.code == codes.len(),
        r.1.blocks == 0,
        r.1.bytes == 0,
{
    let d = r.0@;
    let contracts = aggregate.contracts@;
    let om = original.account_map();
    let pm = delta::accounts_of(prev);
    lemma_delta_members(original, prev, post, contracts);
    let a = delta::account_entries(post.accounts@, om, pm);
    let g = delta::slot_groups(
        post.slots@,
        original.slot_map(),
        delta::slots_of(prev),
    ).map_values(|g: SlotGroup| delta::group_entry(g));
    let c = delta::code_hashes(post.accounts@, om, pm, contracts).map_values(
        |h: B256| delta::code_entry(contracts, h),
    );
    published::lemma_one_member(d, "accounts"@, JsonView::List(accounts), JsonView::List(a));
    published::lemma_one_member(d, "storage"@, JsonView::List(groups), JsonView::List(g));
    published::lemma_one_member(d, "code"@, JsonView::List(codes), JsonView::List(c));
    lemma_slots_counted(post.slots@, original.slot_map(), delta::slots_of(prev));
}

/// A delta that is built with counts to grow is the same delta, and the counts grow
/// by what it holds, each by its own.
pub proof fn lemma_build_delta(
    original: Snapshot,
    prev: Option<&Snapshot>,
    post: Snapshot,
    aggregate: Bundle,
    x: &mut Stats,
    r: Json,
    c: (Json, Stats),
)
    requires
        call_ensures(delta::build_delta, (&original, prev, &post, &aggregate, x), r),
        call_ensures(delta::counted_delta, (&original, prev, &post, &aggregate), c),
        old(x).blocks + c.1.blocks <= u64::MAX,
        old(x).accounts + c.1.accounts <= usize::MAX,
        old(x).slots + c.1.slots <= usize::MAX,
        old(x).code + c.1.code <= usize::MAX,
        old(x).bytes + c.1.bytes <= usize::MAX,
    ensures
        r@ == c.0@,
        final(x).blocks == old(x).blocks + c.1.blocks,
        final(x).accounts == old(x).accounts + c.1.accounts,
        final(x).slots == old(x).slots + c.1.slots,
        final(x).code == old(x).code + c.1.code,
        final(x).bytes == old(x).bytes + c.1.bytes,
{
}

} // verus!
