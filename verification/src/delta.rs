//! What changed between two block boundaries, account by account and slot by
//! slot, in the form in which it is published.

use crate::hash;
use crate::json::{self, add_member, Json, JsonView};
use crate::primitives::{Address, B256, U256};
use crate::snapshot::{AccountRow, AcctFields, SlotKey, SlotRow, Snapshot};
use crate::text;
use vstd::prelude::*;

verus! {

/// A storage slot that execution touched.
#[derive(Clone, Copy, Debug)]
pub struct BundleSlot {
    /// The key.
    pub key: U256,
    /// The value that the slot had before.
    pub previous_or_original_value: U256,
    /// The value that it has now.
    pub present_value: U256,
}

/// An account that execution touched.
#[derive(Debug)]
pub struct BundleAccount {
    /// The account's address.
    pub addr: Address,
    /// The account as it was, if it existed.
    pub original_info: Option<AcctFields>,
    /// The account as it is, if it exists.
    pub info: Option<AcctFields>,
    /// Its touched slots.
    pub storage: Vec<BundleSlot>,
}

/// The code of a contract, under its hash.
#[derive(Debug)]
pub struct ContractCode {
    /// Hash of the code.
    pub hash: B256,
    /// The code itself.
    pub code: Vec<u8>,
}

/// The state that executing a range of blocks left behind.
#[derive(Debug)]
pub struct Bundle {
    /// The touched accounts.
    pub state: Vec<BundleAccount>,
    /// The code of contracts that were created or changed.
    pub contracts: Vec<ContractCode>,
}

/// What a delta holds, counted.
#[derive(Clone, Copy, Debug, PartialEq, Eq, Structural)]
pub struct Stats {
    /// Blocks emitted.
    pub blocks: u64,
    /// Changed accounts.
    pub accounts: usize,
    /// Changed slots.
    pub slots: usize,
    /// Contract codes carried.
    pub code: usize,
    /// Bytes written.
    pub bytes: usize,
}

/// Nothing counted yet.
pub open spec fn no_stats() -> Stats {
    Stats { blocks: 0, accounts: 0, slots: 0, code: 0, bytes: 0 }
}

impl Stats {
    /// Nothing counted yet.
    pub fn new() -> (r: Self)
        ensures
            r == no_stats(),
    {
        Stats { blocks: 0, accounts: 0, slots: 0, code: 0, bytes: 0 }
    }

    /// Both counts together still fit.
    pub open spec fn fits(self, more: Stats) -> bool {
        &&& self.blocks + more.blocks <= u64::MAX
        &&& self.accounts + more.accounts <= usize::MAX
        &&& self.slots + more.slots <= usize::MAX
        &&& self.code + more.code <= usize::MAX
        &&& self.bytes + more.bytes <= usize::MAX
    }

    /// Both counts together.
    pub open spec fn sum(self, more: Stats) -> Stats {
        Stats {
            blocks: (self.blocks + more.blocks) as u64,
            accounts: (self.accounts + more.accounts) as usize,
            slots: (self.slots + more.slots) as usize,
            code: (self.code + more.code) as usize,
            bytes: (self.bytes + more.bytes) as usize,
        }
    }

    /// Adds `more`.
    pub fn grow(&mut self, more: &Stats)
        requires
            old(self).fits(*more),
        ensures
            *final(self) == old(self).sum(*more),
    {
        self.blocks = self.blocks + more.blocks;
        self.accounts = self.accounts + more.accounts;
        self.slots = self.slots + more.slots;
        self.code = self.code + more.code;
        self.bytes = self.bytes + more.bytes;
    }
}

// ---------------------------------------------------------------- snapshots

/// The accounts of a bundle: as they are (`present`), or as they were.
pub open spec fn bundle_accounts(state: Seq<BundleAccount>, present: bool) -> Map<
    Address,
    Option<AcctFields>,
>
    decreases state.len(),
{
    if state.len() == 0 {
        Map::empty()
    } else {
        let last = state.last();
        bundle_accounts(state.drop_last(), present).insert(
            last.addr,
            if present { last.info } else { last.original_info },
        )
    }
}

/// `m` with the slots of one account recorded over it.
pub open spec fn with_storage(
    m: Map<SlotKey, U256>,
    addr: Address,
    storage: Seq<BundleSlot>,
    present: bool,
) -> Map<SlotKey, U256>
    decreases storage.len(),
{
    if storage.len() == 0 {
        m
    } else {
        let last = storage.last();
        with_storage(m, addr, storage.drop_last(), present).insert(
            SlotKey { addr, key: last.key },
            if present { last.present_value } else { last.previous_or_original_value },
        )
    }
}

/// The slots of a bundle: as they are (`present`), or as they were.
pub open spec fn bundle_slots(state: Seq<BundleAccount>, present: bool) -> Map<SlotKey, U256>
    decreases state.len(),
{
    if state.len() == 0 {
        Map::empty()
    } else {
        let last = state.last();
        with_storage(
            bundle_slots(state.drop_last(), present),
            last.addr,
            last.storage@,
            present,
        )
    }
}

fn record_storage(s: &mut Snapshot, addr: Address, storage: &Vec<BundleSlot>, present: bool)
    requires
        old(s).well_formed(),
    ensures
        final(s).well_formed(),
        final(s).account_map() == old(s).account_map(),
        final(s).slot_map() == with_storage(old(s).slot_map(), addr, storage@, present),
{
    let ghost start = s.slot_map();
    let ghost accounts = s.accounts@;
    let mut i: usize = 0;
    assert(storage@.take(0) =~= Seq::empty());
    while i < storage.len()
        invariant
            i <= storage@.len(),
            s.well_formed(),
            s.accounts@ == accounts,
            s.slot_map() == with_storage(start, addr, storage@.take(i as int), present),
        decreases storage@.len() - i,
    {
        let slot: BundleSlot = storage[i];
        let value: U256 = if present {
            slot.present_value
        } else {
            slot.previous_or_original_value
        };
        s.set_slot(SlotKey { addr, key: slot.key }, value);
        assert(storage@.take(i + 1).drop_last() =~= storage@.take(i as int));
        i = i + 1;
    }
    assert(storage@.take(i as int) =~= storage@);
}

fn snapshot_of(bundle: &Bundle, present: bool) -> (s: Snapshot)
    ensures
        s.well_formed(),
        s.account_map() == bundle_accounts(bundle.state@, present),
        s.slot_map() == bundle_slots(bundle.state@, present),
{
    let mut s = Snapshot::new();
    let mut i: usize = 0;
    assert(bundle.state@.take(0) =~= Seq::empty());
    while i < bundle.state.len()
        invariant
            i <= bundle.state@.len(),
            s.well_formed(),
            s.account_map() == bundle_accounts(bundle.state@.take(i as int), present),
            s.slot_map() == bundle_slots(bundle.state@.take(i as int), present),
        decreases bundle.state@.len() - i,
    {
        let account = &bundle.state[i];
        let fields: Option<AcctFields> = if present {
            account.info
        } else {
            account.original_info
        };
        s.set_account(account.addr, fields);
        record_storage(&mut s, account.addr, &account.storage, present);
        assert(bundle.state@.take(i + 1).drop_last() =~= bundle.state@.take(i as int));
        i = i + 1;
    }
    assert(bundle.state@.take(i as int) =~= bundle.state@);
    s
}

/// State entering the chain: every touched key's original value.
pub fn snapshot_original(bundle: &Bundle) -> (s: Snapshot)
    ensures
        s.well_formed(),
        s.account_map() == bundle_accounts(bundle.state@, false),
        s.slot_map() == bundle_slots(bundle.state@, false),
{
    snapshot_of(bundle, false)
}

/// State after the outcome's last block.
pub fn snapshot_post(bundle: &Bundle) -> (s: Snapshot)
    ensures
        s.well_formed(),
        s.account_map() == bundle_accounts(bundle.state@, true),
        s.slot_map() == bundle_slots(bundle.state@, true),
{
    snapshot_of(bundle, true)
}

// ------------------------------------------------------------------- before

/// Hash of the empty code.
pub open spec fn keccak_empty() -> B256 {
    B256 { hi: 0xc5d2460186f7233c927e7db2dcc703c0, lo: 0xe500b653ca82273b7bfad8045d85a470 }
}

/// A non-existent account reads as zero balance, zero nonce and empty code.
pub open spec fn fields_of(account: Option<AcctFields>) -> AcctFields {
    match account {
        Some(fields) => fields,
        None => AcctFields {
            balance: U256 { hi: 0, lo: 0 },
            nonce: 0,
            code_hash: keccak_empty(),
        },
    }
}

/// A non-existent account reads as zero balance, zero nonce and empty code.
pub fn fields_or_empty(account: Option<AcctFields>) -> (r: AcctFields)
    ensures
        r == fields_of(account),
{
    match account {
        Some(fields) => fields,
        None => AcctFields {
            balance: U256 { hi: 0, lo: 0 },
            nonce: 0,
            code_hash: B256 {
                hi: 0xc5d2460186f7233c927e7db2dcc703c0,
                lo: 0xe500b653ca82273b7bfad8045d85a470,
            },
        },
    }
}

/// The account at the boundary before: as the previous boundary knew it, and
/// where that did not know it, as it was originally.
pub open spec fn account_before(
    original: Map<Address, Option<AcctFields>>,
    prev: Option<Map<Address, Option<AcctFields>>>,
    addr: Address,
) -> Option<AcctFields> {
    if prev is Some && prev->0.dom().contains(addr) {
        prev->0[addr]
    } else if original.dom().contains(addr) {
        original[addr]
    } else {
        None
    }
}

/// The slot at the boundary before, zero where nothing is known of it.
pub open spec fn slot_before(
    original: Map<SlotKey, U256>,
    prev: Option<Map<SlotKey, U256>>,
    at: SlotKey,
) -> U256 {
    if prev is Some && prev->0.dom().contains(at) {
        prev->0[at]
    } else if original.dom().contains(at) {
        original[at]
    } else {
        U256 { hi: 0, lo: 0 }
    }
}

/// The accounts of an optional snapshot.
pub open spec fn accounts_of(prev: Option<&Snapshot>) -> Option<Map<Address, Option<AcctFields>>> {
    match prev {
        Some(p) => Some(p.account_map()),
        None => None,
    }
}

/// The slots of an optional snapshot.
pub open spec fn slots_of(prev: Option<&Snapshot>) -> Option<Map<SlotKey, U256>> {
    match prev {
        Some(p) => Some(p.slot_map()),
        None => None,
    }
}

/// An optional snapshot is in order.
pub open spec fn prev_well_formed(prev: Option<&Snapshot>) -> bool {
    match prev {
        Some(p) => p.well_formed(),
        None => true,
    }
}

fn pre_account(original: &Snapshot, prev: Option<&Snapshot>, addr: &Address) -> (r: Option<
    AcctFields,
>)
    requires
        original.well_formed(),
        prev_well_formed(prev),
    ensures
        r == account_before(original.account_map(), accounts_of(prev), *addr),
{
    if let Some(p) = prev {
        if let Some(known) = p.account(addr) {
            return known;
        }
    }
    match original.account(addr) {
        Some(known) => known,
        None => None,
    }
}

fn pre_slot(original: &Snapshot, prev: Option<&Snapshot>, at: &SlotKey) -> (r: U256)
    requires
        original.well_formed(),
        prev_well_formed(prev),
    ensures
        r == slot_before(original.slot_map(), slots_of(prev), *at),
{
    if let Some(p) = prev {
        if let Some(v) = p.slot(at) {
            return v;
        }
    }
    match original.slot(at) {
        Some(v) => v,
        None => U256::zero(),
    }
}

// ----------------------------------------------------------------- accounts

/// One member of an object, or none.
pub open spec fn member_if(when: bool, name: Seq<char>, value: JsonView) -> Seq<
    (Seq<char>, JsonView),
> {
    if when {
        seq![(name, value)]
    } else {
        Seq::empty()
    }
}

/// An array of two strings.
pub open spec fn two_texts(a: Seq<char>, b: Seq<char>) -> JsonView {
    JsonView::List(seq![JsonView::Text(a), JsonView::Text(b)])
}

/// The published change of one account: whether it exists, and each field that
/// moved with its value on either side.
pub open spec fn account_entry(
    addr: Address,
    before: Option<AcctFields>,
    after: Option<AcctFields>,
) -> JsonView {
    let b = fields_of(before);
    let a = fields_of(after);
    JsonView::Object(
        seq![
            ("addr"@, JsonView::Text(hash::address_text(addr))),
            (
                "exists"@,
                JsonView::List(seq![JsonView::Bool(before is Some), JsonView::Bool(after is Some)]),
            ),
        ] + member_if(
            b.balance != a.balance,
            "balance"@,
            two_texts(hash::u256_text(b.balance), hash::u256_text(a.balance)),
        ) + member_if(
            b.nonce != a.nonce,
            "nonce"@,
            JsonView::List(seq![JsonView::Number(b.nonce), JsonView::Number(a.nonce)]),
        ) + member_if(
            b.code_hash != a.code_hash,
            "code_hash"@,
            two_texts(hash::b256_text(b.code_hash), hash::b256_text(a.code_hash)),
        ),
    )
}

/// Some member of the object `j` has this name.
pub open spec fn publishes(j: JsonView, name: Seq<char>) -> bool {
    j is Object && exists|i: int|
        0 <= i < j->Object_0.len() && (#[trigger] j->Object_0[i]).0 == name
}

/// A field is published only when it moved, and always when it did: the reader
/// takes a missing field as unchanged.
pub proof fn lemma_fields_published(
    addr: Address,
    before: Option<AcctFields>,
    after: Option<AcctFields>,
)
    ensures
        publishes(account_entry(addr, before, after), "balance"@) <==> fields_of(before).balance
            != fields_of(after).balance,
        publishes(account_entry(addr, before, after), "nonce"@) <==> fields_of(before).nonce
            != fields_of(after).nonce,
        publishes(account_entry(addr, before, after), "code_hash"@) <==> fields_of(
            before,
        ).code_hash != fields_of(after).code_hash,
{
    reveal_strlit("addr");
    reveal_strlit("exists");
    reveal_strlit("balance");
    reveal_strlit("nonce");
    reveal_strlit("code_hash");
    let e = account_entry(addr, before, after)->Object_0;
    let b = fields_of(before);
    let a = fields_of(after);
    assert("balance"@[0] == 'b' && "nonce"@[0] == 'n' && "code_hash"@[0] == 'c' && "addr"@[0] == 'a'
        && "exists"@[0] == 'e');
    let at_nonce: int = if b.balance != a.balance {
        3
    } else {
        2
    };
    let at_code: int = if b.nonce != a.nonce {
        at_nonce + 1
    } else {
        at_nonce
    };
    if b.balance != a.balance {
        assert(e[2].0 == "balance"@);
    }
    if b.nonce != a.nonce {
        assert(e[at_nonce].0 == "nonce"@);
    }
    if b.code_hash != a.code_hash {
        assert(e[at_code].0 == "code_hash"@);
    }
}

/// The published changes of the accounts in `rows`, those left out that stand
/// as before.
pub open spec fn account_entries(
    rows: Seq<AccountRow>,
    original: Map<Address, Option<AcctFields>>,
    prev: Option<Map<Address, Option<AcctFields>>>,
) -> Seq<JsonView>
    decreases rows.len(),
{
    if rows.len() == 0 {
        Seq::empty()
    } else {
        let earlier = account_entries(rows.drop_last(), original, prev);
        let row = rows.last();
        let before = account_before(original, prev, row.addr);
        if before == row.fields {
            earlier
        } else {
            earlier.push(account_entry(row.addr, before, row.fields))
        }
    }
}

fn account_change(addr: &Address, before: Option<AcctFields>, after: Option<AcctFields>) -> (r: Json)
    ensures
        r@ == account_entry(*addr, before, after),
{
    let b = fields_or_empty(before);
    let a = fields_or_empty(after);
    let mut members: Vec<(String, Json)> = Vec::new();
    add_member(&mut members, "addr", Json::Text(hash::hex_address(addr)));
    add_member(
        &mut members,
        "exists",
        Json::pair(Json::Bool(before.is_some()), Json::Bool(after.is_some())),
    );
    if b.balance != a.balance {
        add_member(
            &mut members,
            "balance",
            Json::pair(
                Json::Text(hash::hex_u256(b.balance)),
                Json::Text(hash::hex_u256(a.balance)),
            ),
        );
    }
    if b.nonce != a.nonce {
        add_member(
            &mut members,
            "nonce",
            Json::pair(Json::Number(b.nonce), Json::Number(a.nonce)),
        );
    }
    if b.code_hash != a.code_hash {
        add_member(
            &mut members,
            "code_hash",
            Json::pair(
                Json::Text(hash::hex_b256(&b.code_hash)),
                Json::Text(hash::hex_b256(&a.code_hash)),
            ),
        );
    }
    assert(json::members_view(members@) =~= account_entry(*addr, before, after)->Object_0);
    Json::object(members)
}

// --------------------------------------------------------------------- code

/// The code that stands first under the hash `h`.
pub open spec fn find_code(contracts: Seq<ContractCode>, h: B256) -> Option<Seq<u8>>
    decreases contracts.len(),
{
    if contracts.len() == 0 {
        None
    } else if contracts[0].hash == h {
        Some(contracts[0].code@)
    } else {
        find_code(contracts.drop_first(), h)
    }
}

/// `h` put into an ascending list, unless it is there.
pub open spec fn hash_inserted(s: Seq<B256>, h: B256) -> Seq<B256>
    decreases s.len(),
{
    if s.len() == 0 {
        seq![h]
    } else if s.last() == h {
        s
    } else if s.last().before(h) {
        s.push(h)
    } else {
        hash_inserted(s.drop_last(), h).push(s.last())
    }
}

/// `h` put into the list if its code is known.
pub open spec fn code_wanted(s: Seq<B256>, contracts: Seq<ContractCode>, h: B256) -> Seq<B256> {
    if find_code(contracts, h) is Some {
        hash_inserted(s, h)
    } else {
        s
    }
}

/// The hashes of the codes that a delta carries: those that a changed account
/// moved from or to, as far as the code is known, in ascending order.
pub open spec fn code_hashes(
    rows: Seq<AccountRow>,
    original: Map<Address, Option<AcctFields>>,
    prev: Option<Map<Address, Option<AcctFields>>>,
    contracts: Seq<ContractCode>,
) -> Seq<B256>
    decreases rows.len(),
{
    if rows.len() == 0 {
        Seq::empty()
    } else {
        let earlier = code_hashes(rows.drop_last(), original, prev, contracts);
        let row = rows.last();
        let before = account_before(original, prev, row.addr);
        let b = fields_of(before).code_hash;
        let a = fields_of(row.fields).code_hash;
        if before == row.fields || b == a {
            earlier
        } else {
            code_wanted(code_wanted(earlier, contracts, b), contracts, a)
        }
    }
}

/// The hashes stand in strictly ascending order.
pub open spec fn hashes_ascend(s: Seq<B256>) -> bool {
    forall|i: int, j: int| 0 <= i < j < s.len() ==> #[trigger] s[i].before(#[trigger] s[j])
}

proof fn lemma_hash_inserted_member(s: Seq<B256>, h: B256, x: B256)
    ensures
        hash_inserted(s, h).contains(x) <==> x == h || s.contains(x),
    decreases s.len(),
{
    let r = hash_inserted(s, h);
    if s.len() == 0 {
        assert(r[0] == h);
    } else if s.last() == h {
        assert(s[s.len() - 1] == h);
    } else if s.last().before(h) {
        assert(r[s.len() as int] == h);
        if s.contains(x) {
            assert(r[s.index_of(x)] == x);
        }
    } else {
        let p = s.drop_last();
        let q = hash_inserted(p, h);
        lemma_hash_inserted_member(p, h, x);
        assert(r[q.len() as int] == s.last());
        if q.contains(x) {
            assert(r[q.index_of(x)] == x);
        }
        if p.contains(x) {
            assert(s[p.index_of(x)] == x);
        }
        if s.contains(x) && x != s.last() {
            assert(p[s.index_of(x)] == x);
        }
        if r.contains(x) && x != s.last() {
            assert(q[r.index_of(x)] == x);
        }
        if x == s.last() {
            assert(s[s.len() - 1] == x);
        }
    }
}

/// Putting a hash into an ascending list keeps it ascending and adds just that
/// hash.
pub proof fn lemma_hash_inserted(s: Seq<B256>, h: B256)
    requires
        hashes_ascend(s),
    ensures
        hashes_ascend(hash_inserted(s, h)),
        forall|x: B256|
            #[trigger] hash_inserted(s, h).contains(x) <==> x == h || s.contains(x),
        s.len() <= hash_inserted(s, h).len() <= s.len() + 1,
    decreases s.len(),
{
    let r = hash_inserted(s, h);
    assert forall|x: B256| #[trigger] hash_inserted(s, h).contains(x) <==> x == h || s.contains(x) by {
        lemma_hash_inserted_member(s, h, x);
    }
    if s.len() == 0 || s.last() == h {
    } else if s.last().before(h) {
        assert forall|i: int, j: int| 0 <= i < j < r.len() implies #[trigger] r[i].before(
            #[trigger] r[j],
        ) by {
            if j == s.len() {
                if i < s.len() - 1 {
                    assert(s[i].before(s[s.len() - 1]));
                }
            } else {
                assert(s[i].before(s[j]));
            }
        }
    } else {
        let p = s.drop_last();
        assert(hashes_ascend(p)) by {
            assert forall|i: int, j: int| 0 <= i < j < p.len() implies #[trigger] p[i].before(
                #[trigger] p[j],
            ) by {
                assert(s[i].before(s[j]));
            }
        }
        lemma_hash_inserted(p, h);
        let q = hash_inserted(p, h);
        assert forall|i: int, j: int| 0 <= i < j < r.len() implies #[trigger] r[i].before(
            #[trigger] r[j],
        ) by {
            if j == q.len() {
                assert(q.contains(q[i]));
                if q[i] != h {
                    assert(p.contains(q[i]));
                    let k = p.index_of(q[i]);
                    assert(s[k].before(s[s.len() - 1]));
                }
            } else {
                assert(q[i].before(q[j]));
            }
        }
    }
}

/// The codes that a delta carries stand in strictly ascending order of their
/// hashes, and each of them is the code of a changed account on one of the two
/// sides.
pub proof fn lemma_code_hashes(
    rows: Seq<AccountRow>,
    original: Map<Address, Option<AcctFields>>,
    prev: Option<Map<Address, Option<AcctFields>>>,
    contracts: Seq<ContractCode>,
)
    ensures
        hashes_ascend(code_hashes(rows, original, prev, contracts)),
        code_hashes(rows, original, prev, contracts).len() <= 2 * rows.len(),
        forall|h: B256|
            #![trigger code_hashes(rows, original, prev, contracts).contains(h)]
            code_hashes(rows, original, prev, contracts).contains(h) <==> {
                &&& find_code(contracts, h) is Some
                &&& exists|i: int|
                    0 <= i < rows.len() && moves_code(#[trigger] rows[i], original, prev, h)
            },
    decreases rows.len(),
{
    if rows.len() > 0 {
        let p = rows.drop_last();
        lemma_code_hashes(p, original, prev, contracts);
        let row = rows.last();
        let before = account_before(original, prev, row.addr);
        let b = fields_of(before).code_hash;
        let a = fields_of(row.fields).code_hash;
        let earlier = code_hashes(p, original, prev, contracts);
        let mid = code_wanted(earlier, contracts, b);
        lemma_hash_inserted(earlier, b);
        lemma_hash_inserted(mid, a);
        let all = code_hashes(rows, original, prev, contracts);
        assert forall|h: B256| #[trigger] all.contains(h) <==> {
            &&& find_code(contracts, h) is Some
            &&& exists|i: int|
                0 <= i < rows.len() && moves_code(#[trigger] rows[i], original, prev, h)
        } by {
            if exists|i: int| 0 <= i < p.len() && moves_code(#[trigger] p[i], original, prev, h) {
                let i = choose|i: int|
                    0 <= i < p.len() && moves_code(#[trigger] p[i], original, prev, h);
                assert(moves_code(rows[i], original, prev, h));
            }
            assert(rows[rows.len() - 1] == row);
            if exists|i: int| 0 <= i < rows.len() && moves_code(
                #[trigger] rows[i],
                original,
                prev,
                h,
            ) {
                let i = choose|i: int|
                    0 <= i < rows.len() && moves_code(#[trigger] rows[i], original, prev, h);
                if i < p.len() {
                    assert(moves_code(p[i], original, prev, h));
                }
            }
            lemma_hash_inserted_member(earlier, b, h);
            lemma_hash_inserted_member(mid, a, h);
        }
    }
}

/// The account changed, and `h` is its code hash on one of the two sides, which
/// differ in it.
pub open spec fn moves_code(
    row: AccountRow,
    original: Map<Address, Option<AcctFields>>,
    prev: Option<Map<Address, Option<AcctFields>>>,
    h: B256,
) -> bool {
    let before = account_before(original, prev, row.addr);
    let b = fields_of(before).code_hash;
    let a = fields_of(row.fields).code_hash;
    before != row.fields && b != a && (h == b || h == a)
}

fn insert_hash(s: &mut Vec<B256>, h: B256)
    requires
        hashes_ascend(old(s)@),
    ensures
        final(s)@ == hash_inserted(old(s)@, h),
{
    let ghost start = s@;
    let mut at: usize = s.len();
    assert(start.take(at as int) =~= start);
    assert(start.skip(at as int) =~= Seq::empty());
    assert(hash_inserted(start, h) =~= hash_inserted(start.take(at as int), h) + start.skip(
        at as int,
    ));
    while at > 0 && s[at - 1] != h && !s[at - 1].is_before(&h)
        invariant
            at <= s@.len(),
            s@ == start,
            hash_inserted(start, h) == hash_inserted(start.take(at as int), h) + start.skip(
                at as int,
            ),
        decreases at,
    {
        proof {
            let t = start.take(at as int);
            assert(t.drop_last() =~= start.take(at - 1));
            assert(t.last() == start[at - 1]);
            assert(hash_inserted(t, h) == hash_inserted(t.drop_last(), h).push(t.last()));
            assert(hash_inserted(start.take(at - 1), h).push(start[at - 1]) + start.skip(at as int)
                =~= hash_inserted(start.take(at - 1), h) + start.skip(at - 1));
        }
        at = at - 1;
    }
    let ghost t = start.take(at as int);
    if at > 0 && s[at - 1] == h {
        assert(t.last() == h);
        assert(t + start.skip(at as int) =~= start);
    } else {
        assert(hash_inserted(t, h) =~= t.push(h));
        s.insert(at, h);
        assert(s@ =~= t.push(h) + start.skip(at as int));
    }
}

fn lookup_code(contracts: &Vec<ContractCode>, h: &B256) -> (r: Option<usize>)
    ensures
        r is Some <==> find_code(contracts@, *h) is Some,
        r matches Some(i) ==> i < contracts@.len() && find_code(contracts@, *h) == Some(
            contracts@[i as int].code@,
        ),
{
    let mut i: usize = 0;
    assert(contracts@.skip(0) =~= contracts@);
    while i < contracts.len()
        invariant
            i <= contracts@.len(),
            find_code(contracts@, *h) == find_code(contracts@.skip(i as int), *h),
        decreases contracts@.len() - i,
    {
        assert(contracts@.skip(i as int).drop_first() =~= contracts@.skip(i + 1));
        if contracts[i].hash == *h {
            return Some(i);
        }
        i = i + 1;
    }
    None
}

fn want_code(s: &mut Vec<B256>, contracts: &Vec<ContractCode>, h: B256)
    requires
        hashes_ascend(old(s)@),
    ensures
        final(s)@ == code_wanted(old(s)@, contracts@, h),
        hashes_ascend(final(s)@),
{
    proof {
        lemma_hash_inserted(s@, h);
    }
    if lookup_code(contracts, &h).is_some() {
        insert_hash(s, h);
    }
}

/// The published code of one contract.
pub open spec fn code_entry(contracts: Seq<ContractCode>, h: B256) -> JsonView {
    JsonView::Object(
        seq![
            ("hash"@, JsonView::Text(hash::b256_text(h))),
            (
                "code"@,
                JsonView::Text(hash::prefixed(text::hex_digits(find_code(contracts, h)->0))),
            ),
        ],
    )
}

fn code_list(contracts: &Vec<ContractCode>, hashes: &Vec<B256>) -> (r: Json)
    requires
        forall|i: int|
            0 <= i < hashes@.len() ==> find_code(contracts@, #[trigger] hashes@[i]) is Some,
    ensures
        r@ == JsonView::List(hashes@.map_values(|h: B256| code_entry(contracts@, h))),
{
    let mut out: Vec<Json> = Vec::new();
    let mut i: usize = 0;
    let ghost f = |h: B256| code_entry(contracts@, h);
    while i < hashes.len()
        invariant
            i <= hashes@.len(),
            f == (|h: B256| code_entry(contracts@, h)),
            json::list_view(out@) == hashes@.take(i as int).map_values(f),
            forall|k: int|
                0 <= k < hashes@.len() ==> find_code(contracts@, #[trigger] hashes@[k]) is Some,
        decreases hashes@.len() - i,
    {
        let h: B256 = hashes[i];
        let mut members: Vec<(String, Json)> = Vec::new();
        add_member(&mut members, "hash", Json::Text(hash::hex_b256(&h)));
        let mut code = String::new();
        assert(find_code(contracts@, hashes@[i as int]) is Some);
        if let Some(at) = lookup_code(contracts, &h) {
            code.append("0x");
            code.append(text::hex_bytes(contracts[at].code.as_slice()).as_str());
        }
        proof {
            reveal_strlit("0x");
            assert("0x"@ =~= seq!['0', 'x']);
        }
        add_member(&mut members, "code", Json::Text(code));
        assert(json::members_view(members@) =~= code_entry(contracts@, h)->Object_0);
        let ghost before = out@;
        out.push(Json::object(members));
        assert(json::list_view(out@) =~= json::list_view(before).push(code_entry(contracts@, h)));
        assert(hashes@.take(i + 1).map_values(f) =~= hashes@.take(i as int).map_values(f).push(
            f(h),
        ));
        i = i + 1;
    }
    assert(hashes@.take(i as int) =~= hashes@);
    Json::list(out)
}

// ------------------------------------------------------------------ storage

/// The published change of one slot.
pub open spec fn slot_entry(key: U256, before: U256, after: U256) -> JsonView {
    JsonView::Object(
        seq![
            ("key"@, JsonView::Text(hash::u256_text(key))),
            ("pre"@, JsonView::Text(hash::u256_text(before))),
            ("post"@, JsonView::Text(hash::u256_text(after))),
        ],
    )
}

/// An account with the published changes of its slots.
pub struct SlotGroup {
    pub addr: Address,
    pub slots: Seq<JsonView>,
}

/// The changed slots of `rows`, gathered by account.
pub open spec fn slot_groups(
    rows: Seq<SlotRow>,
    original: Map<SlotKey, U256>,
    prev: Option<Map<SlotKey, U256>>,
) -> Seq<SlotGroup>
    decreases rows.len(),
{
    if rows.len() == 0 {
        Seq::empty()
    } else {
        let earlier = slot_groups(rows.drop_last(), original, prev);
        let row = rows.last();
        let before = slot_before(original, prev, row.at);
        let entry = slot_entry(row.at.key, before, row.value);
        if before == row.value {
            earlier
        } else if earlier.len() > 0 && earlier.last().addr == row.at.addr {
            earlier.drop_last().push(
                SlotGroup { addr: row.at.addr, slots: earlier.last().slots.push(entry) },
            )
        } else {
            earlier.push(SlotGroup { addr: row.at.addr, slots: seq![entry] })
        }
    }
}

/// How many slots of `rows` changed.
pub open spec fn changed_slots(
    rows: Seq<SlotRow>,
    original: Map<SlotKey, U256>,
    prev: Option<Map<SlotKey, U256>>,
) -> nat
    decreases rows.len(),
{
    if rows.len() == 0 {
        0
    } else {
        let earlier = changed_slots(rows.drop_last(), original, prev);
        if slot_before(original, prev, rows.last().at) == rows.last().value {
            earlier
        } else {
            earlier + 1
        }
    }
}

/// The published slots of one account.
pub open spec fn group_entry(g: SlotGroup) -> JsonView {
    JsonView::Object(
        seq![
            ("addr"@, JsonView::Text(hash::address_text(g.addr))),
            ("slots"@, JsonView::List(g.slots)),
        ],
    )
}

/// No account has two groups, and the groups stand in ascending order of their
/// accounts.
pub proof fn lemma_groups_ascend(
    rows: Seq<SlotRow>,
    original: Map<SlotKey, U256>,
    prev: Option<Map<SlotKey, U256>>,
)
    requires
        crate::snapshot::slots_ascend(rows),
    ensures
        ({
            let g = slot_groups(rows, original, prev);
            &&& forall|i: int, j: int|
                0 <= i < j < g.len() ==> (#[trigger] g[i]).addr.before((#[trigger] g[j]).addr)
            &&& forall|i: int|
                0 <= i < g.len() ==> exists|k: int|
                    0 <= k < rows.len() && (#[trigger] rows[k]).at.addr == (#[trigger] g[i]).addr
        }),
    decreases rows.len(),
{
    if rows.len() > 0 {
        let p = rows.drop_last();
        assert(crate::snapshot::slots_ascend(p)) by {
            assert forall|i: int, j: int| 0 <= i < j < p.len() implies #[trigger] p[i].at.before(
                #[trigger] p[j].at,
            ) by {
                assert(rows[i].at.before(rows[j].at));
            }
        }
        lemma_groups_ascend(p, original, prev);
        let e = slot_groups(p, original, prev);
        let g = slot_groups(rows, original, prev);
        let row = rows.last();
        assert(rows[rows.len() - 1] == row);
        assert forall|i: int| 0 <= i < g.len() implies exists|k: int|
            0 <= k < rows.len() && (#[trigger] rows[k]).at.addr == (#[trigger] g[i]).addr by {
            if i < e.len() && g[i].addr == e[i].addr {
                let k = choose|k: int|
                    0 <= k < p.len() && (#[trigger] p[k]).at.addr == (#[trigger] e[i]).addr;
                assert(rows[k].at.addr == g[i].addr);
            }
        }
        assert forall|i: int, j: int| 0 <= i < j < g.len() implies (#[trigger] g[i]).addr.before(
            (#[trigger] g[j]).addr,
        ) by {
            if j < e.len() {
                assert(e[i].addr.before(e[j].addr));
            } else {
                let k = choose|k: int|
                    0 <= k < p.len() && (#[trigger] p[k]).at.addr == (#[trigger] e[i]).addr;
                assert(rows[k].at.before(rows[rows.len() - 1].at));
                if i < e.len() - 1 {
                    assert(e[i].addr.before(e[e.len() - 1].addr));
                    let l = choose|l: int|
                        0 <= l < p.len() && (#[trigger] p[l]).at.addr == (
                        #[trigger] e[e.len() - 1]).addr;
                    assert(rows[l].at.before(rows[rows.len() - 1].at));
                }
            }
        }
    }
}

/// The rows of accounts that changed.
pub open spec fn changed_accounts(
    rows: Seq<AccountRow>,
    original: Map<Address, Option<AcctFields>>,
    prev: Option<Map<Address, Option<AcctFields>>>,
) -> Seq<AccountRow>
    decreases rows.len(),
{
    if rows.len() == 0 {
        Seq::empty()
    } else {
        let earlier = changed_accounts(rows.drop_last(), original, prev);
        let row = rows.last();
        if account_before(original, prev, row.addr) == row.fields {
            earlier
        } else {
            earlier.push(row)
        }
    }
}

/// The accounts of a delta are those that changed, in ascending order and none
/// twice.
pub proof fn lemma_accounts_ascend(
    rows: Seq<AccountRow>,
    original: Map<Address, Option<AcctFields>>,
    prev: Option<Map<Address, Option<AcctFields>>>,
)
    requires
        crate::snapshot::accounts_ascend(rows),
    ensures
        crate::snapshot::accounts_ascend(changed_accounts(rows, original, prev)),
        forall|i: int|
            0 <= i < changed_accounts(rows, original, prev).len() ==> rows.contains(
                #[trigger] changed_accounts(rows, original, prev)[i],
            ),
        account_entries(rows, original, prev) == changed_accounts(
            rows,
            original,
            prev,
        ).map_values(
            |r: AccountRow| account_entry(
                r.addr,
                account_before(original, prev, r.addr),
                r.fields,
            ),
        ),
    decreases rows.len(),
{
    let c = changed_accounts(rows, original, prev);
    let said = |r: AccountRow|
        account_entry(r.addr, account_before(original, prev, r.addr), r.fields);
    if rows.len() == 0 {
        assert(account_entries(rows, original, prev) =~= c.map_values(said));
    } else {
        let p = rows.drop_last();
        let row = rows.last();
        assert forall|i: int, j: int| 0 <= i < j < p.len() implies #[trigger] p[i].addr.before(
            #[trigger] p[j].addr,
        ) by {
            assert(rows[i].addr.before(rows[j].addr));
        }
        lemma_accounts_ascend(p, original, prev);
        let e = changed_accounts(p, original, prev);
        assert forall|i: int| 0 <= i < e.len() implies rows.contains(#[trigger] e[i])
            && e[i].addr.before(row.addr) by {
            assert(p.contains(e[i]));
            let k = choose|k: int| 0 <= k < p.len() && p[k] == e[i];
            assert(rows[k] == e[i]);
            assert(rows[k].addr.before(rows[rows.len() - 1].addr));
        }
        assert(rows[rows.len() - 1] == row);
        assert forall|i: int, j: int| 0 <= i < j < c.len() implies #[trigger] c[i].addr.before(
            #[trigger] c[j].addr,
        ) by {
            if j < e.len() {
                assert(e[i].addr.before(e[j].addr));
            } else {
                assert(c[i] == e[i]);
            }
        }
        assert forall|i: int| 0 <= i < c.len() implies rows.contains(#[trigger] c[i]) by {
            if i < e.len() {
                assert(c[i] == e[i]);
            }
        }
        assert(account_entries(rows, original, prev) =~= c.map_values(said));
    }
}

/// The rows of one account's slots that changed.
pub open spec fn changed_slots_of(
    rows: Seq<SlotRow>,
    original: Map<SlotKey, U256>,
    prev: Option<Map<SlotKey, U256>>,
    addr: Address,
) -> Seq<SlotRow>
    decreases rows.len(),
{
    if rows.len() == 0 {
        Seq::empty()
    } else {
        let earlier = changed_slots_of(rows.drop_last(), original, prev, addr);
        let row = rows.last();
        if row.at.addr != addr || slot_before(original, prev, row.at) == row.value {
            earlier
        } else {
            earlier.push(row)
        }
    }
}

proof fn lemma_slots_of_account(
    rows: Seq<SlotRow>,
    original: Map<SlotKey, U256>,
    prev: Option<Map<SlotKey, U256>>,
    addr: Address,
)
    requires
        crate::snapshot::slots_ascend(rows),
    ensures
        ({
            let c = changed_slots_of(rows, original, prev, addr);
            &&& forall|i: int, j: int|
                0 <= i < j < c.len() ==> (#[trigger] c[i]).at.key.before((#[trigger] c[j]).at.key)
            &&& forall|i: int|
                0 <= i < c.len() ==> rows.contains(#[trigger] c[i]) && c[i].at.addr == addr
        }),
    decreases rows.len(),
{
    if rows.len() > 0 {
        let p = rows.drop_last();
        let row = rows.last();
        lemma_slots_prefix_ascends(rows);
        lemma_slots_of_account(p, original, prev, addr);
        let e = changed_slots_of(p, original, prev, addr);
        let c = changed_slots_of(rows, original, prev, addr);
        assert(rows[rows.len() - 1] == row);
        assert forall|i: int| 0 <= i < e.len() implies rows.contains(#[trigger] e[i])
            && e[i].at.before(row.at) by {
            assert(p.contains(e[i]));
            let k = choose|k: int| 0 <= k < p.len() && p[k] == e[i];
            assert(rows[k] == e[i]);
            assert(rows[k].at.before(rows[rows.len() - 1].at));
        }
        assert forall|i: int, j: int| 0 <= i < j < c.len() implies (#[trigger] c[i]).at.key.before(
            (#[trigger] c[j]).at.key,
        ) by {
            if j < e.len() {
                assert(e[i].at.key.before(e[j].at.key));
            } else {
                assert(c[i] == e[i]);
            }
        }
        assert forall|i: int| 0 <= i < c.len() implies rows.contains(#[trigger] c[i])
            && c[i].at.addr == addr by {
            if i < e.len() {
                assert(c[i] == e[i]);
            }
        }
    }
}

proof fn lemma_slots_prefix_ascends(rows: Seq<SlotRow>)
    requires
        crate::snapshot::slots_ascend(rows),
        rows.len() > 0,
    ensures
        crate::snapshot::slots_ascend(rows.drop_last()),
{
    let p = rows.drop_last();
    assert forall|i: int, j: int| 0 <= i < j < p.len() implies #[trigger] p[i].at.before(
        #[trigger] p[j].at,
    ) by {
        assert(rows[i].at.before(rows[j].at));
    }
}

/// An account whose slots changed has a group.
pub proof fn lemma_changed_is_grouped(
    rows: Seq<SlotRow>,
    original: Map<SlotKey, U256>,
    prev: Option<Map<SlotKey, U256>>,
    addr: Address,
)
    requires
        changed_slots_of(rows, original, prev, addr).len() > 0,
    ensures
        exists|i: int|
            0 <= i < slot_groups(rows, original, prev).len() && (#[trigger] slot_groups(
                rows,
                original,
                prev,
            )[i]).addr == addr,
    decreases rows.len(),
{
    let p = rows.drop_last();
    let e = slot_groups(p, original, prev);
    let g = slot_groups(rows, original, prev);
    if changed_slots_of(p, original, prev, addr).len() > 0 {
        lemma_changed_is_grouped(p, original, prev, addr);
        let i = choose|i: int| 0 <= i < e.len() && (#[trigger] e[i]).addr == addr;
        assert(g[i].addr == addr);
    } else {
        assert(g[g.len() - 1].addr == addr);
    }
}

/// The slots of a group are those of its account that changed, in ascending
/// order of their keys and none twice.
pub proof fn lemma_slots_ascend(
    rows: Seq<SlotRow>,
    original: Map<SlotKey, U256>,
    prev: Option<Map<SlotKey, U256>>,
    i: int,
)
    requires
        crate::snapshot::slots_ascend(rows),
        0 <= i < slot_groups(rows, original, prev).len(),
    ensures
        ({
            let g = slot_groups(rows, original, prev)[i];
            let c = changed_slots_of(rows, original, prev, g.addr);
            &&& forall|j: int, k: int|
                0 <= j < k < c.len() ==> (#[trigger] c[j]).at.key.before((#[trigger] c[k]).at.key)
            &&& forall|j: int|
                0 <= j < c.len() ==> rows.contains(#[trigger] c[j]) && c[j].at.addr == g.addr
            &&& g.slots == c.map_values(
                |r: SlotRow| slot_entry(r.at.key, slot_before(original, prev, r.at), r.value),
            )
        }),
    decreases rows.len(),
{
    let g = slot_groups(rows, original, prev);
    let c = changed_slots_of(rows, original, prev, g[i].addr);
    let said = |r: SlotRow| slot_entry(r.at.key, slot_before(original, prev, r.at), r.value);
    lemma_slots_of_account(rows, original, prev, g[i].addr);
    if rows.len() > 0 {
        let p = rows.drop_last();
        let row = rows.last();
        let e = slot_groups(p, original, prev);
        lemma_slots_prefix_ascends(rows);
        lemma_groups_ascend(p, original, prev);
        lemma_groups_ascend(rows, original, prev);
        if i < e.len() {
            lemma_slots_ascend(p, original, prev, i);
            assert(g[i].addr == e[i].addr);
            if i < g.len() - 1 {
                assert(g[i].addr.before(g[g.len() - 1].addr));
            }
        } else {
            if changed_slots_of(p, original, prev, row.at.addr).len() > 0 {
                lemma_changed_is_grouped(p, original, prev, row.at.addr);
                let k = choose|k: int| 0 <= k < e.len() && (#[trigger] e[k]).addr == row.at.addr;
                assert(g[k].addr.before(g[i].addr));
            }
        }
        assert(g[i].slots =~= c.map_values(said));
    }
}

fn close_group(finished: &mut Vec<Json>, addr: Address, slots: Vec<Json>)
    ensures
        json::list_view(final(finished)@) == json::list_view(old(finished)@).push(
            group_entry(SlotGroup { addr, slots: json::list_view(slots@) }),
        ),
{
    let ghost before = finished@;
    let ghost group = SlotGroup { addr, slots: json::list_view(slots@) };
    let mut members: Vec<(String, Json)> = Vec::new();
    add_member(&mut members, "addr", Json::Text(hash::hex_address(&addr)));
    add_member(&mut members, "slots", Json::list(slots));
    assert(json::members_view(members@) =~= group_entry(group)->Object_0);
    finished.push(Json::object(members));
    assert(json::list_view(finished@) =~= json::list_view(before).push(group_entry(group)));
}

fn slot_change(key: U256, before: U256, after: U256) -> (r: Json)
    ensures
        r@ == slot_entry(key, before, after),
{
    let mut members: Vec<(String, Json)> = Vec::new();
    add_member(&mut members, "key", Json::Text(hash::hex_u256(key)));
    add_member(&mut members, "pre", Json::Text(hash::hex_u256(before)));
    add_member(&mut members, "post", Json::Text(hash::hex_u256(after)));
    assert(json::members_view(members@) =~= slot_entry(key, before, after)->Object_0);
    Json::object(members)
}

fn storage_list(original: &Snapshot, prev: Option<&Snapshot>, post: &Snapshot) -> (r: (Json, usize))
    requires
        original.well_formed(),
        prev_well_formed(prev),
        post.well_formed(),
    ensures
        r.0@ == JsonView::List(
            slot_groups(post.slots@, original.slot_map(), slots_of(prev)).map_values(
                |g: SlotGroup| group_entry(g),
            ),
        ),
        r.1 == changed_slots(post.slots@, original.slot_map(), slots_of(prev)),
        r.1 <= post.slots@.len(),
{
    let ghost om = original.slot_map();
    let ghost pm = slots_of(prev);
    let ghost f = |g: SlotGroup| group_entry(g);
    let mut finished: Vec<Json> = Vec::new();
    let mut current: Option<Address> = None;
    let mut slots: Vec<Json> = Vec::new();
    let mut changed: usize = 0;
    let mut i: usize = 0;
    while i < post.slots.len()
        invariant
            i <= post.slots@.len(),
            original.well_formed(),
            prev_well_formed(prev),
            om == original.slot_map(),
            pm == slots_of(prev),
            f == (|g: SlotGroup| group_entry(g)),
            changed == changed_slots(post.slots@.take(i as int), om, pm),
            changed <= i,
            ({
                let g = slot_groups(post.slots@.take(i as int), om, pm);
                match current {
                    None => g.len() == 0 && finished@.len() == 0 && slots@.len() == 0,
                    Some(a) => g.len() > 0 && g.last() == (SlotGroup {
                        addr: a,
                        slots: json::list_view(slots@),
                    }) && json::list_view(finished@) == g.drop_last().map_values(f),
                }
            }),
        decreases post.slots@.len() - i,
    {
        let row: SlotRow = post.slots[i];
        let before: U256 = pre_slot(original, prev, &row.at);
        let ghost g = slot_groups(post.slots@.take(i as int), om, pm);
        assert(post.slots@.take(i + 1).drop_last() =~= post.slots@.take(i as int));
        if before != row.value {
            let entry = slot_change(row.at.key, before, row.value);
            let ghost said = entry@;
            let same: bool = match current {
                Some(a) => a == row.at.addr,
                None => false,
            };
            if !same {
                if let Some(a) = current {
                    let ghost closed = SlotGroup { addr: a, slots: json::list_view(slots@) };
                    close_group(&mut finished, a, slots);
                    proof {
                        assert(g =~= g.drop_last().push(closed));
                        assert(g.map_values(f) =~= g.drop_last().map_values(f).push(f(closed)));
                    }
                }
                slots = Vec::new();
                current = Some(row.at.addr);
            }
            let ghost held = json::list_view(slots@);
            slots.push(entry);
            changed = changed + 1;
            proof {
                assert(json::list_view(slots@) =~= held.push(said));
                let next = slot_groups(post.slots@.take(i + 1), om, pm);
                if same {
                    assert(next.drop_last() =~= g.drop_last());
                } else {
                    assert(held =~= Seq::empty());
                    assert(held.push(said) =~= seq![said]);
                    assert(next.drop_last() =~= g);
                    if g.len() == 0 {
                        assert(json::list_view(finished@) =~= g.map_values(f));
                    }
                }
            }
        }
        i = i + 1;
    }
    assert(post.slots@.take(i as int) =~= post.slots@);
    let ghost g = slot_groups(post.slots@, om, pm);
    if let Some(a) = current {
        let ghost closed = SlotGroup { addr: a, slots: json::list_view(slots@) };
        close_group(&mut finished, a, slots);
        proof {
            assert(g =~= g.drop_last().push(closed));
            assert(g.map_values(f) =~= g.drop_last().map_values(f).push(f(closed)));
        }
    } else {
        assert(json::list_view(finished@) =~= g.map_values(f));
    }
    (Json::list(finished), changed)
}

// -------------------------------------------------------------------- delta

/// The published delta: the changed accounts, their changed slots, and the
/// codes that came or went.
pub open spec fn delta_view(
    original: Snapshot,
    prev: Option<&Snapshot>,
    post: Snapshot,
    contracts: Seq<ContractCode>,
) -> JsonView {
    let om = original.account_map();
    let pm = accounts_of(prev);
    JsonView::Object(
        seq![
            ("accounts"@, JsonView::List(account_entries(post.accounts@, om, pm))),
            (
                "storage"@,
                JsonView::List(
                    slot_groups(post.slots@, original.slot_map(), slots_of(prev)).map_values(
                        |g: SlotGroup| group_entry(g),
                    ),
                ),
            ),
            (
                "code"@,
                JsonView::List(
                    code_hashes(post.accounts@, om, pm, contracts).map_values(
                        |h: B256| code_entry(contracts, h),
                    ),
                ),
            ),
        ],
    )
}

/// What the delta of these boundaries holds, as counts.
pub open spec fn delta_counts(
    original: Snapshot,
    prev: Option<&Snapshot>,
    post: Snapshot,
    contracts: Seq<ContractCode>,
    s: Stats,
) -> bool {
    let om = original.account_map();
    let pm = accounts_of(prev);
    &&& s.blocks == 0
    &&& s.bytes == 0
    &&& s.accounts == account_entries(post.accounts@, om, pm).len()
    &&& s.slots == changed_slots(post.slots@, original.slot_map(), slots_of(prev))
    &&& s.code == code_hashes(post.accounts@, om, pm, contracts).len()
}

/// Per-field account and slot changes between two boundaries, and how many
/// there are. A field is published only when it moved.
pub fn counted_delta(
    original: &Snapshot,
    prev: Option<&Snapshot>,
    post: &Snapshot,
    aggregate: &Bundle,
) -> (r: (Json, Stats))
    requires
        original.well_formed(),
        prev_well_formed(prev),
        post.well_formed(),
    ensures
        r.0@ == delta_view(*original, prev, *post, aggregate.contracts@),
        delta_counts(*original, prev, *post, aggregate.contracts@, r.1),
{
    let ghost om = original.account_map();
    let ghost pm = accounts_of(prev);
    let ghost contracts = aggregate.contracts@;
    let mut accounts: Vec<Json> = Vec::new();
    let mut hashes: Vec<B256> = Vec::new();
    let mut i: usize = 0;
    while i < post.accounts.len()
        invariant
            i <= post.accounts@.len(),
            original.well_formed(),
            prev_well_formed(prev),
            om == original.account_map(),
            pm == accounts_of(prev),
            contracts == aggregate.contracts@,
            json::list_view(accounts@) == account_entries(post.accounts@.take(i as int), om, pm),
            hashes@ == code_hashes(post.accounts@.take(i as int), om, pm, contracts),
            hashes_ascend(hashes@),
            accounts@.len() <= i,
        decreases post.accounts@.len() - i,
    {
        let row: AccountRow = post.accounts[i];
        let before: Option<AcctFields> = pre_account(original, prev, &row.addr);
        assert(post.accounts@.take(i + 1).drop_last() =~= post.accounts@.take(i as int));
        if before != row.fields {
            let entry = account_change(&row.addr, before, row.fields);
            let ghost said = entry@;
            let b: B256 = fields_or_empty(before).code_hash;
            let a: B256 = fields_or_empty(row.fields).code_hash;
            if b != a {
                want_code(&mut hashes, &aggregate.contracts, b);
                want_code(&mut hashes, &aggregate.contracts, a);
            }
            let ghost listed = accounts@;
            accounts.push(entry);
            assert(json::list_view(accounts@) =~= json::list_view(listed).push(said));
        }
        i = i + 1;
    }
    assert(post.accounts@.take(i as int) =~= post.accounts@);
    proof {
        lemma_code_hashes(post.accounts@, om, pm, contracts);
        assert forall|k: int| 0 <= k < hashes@.len() implies find_code(
            contracts,
            #[trigger] hashes@[k],
        ) is Some by {
            assert(code_hashes(post.accounts@, om, pm, contracts).contains(hashes@[k]));
        }
        assert(json::list_view(accounts@).len() == accounts@.len());
    }
    let (storage, changed) = storage_list(original, prev, post);
    let counts = Stats {
        blocks: 0,
        accounts: accounts.len(),
        slots: changed,
        code: hashes.len(),
        bytes: 0,
    };
    let mut members: Vec<(String, Json)> = Vec::new();
    add_member(&mut members, "accounts", Json::list(accounts));
    add_member(&mut members, "storage", storage);
    add_member(&mut members, "code", code_list(&aggregate.contracts, &hashes));
    assert(json::members_view(members@) =~= delta_view(
        *original,
        prev,
        *post,
        aggregate.contracts@,
    )->Object_0);
    (Json::object(members), counts)
}

/// Per-field account and slot changes between two boundaries; `stats` grows by
/// what the delta holds.
pub fn build_delta(
    original: &Snapshot,
    prev: Option<&Snapshot>,
    post: &Snapshot,
    aggregate: &Bundle,
    stats: &mut Stats,
) -> (r: Json)
    requires
        original.well_formed(),
        prev_well_formed(prev),
        post.well_formed(),
        forall|c: Stats|
            #[trigger] delta_counts(*original, prev, *post, aggregate.contracts@, c)
                ==> old(stats).fits(c),
    ensures
        r@ == delta_view(*original, prev, *post, aggregate.contracts@),
        exists|c: Stats|
            #[trigger] delta_counts(*original, prev, *post, aggregate.contracts@, c) && *final(stats)
                == old(stats).sum(c),
{
    let (delta, counts) = counted_delta(original, prev, post, aggregate);
    stats.grow(&counts);
    delta
}

/// Two lists hold the same code under every hash.
pub open spec fn same_codes(a: Seq<ContractCode>, b: Seq<ContractCode>) -> bool {
    forall|h: B256| #[trigger] find_code(a, h) == find_code(b, h)
}

proof fn lemma_hashes_determined(
    rows: Seq<AccountRow>,
    original: Map<Address, Option<AcctFields>>,
    prev: Option<Map<Address, Option<AcctFields>>>,
    a: Seq<ContractCode>,
    b: Seq<ContractCode>,
)
    requires
        same_codes(a, b),
    ensures
        code_hashes(rows, original, prev, a) == code_hashes(rows, original, prev, b),
    decreases rows.len(),
{
    if rows.len() > 0 {
        lemma_hashes_determined(rows.drop_last(), original, prev, a, b);
        let from = fields_of(account_before(original, prev, rows.last().addr)).code_hash;
        let to = fields_of(rows.last().fields).code_hash;
        assert(find_code(a, from) == find_code(b, from));
        assert(find_code(a, to) == find_code(b, to));
    }
}

/// A delta is decided by what the boundaries say and by which code has which
/// hash, not by the order in which they were recorded: snapshots that say the
/// same, with the same codes, give the same delta, byte by byte.
pub proof fn lemma_delta_determined(
    original_a: Snapshot,
    original_b: Snapshot,
    prev_a: Option<&Snapshot>,
    prev_b: Option<&Snapshot>,
    post_a: Snapshot,
    post_b: Snapshot,
    contracts_a: Seq<ContractCode>,
    contracts_b: Seq<ContractCode>,
)
    requires
        post_a.well_formed(),
        post_b.well_formed(),
        original_a.account_map() == original_b.account_map(),
        original_a.slot_map() == original_b.slot_map(),
        accounts_of(prev_a) == accounts_of(prev_b),
        slots_of(prev_a) == slots_of(prev_b),
        post_a.account_map() == post_b.account_map(),
        post_a.slot_map() == post_b.slot_map(),
        same_codes(contracts_a, contracts_b),
    ensures
        delta_view(original_a, prev_a, post_a, contracts_a) == delta_view(
            original_b,
            prev_b,
            post_b,
            contracts_b,
        ),
        json::printed(
            json::said(delta_view(original_a, prev_a, post_a, contracts_a)),
        ) == json::printed(json::said(delta_view(original_b, prev_b, post_b, contracts_b))),
{
    crate::snapshot::lemma_accounts_determined(post_a.accounts@, post_b.accounts@);
    crate::snapshot::lemma_slots_determined(post_a.slots@, post_b.slots@);
    let om = original_a.account_map();
    let pm = accounts_of(prev_a);
    lemma_hashes_determined(post_a.accounts@, om, pm, contracts_a, contracts_b);
    let hashes = code_hashes(post_a.accounts@, om, pm, contracts_a);
    let codes_a = hashes.map_values(|h: B256| code_entry(contracts_a, h));
    let codes_b = hashes.map_values(|h: B256| code_entry(contracts_b, h));
    assert forall|i: int| 0 <= i < hashes.len() implies #[trigger] codes_a[i] == codes_b[i] by {
        assert(find_code(contracts_a, hashes[i]) == find_code(contracts_b, hashes[i]));
    }
    assert(codes_a =~= codes_b);
}

/// Nothing that stands as before is published: where every account and slot is
/// what it was at the boundary before, the delta is empty.
pub proof fn lemma_unchanged_is_silent(
    original: Snapshot,
    prev: Option<&Snapshot>,
    post: Snapshot,
    contracts: Seq<ContractCode>,
)
    requires
        forall|i: int|
            0 <= i < post.accounts@.len() ==> account_before(
                original.account_map(),
                accounts_of(prev),
                (#[trigger] post.accounts@[i]).addr,
            ) == post.accounts@[i].fields,
        forall|i: int|
            0 <= i < post.slots@.len() ==> slot_before(
                original.slot_map(),
                slots_of(prev),
                (#[trigger] post.slots@[i]).at,
            ) == post.slots@[i].value,
    ensures
        delta_view(original, prev, post, contracts) == JsonView::Object(
            seq![
                ("accounts"@, JsonView::List(Seq::empty())),
                ("storage"@, JsonView::List(Seq::empty())),
                ("code"@, JsonView::List(Seq::empty())),
            ],
        ),
{
    lemma_silent_accounts(post.accounts@, original.account_map(), accounts_of(prev), contracts);
    lemma_silent_slots(post.slots@, original.slot_map(), slots_of(prev));
    let d = delta_view(original, prev, post, contracts)->Object_0;
    assert(slot_groups(post.slots@, original.slot_map(), slots_of(prev)).map_values(
        |g: SlotGroup| group_entry(g),
    ) =~= Seq::empty());
    assert(code_hashes(
        post.accounts@,
        original.account_map(),
        accounts_of(prev),
        contracts,
    ).map_values(|h: B256| code_entry(contracts, h)) =~= Seq::empty());
}

proof fn lemma_silent_accounts(
    rows: Seq<AccountRow>,
    original: Map<Address, Option<AcctFields>>,
    prev: Option<Map<Address, Option<AcctFields>>>,
    contracts: Seq<ContractCode>,
)
    requires
        forall|i: int|
            0 <= i < rows.len() ==> account_before(original, prev, (#[trigger] rows[i]).addr)
                == rows[i].fields,
    ensures
        account_entries(rows, original, prev) == Seq::<JsonView>::empty(),
        code_hashes(rows, original, prev, contracts) == Seq::<B256>::empty(),
    decreases rows.len(),
{
    if rows.len() > 0 {
        let p = rows.drop_last();
        assert forall|i: int| 0 <= i < p.len() implies account_before(
            original,
            prev,
            (#[trigger] p[i]).addr,
        ) == p[i].fields by {
            assert(rows[i].addr == p[i].addr);
        }
        lemma_silent_accounts(p, original, prev, contracts);
        assert(rows[rows.len() - 1] == rows.last());
    }
}

proof fn lemma_silent_slots(
    rows: Seq<SlotRow>,
    original: Map<SlotKey, U256>,
    prev: Option<Map<SlotKey, U256>>,
)
    requires
        forall|i: int|
            0 <= i < rows.len() ==> slot_before(original, prev, (#[trigger] rows[i]).at)
                == rows[i].value,
    ensures
        slot_groups(rows, original, prev) == Seq::<SlotGroup>::empty(),
    decreases rows.len(),
{
    if rows.len() > 0 {
        let p = rows.drop_last();
        assert forall|i: int| 0 <= i < p.len() implies slot_before(
            original,
            prev,
            (#[trigger] p[i]).at,
        ) == p[i].value by {
            assert(rows[i].at == p[i].at);
        }
        lemma_silent_slots(p, original, prev);
        assert(rows[rows.len() - 1] == rows.last());
    }
}

} // verus!
