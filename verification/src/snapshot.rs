//! The accounts and storage slots that a range of blocks touched, as they
//! stand at one block boundary.

use crate::primitives::{Address, B256, U256};
use vstd::prelude::*;

verus! {

/// The fields of an account that exists.
#[derive(Clone, Copy, Debug, PartialEq, Eq, Structural)]
pub struct AcctFields {
    /// Balance.
    pub balance: U256,
    /// Nonce.
    pub nonce: u64,
    /// Hash of the account's code.
    pub code_hash: B256,
}

/// One touched account: `None` where it does not exist at this boundary.
#[derive(Clone, Copy, Debug)]
pub struct AccountRow {
    /// The account's address.
    pub addr: Address,
    /// Its fields.
    pub fields: Option<AcctFields>,
}

/// A storage slot: which account, which key.
#[derive(Clone, Copy, Debug, PartialEq, Eq, Structural)]
pub struct SlotKey {
    /// The account.
    pub addr: Address,
    /// The key in its storage.
    pub key: U256,
}

impl SlotKey {
    /// Order by account, then by key.
    pub open spec fn before(self, other: Self) -> bool {
        self.addr.before(other.addr) || (self.addr == other.addr && self.key.before(other.key))
    }

    /// Whether `self` stands before `other`.
    pub fn is_before(&self, other: &Self) -> (r: bool)
        ensures
            r == self.before(*other),
    {
        self.addr.is_before(&other.addr) || (self.addr == other.addr && self.key.is_before(
            &other.key,
        ))
    }
}

/// One touched storage slot.
#[derive(Clone, Copy, Debug)]
pub struct SlotRow {
    /// Which slot.
    pub at: SlotKey,
    /// Its value.
    pub value: U256,
}

/// No address occurs twice, and each stands before those after it.
pub open spec fn accounts_ascend(rows: Seq<AccountRow>) -> bool {
    forall|i: int, j: int| 0 <= i < j < rows.len() ==> #[trigger] rows[i].addr.before(
        #[trigger] rows[j].addr,
    )
}

/// No slot occurs twice, and each stands before those after it.
pub open spec fn slots_ascend(rows: Seq<SlotRow>) -> bool {
    forall|i: int, j: int| 0 <= i < j < rows.len() ==> #[trigger] rows[i].at.before(
        #[trigger] rows[j].at,
    )
}

/// The rows hold the account `a`.
pub open spec fn has_account(rows: Seq<AccountRow>, a: Address) -> bool {
    exists|i: int| 0 <= i < rows.len() && #[trigger] rows[i].addr == a
}

/// The rows hold the slot `k`.
pub open spec fn has_slot(rows: Seq<SlotRow>, k: SlotKey) -> bool {
    exists|i: int| 0 <= i < rows.len() && #[trigger] rows[i].at == k
}

/// What the rows say of each account that they hold.
pub open spec fn account_map(rows: Seq<AccountRow>) -> Map<Address, Option<AcctFields>> {
    Map::new(
        |a: Address| has_account(rows, a),
        |a: Address| rows[choose|i: int| 0 <= i < rows.len() && #[trigger] rows[i].addr == a].fields,
    )
}

/// What the rows say of each slot that they hold.
pub open spec fn slot_map(rows: Seq<SlotRow>) -> Map<SlotKey, U256> {
    Map::new(
        |k: SlotKey| has_slot(rows, k),
        |k: SlotKey| rows[choose|i: int| 0 <= i < rows.len() && #[trigger] rows[i].at == k].value,
    )
}

/// What rows in ascending order say of the account at index `i`.
pub proof fn lemma_account_at(rows: Seq<AccountRow>, i: int)
    requires
        accounts_ascend(rows),
        0 <= i < rows.len(),
    ensures
        account_map(rows).dom().contains(rows[i].addr),
        account_map(rows)[rows[i].addr] == rows[i].fields,
{
    let a = rows[i].addr;
    let c = choose|k: int| 0 <= k < rows.len() && #[trigger] rows[k].addr == a;
    assert(rows[i].addr == a);
    if c < i {
        assert(rows[c].addr.before(rows[i].addr));
    } else if i < c {
        assert(rows[i].addr.before(rows[c].addr));
    }
}

/// What rows in ascending order say of the slot at index `i`.
pub proof fn lemma_slot_at(rows: Seq<SlotRow>, i: int)
    requires
        slots_ascend(rows),
        0 <= i < rows.len(),
    ensures
        slot_map(rows).dom().contains(rows[i].at),
        slot_map(rows)[rows[i].at] == rows[i].value,
{
    let a = rows[i].at;
    let c = choose|k: int| 0 <= k < rows.len() && #[trigger] rows[k].at == a;
    assert(rows[i].at == a);
    if c < i {
        assert(rows[c].at.before(rows[i].at));
    } else if i < c {
        assert(rows[i].at.before(rows[c].at));
    }
}

proof fn lemma_account_insert(rows: Seq<AccountRow>, at: int, row: AccountRow)
    requires
        accounts_ascend(rows),
        0 <= at <= rows.len(),
        forall|k: int| 0 <= k < at ==> (#[trigger] rows[k]).addr.before(row.addr),
        forall|k: int| at <= k < rows.len() ==> row.addr.before((#[trigger] rows[k]).addr),
    ensures
        accounts_ascend(rows.insert(at, row)),
        account_map(rows.insert(at, row)) == account_map(rows).insert(row.addr, row.fields),
{
    let next = rows.insert(at, row);
    assert(accounts_ascend(next)) by {
        assert forall|i: int, j: int| 0 <= i < j < next.len() implies #[trigger] next[i].addr.before(
            #[trigger] next[j].addr,
        ) by {
            let pi = if i < at { i } else { i - 1 };
            let pj = if j < at { j } else { j - 1 };
            if i != at && j != at {
                assert(rows[pi].addr.before(rows[pj].addr));
            } else if i == at {
                assert(row.addr.before(rows[pj].addr));
            } else {
                assert(rows[pi].addr.before(row.addr));
            }
        }
    }
    let m = account_map(rows).insert(row.addr, row.fields);
    assert forall|a: Address| account_map(next).dom().contains(a) == m.dom().contains(a) by {
        if account_map(rows).dom().contains(a) {
            let k = choose|k: int| 0 <= k < rows.len() && #[trigger] rows[k].addr == a;
            let nk = if k < at { k } else { k + 1 };
            assert(next[nk].addr == a);
        }
        if a == row.addr {
            assert(next[at].addr == a);
        }
        if account_map(next).dom().contains(a) && a != row.addr {
            let k = choose|k: int| 0 <= k < next.len() && #[trigger] next[k].addr == a;
            let pk = if k < at { k } else { k - 1 };
            assert(rows[pk].addr == a);
        }
    }
    assert forall|a: Address| #[trigger] account_map(next).dom().contains(a) implies account_map(
        next,
    )[a] == m[a] by {
        let k = choose|k: int| 0 <= k < next.len() && #[trigger] next[k].addr == a;
        lemma_account_at(next, k);
        if a != row.addr {
            let pk = if k < at { k } else { k - 1 };
            assert(rows[pk].addr == a);
            lemma_account_at(rows, pk);
        } else {
            assert(next[at].addr == a);
            lemma_account_at(next, at);
        }
    }
    assert(account_map(next) =~= m);
}

proof fn lemma_account_update(rows: Seq<AccountRow>, at: int, fields: Option<AcctFields>)
    requires
        accounts_ascend(rows),
        0 <= at < rows.len(),
    ensures
        ({
            let next = rows.update(at, AccountRow { addr: rows[at].addr, fields });
            &&& accounts_ascend(next)
            &&& account_map(next) == account_map(rows).insert(rows[at].addr, fields)
        }),
{
    let next = rows.update(at, AccountRow { addr: rows[at].addr, fields });
    assert forall|i: int, j: int| 0 <= i < j < next.len() implies #[trigger] next[i].addr.before(
        #[trigger] next[j].addr,
    ) by {
        assert(rows[i].addr.before(rows[j].addr));
    }
    let m = account_map(rows).insert(rows[at].addr, fields);
    assert forall|a: Address| account_map(next).dom().contains(a) == m.dom().contains(a) by {
        if account_map(rows).dom().contains(a) {
            let k = choose|k: int| 0 <= k < rows.len() && #[trigger] rows[k].addr == a;
            assert(next[k].addr == a);
        }
        assert(next[at].addr == rows[at].addr);
        if account_map(next).dom().contains(a) {
            let k = choose|k: int| 0 <= k < next.len() && #[trigger] next[k].addr == a;
            assert(rows[k].addr == a);
        }
    }
    assert forall|a: Address| #[trigger] account_map(next).dom().contains(a) implies account_map(
        next,
    )[a] == m[a] by {
        let k = choose|k: int| 0 <= k < next.len() && #[trigger] next[k].addr == a;
        lemma_account_at(next, k);
        lemma_account_at(rows, k);
        if k != at {
            if a == rows[at].addr {
                if k < at {
                    assert(rows[k].addr.before(rows[at].addr));
                } else {
                    assert(rows[at].addr.before(rows[k].addr));
                }
            }
        }
    }
    assert(account_map(next) =~= m);
}

proof fn lemma_slot_insert(rows: Seq<SlotRow>, at: int, row: SlotRow)
    requires
        slots_ascend(rows),
        0 <= at <= rows.len(),
        forall|k: int| 0 <= k < at ==> (#[trigger] rows[k]).at.before(row.at),
        forall|k: int| at <= k < rows.len() ==> row.at.before((#[trigger] rows[k]).at),
    ensures
        slots_ascend(rows.insert(at, row)),
        slot_map(rows.insert(at, row)) == slot_map(rows).insert(row.at, row.value),
{
    let next = rows.insert(at, row);
    assert(slots_ascend(next)) by {
        assert forall|i: int, j: int| 0 <= i < j < next.len() implies #[trigger] next[i].at.before(
            #[trigger] next[j].at,
        ) by {
            let pi = if i < at { i } else { i - 1 };
            let pj = if j < at { j } else { j - 1 };
            if i != at && j != at {
                assert(rows[pi].at.before(rows[pj].at));
            } else if i == at {
                assert(row.at.before(rows[pj].at));
            } else {
                assert(rows[pi].at.before(row.at));
            }
        }
    }
    let m = slot_map(rows).insert(row.at, row.value);
    assert forall|a: SlotKey| slot_map(next).dom().contains(a) == m.dom().contains(a) by {
        if slot_map(rows).dom().contains(a) {
            let k = choose|k: int| 0 <= k < rows.len() && #[trigger] rows[k].at == a;
            let nk = if k < at { k } else { k + 1 };
            assert(next[nk].at == a);
        }
        if a == row.at {
            assert(next[at].at == a);
        }
        if slot_map(next).dom().contains(a) && a != row.at {
            let k = choose|k: int| 0 <= k < next.len() && #[trigger] next[k].at == a;
            let pk = if k < at { k } else { k - 1 };
            assert(rows[pk].at == a);
        }
    }
    assert forall|a: SlotKey| #[trigger] slot_map(next).dom().contains(a) implies slot_map(next)[a]
        == m[a] by {
        let k = choose|k: int| 0 <= k < next.len() && #[trigger] next[k].at == a;
        lemma_slot_at(next, k);
        if a != row.at {
            let pk = if k < at { k } else { k - 1 };
            assert(rows[pk].at == a);
            lemma_slot_at(rows, pk);
        } else {
            assert(next[at].at == a);
            lemma_slot_at(next, at);
        }
    }
    assert(slot_map(next) =~= m);
}

proof fn lemma_slot_update(rows: Seq<SlotRow>, at: int, value: U256)
    requires
        slots_ascend(rows),
        0 <= at < rows.len(),
    ensures
        ({
            let next = rows.update(at, SlotRow { at: rows[at].at, value });
            &&& slots_ascend(next)
            &&& slot_map(next) == slot_map(rows).insert(rows[at].at, value)
        }),
{
    let next = rows.update(at, SlotRow { at: rows[at].at, value });
    assert forall|i: int, j: int| 0 <= i < j < next.len() implies #[trigger] next[i].at.before(
        #[trigger] next[j].at,
    ) by {
        assert(rows[i].at.before(rows[j].at));
    }
    let m = slot_map(rows).insert(rows[at].at, value);
    assert forall|a: SlotKey| slot_map(next).dom().contains(a) == m.dom().contains(a) by {
        if slot_map(rows).dom().contains(a) {
            let k = choose|k: int| 0 <= k < rows.len() && #[trigger] rows[k].at == a;
            assert(next[k].at == a);
        }
        assert(next[at].at == rows[at].at);
        if slot_map(next).dom().contains(a) {
            let k = choose|k: int| 0 <= k < next.len() && #[trigger] next[k].at == a;
            assert(rows[k].at == a);
        }
    }
    assert forall|a: SlotKey| #[trigger] slot_map(next).dom().contains(a) implies slot_map(next)[a]
        == m[a] by {
        let k = choose|k: int| 0 <= k < next.len() && #[trigger] next[k].at == a;
        lemma_slot_at(next, k);
        lemma_slot_at(rows, k);
        if k != at {
            if a == rows[at].at {
                if k < at {
                    assert(rows[k].at.before(rows[at].at));
                } else {
                    assert(rows[at].at.before(rows[k].at));
                }
            }
        }
    }
    assert(slot_map(next) =~= m);
}

/// Rows in ascending order are determined by what they say: two such lists
/// that say the same of the same accounts are the same list.
pub proof fn lemma_accounts_determined(a: Seq<AccountRow>, b: Seq<AccountRow>)
    requires
        accounts_ascend(a),
        accounts_ascend(b),
        account_map(a) == account_map(b),
    ensures
        a == b,
    decreases a.len(),
{
    if a.len() == 0 {
        if b.len() > 0 {
            lemma_account_at(b, 0);
            assert(account_map(a).dom().contains(b[0].addr));
            assert(false);
        }
        assert(a =~= b);
    } else if b.len() == 0 {
        lemma_account_at(a, 0);
        assert(account_map(b).dom().contains(a[0].addr));
        assert(false);
    } else {
        let la = a.last();
        let lb = b.last();
        lemma_account_at(a, a.len() - 1);
        lemma_account_at(b, b.len() - 1);
        assert(account_map(b).dom().contains(la.addr));
        assert(account_map(a).dom().contains(lb.addr));
        let ka = choose|k: int| 0 <= k < b.len() && #[trigger] b[k].addr == la.addr;
        let kb = choose|k: int| 0 <= k < a.len() && #[trigger] a[k].addr == lb.addr;
        if ka < b.len() - 1 {
            assert(b[ka].addr.before(b[b.len() - 1].addr));
        }
        if kb < a.len() - 1 {
            assert(a[kb].addr.before(a[a.len() - 1].addr));
        }
        assert(la.addr == lb.addr);
        let pa = a.drop_last();
        let pb = b.drop_last();
        assert(accounts_ascend(pa)) by {
            assert forall|i: int, j: int| 0 <= i < j < pa.len() implies #[trigger] pa[i].addr.before(
                #[trigger] pa[j].addr,
            ) by {
                assert(a[i].addr.before(a[j].addr));
            }
        }
        assert(accounts_ascend(pb)) by {
            assert forall|i: int, j: int| 0 <= i < j < pb.len() implies #[trigger] pb[i].addr.before(
                #[trigger] pb[j].addr,
            ) by {
                assert(b[i].addr.before(b[j].addr));
            }
        }
        lemma_account_drop(a);
        lemma_account_drop(b);
        lemma_accounts_determined(pa, pb);
        assert(a =~= pa.push(la));
        assert(b =~= pb.push(lb));
    }
}

proof fn lemma_account_drop(a: Seq<AccountRow>)
    requires
        accounts_ascend(a),
        a.len() > 0,
    ensures
        account_map(a.drop_last()) == account_map(a).remove(a.last().addr),
{
    let p = a.drop_last();
    let m = account_map(a).remove(a.last().addr);
    assert(accounts_ascend(p)) by {
        assert forall|i: int, j: int| 0 <= i < j < p.len() implies #[trigger] p[i].addr.before(
            #[trigger] p[j].addr,
        ) by {
            assert(a[i].addr.before(a[j].addr));
        }
    }
    assert forall|x: Address| account_map(p).dom().contains(x) == m.dom().contains(x) by {
        if account_map(p).dom().contains(x) {
            let k = choose|k: int| 0 <= k < p.len() && #[trigger] p[k].addr == x;
            assert(a[k].addr == x);
            assert(a[k].addr.before(a[a.len() - 1].addr));
        }
        if m.dom().contains(x) {
            let k = choose|k: int| 0 <= k < a.len() && #[trigger] a[k].addr == x;
            assert(k != a.len() - 1);
            assert(p[k].addr == x);
        }
    }
    assert forall|x: Address| #[trigger] account_map(p).dom().contains(x) implies account_map(p)[x]
        == m[x] by {
        let k = choose|k: int| 0 <= k < p.len() && #[trigger] p[k].addr == x;
        lemma_account_at(p, k);
        lemma_account_at(a, k);
        assert(a[k].addr.before(a[a.len() - 1].addr));
    }
    assert(account_map(p) =~= m);
}

/// Slot rows in ascending order are determined by what they say.
pub proof fn lemma_slots_determined(a: Seq<SlotRow>, b: Seq<SlotRow>)
    requires
        slots_ascend(a),
        slots_ascend(b),
        slot_map(a) == slot_map(b),
    ensures
        a == b,
    decreases a.len(),
{
    if a.len() == 0 {
        if b.len() > 0 {
            lemma_slot_at(b, 0);
            assert(slot_map(a).dom().contains(b[0].at));
            assert(false);
        }
        assert(a =~= b);
    } else if b.len() == 0 {
        lemma_slot_at(a, 0);
        assert(slot_map(b).dom().contains(a[0].at));
        assert(false);
    } else {
        let la = a.last();
        let lb = b.last();
        lemma_slot_at(a, a.len() - 1);
        lemma_slot_at(b, b.len() - 1);
        assert(slot_map(b).dom().contains(la.at));
        assert(slot_map(a).dom().contains(lb.at));
        let ka = choose|k: int| 0 <= k < b.len() && #[trigger] b[k].at == la.at;
        let kb = choose|k: int| 0 <= k < a.len() && #[trigger] a[k].at == lb.at;
        if ka < b.len() - 1 {
            assert(b[ka].at.before(b[b.len() - 1].at));
        }
        if kb < a.len() - 1 {
            assert(a[kb].at.before(a[a.len() - 1].at));
        }
        assert(la.at == lb.at);
        lemma_slot_drop(a);
        lemma_slot_drop(b);
        lemma_slots_determined(a.drop_last(), b.drop_last());
        assert(a =~= a.drop_last().push(la));
        assert(b =~= b.drop_last().push(lb));
    }
}

proof fn lemma_slot_drop(a: Seq<SlotRow>)
    requires
        slots_ascend(a),
        a.len() > 0,
    ensures
        slots_ascend(a.drop_last()),
        slot_map(a.drop_last()) == slot_map(a).remove(a.last().at),
{
    let p = a.drop_last();
    let m = slot_map(a).remove(a.last().at);
    assert(slots_ascend(p)) by {
        assert forall|i: int, j: int| 0 <= i < j < p.len() implies #[trigger] p[i].at.before(
            #[trigger] p[j].at,
        ) by {
            assert(a[i].at.before(a[j].at));
        }
    }
    assert forall|x: SlotKey| slot_map(p).dom().contains(x) == m.dom().contains(x) by {
        if slot_map(p).dom().contains(x) {
            let k = choose|k: int| 0 <= k < p.len() && #[trigger] p[k].at == x;
            assert(a[k].at == x);
            assert(a[k].at.before(a[a.len() - 1].at));
        }
        if m.dom().contains(x) {
            let k = choose|k: int| 0 <= k < a.len() && #[trigger] a[k].at == x;
            assert(k != a.len() - 1);
            assert(p[k].at == x);
        }
    }
    assert forall|x: SlotKey| #[trigger] slot_map(p).dom().contains(x) implies slot_map(p)[x] == m[x] by {
        let k = choose|k: int| 0 <= k < p.len() && #[trigger] p[k].at == x;
        lemma_slot_at(p, k);
        lemma_slot_at(a, k);
        assert(a[k].at.before(a[a.len() - 1].at));
    }
    assert(slot_map(p) =~= m);
}

/// A block boundary's view of the accounts and slots that a chain touched.
#[derive(Debug)]
pub struct Snapshot {
    /// The touched accounts, in ascending order of their addresses.
    pub accounts: Vec<AccountRow>,
    /// The touched slots, in ascending order of account and key.
    pub slots: Vec<SlotRow>,
}

impl Snapshot {
    /// Both lists are in strictly ascending order.
    pub open spec fn well_formed(self) -> bool {
        accounts_ascend(self.accounts@) && slots_ascend(self.slots@)
    }

    /// What is known of each touched account.
    pub open spec fn account_map(self) -> Map<Address, Option<AcctFields>> {
        account_map(self.accounts@)
    }

    /// What is known of each touched slot.
    pub open spec fn slot_map(self) -> Map<SlotKey, U256> {
        slot_map(self.slots@)
    }

    /// A snapshot in which nothing was touched.
    pub fn new() -> (r: Self)
        ensures
            r.well_formed(),
            r.account_map() == Map::<Address, Option<AcctFields>>::empty(),
            r.slot_map() == Map::<SlotKey, U256>::empty(),
    {
        let r = Snapshot { accounts: Vec::new(), slots: Vec::new() };
        proof {
            assert(account_map(r.accounts@) =~= Map::<Address, Option<AcctFields>>::empty());
            assert(slot_map(r.slots@) =~= Map::<SlotKey, U256>::empty());
        }
        r
    }

    /// Where the account stands, or where it belongs.
    fn locate_account(&self, addr: &Address) -> (r: (bool, usize))
        requires
            self.well_formed(),
        ensures
            r.1 <= self.accounts@.len(),
            r.0 ==> r.1 < self.accounts@.len() && self.accounts@[r.1 as int].addr == *addr,
            !r.0 ==> forall|k: int|
                0 <= k < r.1 ==> (#[trigger] self.accounts@[k]).addr.before(*addr),
            !r.0 ==> forall|k: int|
                r.1 <= k < self.accounts@.len() ==> addr.before(
                    (#[trigger] self.accounts@[k]).addr,
                ),
    {
        let mut lo: usize = 0;
        let mut hi: usize = self.accounts.len();
        while lo < hi
            invariant
                lo <= hi <= self.accounts@.len(),
                self.well_formed(),
                forall|k: int| 0 <= k < lo ==> (#[trigger] self.accounts@[k]).addr.before(*addr),
                forall|k: int|
                    hi <= k < self.accounts@.len() ==> addr.before(
                        (#[trigger] self.accounts@[k]).addr,
                    ),
            decreases hi - lo,
        {
            let mid: usize = lo + (hi - lo) / 2;
            let at: Address = self.accounts[mid].addr;
            if at == *addr {
                return (true, mid);
            }
            if at.is_before(addr) {
                assert forall|k: int| 0 <= k < mid + 1 implies (
                #[trigger] self.accounts@[k]).addr.before(*addr) by {
                    if k < mid {
                        assert(self.accounts@[k].addr.before(self.accounts@[mid as int].addr));
                    }
                }
                lo = mid + 1;
            } else {
                assert forall|k: int| mid <= k < self.accounts@.len() implies addr.before(
                    (#[trigger] self.accounts@[k]).addr,
                ) by {
                    if k > mid {
                        assert(self.accounts@[mid as int].addr.before(self.accounts@[k].addr));
                    }
                }
                hi = mid;
            }
        }
        (false, lo)
    }

    /// Where the slot stands, or where it belongs.
    fn locate_slot(&self, at: &SlotKey) -> (r: (bool, usize))
        requires
            self.well_formed(),
        ensures
            r.1 <= self.slots@.len(),
            r.0 ==> r.1 < self.slots@.len() && self.slots@[r.1 as int].at == *at,
            !r.0 ==> forall|k: int| 0 <= k < r.1 ==> (#[trigger] self.slots@[k]).at.before(*at),
            !r.0 ==> forall|k: int|
                r.1 <= k < self.slots@.len() ==> at.before((#[trigger] self.slots@[k]).at),
    {
        let mut lo: usize = 0;
        let mut hi: usize = self.slots.len();
        while lo < hi
            invariant
                lo <= hi <= self.slots@.len(),
                self.well_formed(),
                forall|k: int| 0 <= k < lo ==> (#[trigger] self.slots@[k]).at.before(*at),
                forall|k: int|
                    hi <= k < self.slots@.len() ==> at.before((#[trigger] self.slots@[k]).at),
            decreases hi - lo,
        {
            let mid: usize = lo + (hi - lo) / 2;
            let here: SlotKey = self.slots[mid].at;
            if here == *at {
                return (true, mid);
            }
            if here.is_before(at) {
                assert forall|k: int| 0 <= k < mid + 1 implies (
                #[trigger] self.slots@[k]).at.before(*at) by {
                    if k < mid {
                        assert(self.slots@[k].at.before(self.slots@[mid as int].at));
                    }
                }
                lo = mid + 1;
            } else {
                assert forall|k: int| mid <= k < self.slots@.len() implies at.before(
                    (#[trigger] self.slots@[k]).at,
                ) by {
                    if k > mid {
                        assert(self.slots@[mid as int].at.before(self.slots@[k].at));
                    }
                }
                hi = mid;
            }
        }
        (false, lo)
    }

    /// Records an account, in place of what was recorded of it before.
    pub fn set_account(&mut self, addr: Address, fields: Option<AcctFields>)
        requires
            old(self).well_formed(),
        ensures
            final(self).well_formed(),
            final(self).account_map() == old(self).account_map().insert(addr, fields),
            final(self).slots@ == old(self).slots@,
    {
        let (found, at) = self.locate_account(&addr);
        let ghost rows = self.accounts@;
        let row = AccountRow { addr, fields };
        if found {
            proof {
                lemma_account_update(rows, at as int, fields);
            }
            self.accounts[at] = row;
        } else {
            proof {
                lemma_account_insert(rows, at as int, row);
            }
            self.accounts.insert(at, row);
        }
    }

    /// Records a slot, in place of what was recorded of it before.
    pub fn set_slot(&mut self, at: SlotKey, value: U256)
        requires
            old(self).well_formed(),
        ensures
            final(self).well_formed(),
            final(self).slot_map() == old(self).slot_map().insert(at, value),
            final(self).accounts@ == old(self).accounts@,
    {
        let (found, index) = self.locate_slot(&at);
        let ghost rows = self.slots@;
        let row = SlotRow { at, value };
        if found {
            proof {
                lemma_slot_update(rows, index as int, value);
            }
            self.slots[index] = row;
        } else {
            proof {
                lemma_slot_insert(rows, index as int, row);
            }
            self.slots.insert(index, row);
        }
    }

    /// What is recorded of an account: `None` where it was not touched.
    pub fn account(&self, addr: &Address) -> (r: Option<Option<AcctFields>>)
        requires
            self.well_formed(),
        ensures
            r is Some <==> self.account_map().dom().contains(*addr),
            r matches Some(fields) ==> self.account_map()[*addr] == fields,
    {
        let (found, at) = self.locate_account(addr);
        if found {
            proof {
                lemma_account_at(self.accounts@, at as int);
            }
            Some(self.accounts[at].fields)
        } else {
            None
        }
    }

    /// The value recorded of a slot: `None` where it was not touched.
    pub fn slot(&self, at: &SlotKey) -> (r: Option<U256>)
        requires
            self.well_formed(),
        ensures
            r is Some <==> self.slot_map().dom().contains(*at),
            r matches Some(v) ==> self.slot_map()[*at] == v,
    {
        let (found, index) = self.locate_slot(at);
        if found {
            proof {
                lemma_slot_at(self.slots@, index as int);
            }
            Some(self.slots[index].value)
        } else {
            None
        }
    }
}

} // verus!
