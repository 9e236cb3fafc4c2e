//! The walk over one table: which cursor call comes next, which rows become
//! records, when a part is done and when the table is.
//!
//! Every part is read in a transaction of its own, which goes back to the last
//! key that was taken in. The same makes an export that was interrupted go on.

use vstd::prelude::*;

use crate::hash;
use crate::hash::keccak256;
use crate::history::Record;
use crate::primitives;
use crate::primitives::{append_be, B256, U256};
use crate::sink::{Sink, SinkView};

verus! {

// ------------------------------------------------------------------ records

/// The tables that are exported.
#[derive(Clone, Copy, Debug, PartialEq, Eq, Structural)]
pub enum Table {
    Accounts,
    Slots,
    Codes,
}

/// An account, under the hash of its address.
#[derive(Clone, Copy, Debug, PartialEq, Eq, Structural)]
pub struct HashedAccount {
    pub hashed: B256,
    pub nonce: u64,
    pub balance: U256,
    pub bytecode_hash: Option<B256>,
}

/// A storage slot, under the hashes of its address and its key.
#[derive(Clone, Copy, Debug, PartialEq, Eq, Structural)]
pub struct HashedSlot {
    pub hashed_addr: B256,
    pub key: B256,
    pub value: U256,
}

/// A row of a table.
#[derive(Debug)]
pub enum Row {
    Account(HashedAccount),
    Slot(HashedSlot),
    Code { hash: B256, bytes: Vec<u8> },
}

/// A row of a table.
pub enum RowView {
    Account(HashedAccount),
    Slot(HashedSlot),
    Code { hash: B256, bytes: Seq<u8> },
}

impl View for Row {
    type V = RowView;

    open spec fn view(&self) -> RowView {
        match *self {
            Row::Account(a) => RowView::Account(a),
            Row::Slot(s) => RowView::Slot(s),
            Row::Code { hash, bytes } => RowView::Code { hash, bytes: bytes@ },
        }
    }
}

impl RowView {
    /// The key under which the row stands in its table.
    pub open spec fn head(self) -> B256 {
        match self {
            RowView::Account(a) => a.hashed,
            RowView::Slot(s) => s.hashed_addr,
            RowView::Code { hash, .. } => hash,
        }
    }

    /// The key of the row among those with the same head.
    pub open spec fn sub(self) -> Option<B256> {
        match self {
            RowView::Slot(s) => Some(s.key),
            _ => None,
        }
    }

    /// The table that the row is of.
    pub open spec fn table(self) -> Table {
        match self {
            RowView::Account(_) => Table::Accounts,
            RowView::Slot(_) => Table::Slots,
            RowView::Code { .. } => Table::Codes,
        }
    }

    /// The key of the row's record.
    pub open spec fn key(self) -> Seq<u8> {
        match self.sub() {
            Some(k) => self.head().bytes() + k.bytes(),
            None => self.head().bytes(),
        }
    }

    /// The row's record.
    pub open spec fn bytes(self) -> Seq<u8> {
        match self {
            RowView::Account(a) => a.hashed.bytes() + primitives::be_bytes(a.nonce as nat, 8)
                + a.balance.bytes() + (match a.bytecode_hash {
                Some(h) => h.bytes(),
                None => primitives::be_bytes(0, 32),
            }),
            RowView::Slot(s) => s.hashed_addr.bytes() + s.key.bytes() + s.value.bytes(),
            RowView::Code { hash, bytes } => hash.bytes() + primitives::be_bytes(
                (bytes.len() as u32) as nat,
                4,
            ) + bytes,
        }
    }

    /// The row's record with its key.
    pub open spec fn record(self) -> Record {
        Record { bytes: self.bytes(), key: self.key() }
    }

    /// A code stands under its own hash. Other rows are taken as they are.
    pub open spec fn sound(self) -> bool {
        match self {
            RowView::Code { hash, bytes } => hash.bytes() == hash::keccak256_of(bytes),
            _ => true,
        }
    }
}

/// Records of accounts are 104 bytes long under keys of 32, those of slots 96
/// under keys of 64, those of codes 36 more than the code, under keys of 32.
pub proof fn lemma_record_len(row: RowView)
    ensures
        row.bytes().len() == (match row {
            RowView::Account(_) => 104,
            RowView::Slot(_) => 96,
            RowView::Code { bytes, .. } => 36 + bytes.len(),
        }),
        row.key().len() == (match row {
            RowView::Slot(_) => 64int,
            _ => 32,
        }),
{
    match row {
        RowView::Account(a) => {
            primitives::lemma_b256_order(a.hashed, a.hashed);
            primitives::lemma_be_bytes_len(a.nonce as nat, 8);
            primitives::lemma_be_bytes_len(a.balance.hi as nat, 16);
            primitives::lemma_be_bytes_len(a.balance.lo as nat, 16);
            primitives::lemma_be_bytes_len(0, 32);
            if let Some(h) = a.bytecode_hash {
                primitives::lemma_b256_order(h, h);
            }
        },
        RowView::Slot(s) => {
            primitives::lemma_b256_order(s.hashed_addr, s.key);
            primitives::lemma_b256_order(s.key, s.key);
            primitives::lemma_be_bytes_len(s.value.hi as nat, 16);
            primitives::lemma_be_bytes_len(s.value.lo as nat, 16);
        },
        RowView::Code { hash, bytes } => {
            primitives::lemma_b256_order(hash, hash);
            primitives::lemma_be_bytes_len((bytes.len() as u32) as nat, 4);
        },
    }
}

impl Row {
    /// The row's record.
    pub fn record_bytes(&self) -> (r: Vec<u8>)
        ensures
            r@ == self@.bytes(),
    {
        let mut rec: Vec<u8> = Vec::new();
        match self {
            Row::Account(a) => {
                a.hashed.append_to(&mut rec);
                append_be(&mut rec, a.nonce as u128, 8);
                a.balance.append_to(&mut rec);
                match a.bytecode_hash {
                    Some(h) => {
                        h.append_to(&mut rec);
                    },
                    None => {
                        let none = B256 { hi: 0, lo: 0 };
                        none.append_to(&mut rec);
                        proof {
                            lemma_zero_word();
                        }
                    },
                }
            },
            Row::Slot(s) => {
                s.hashed_addr.append_to(&mut rec);
                s.key.append_to(&mut rec);
                s.value.append_to(&mut rec);
            },
            Row::Code { hash, bytes } => {
                hash.append_to(&mut rec);
                let len: u32 = #[verifier::truncate] (bytes.len() as u32);
                append_be(&mut rec, len as u128, 4);
                rec.extend_from_slice(bytes.as_slice());
            },
        }
        assert(rec@ =~= self@.bytes());
        rec
    }

    /// The key of the row's record.
    pub fn record_key(&self) -> (r: Vec<u8>)
        ensures
            r@ == self@.key(),
    {
        let mut key: Vec<u8> = Vec::new();
        match self {
            Row::Account(a) => {
                a.hashed.append_to(&mut key);
            },
            Row::Slot(s) => {
                s.hashed_addr.append_to(&mut key);
                s.key.append_to(&mut key);
            },
            Row::Code { hash, .. } => {
                hash.append_to(&mut key);
            },
        }
        assert(key@ =~= self@.key());
        key
    }

    /// The key under which the row stands in its table.
    pub fn head(&self) -> (r: B256)
        ensures
            r == self@.head(),
    {
        match self {
            Row::Account(a) => a.hashed,
            Row::Slot(s) => s.hashed_addr,
            Row::Code { hash, .. } => *hash,
        }
    }
}

proof fn lemma_zero_bytes(n: nat)
    ensures
        be_zero(n),
    decreases n,
{
    if n > 0 {
        lemma_zero_bytes((n - 1) as nat);
        assert(primitives::be_bytes(0, n) =~= Seq::new(n, |i: int| 0u8));
    } else {
        assert(primitives::be_bytes(0, n) =~= Seq::new(n, |i: int| 0u8));
    }
}

spec fn be_zero(n: nat) -> bool {
    primitives::be_bytes(0, n) == Seq::new(n, |i: int| 0u8)
}

proof fn lemma_zero_word()
    ensures
        (B256 { hi: 0, lo: 0 }).bytes() == primitives::be_bytes(0, 32),
{
    lemma_zero_bytes(16);
    lemma_zero_bytes(32);
    assert((B256 { hi: 0, lo: 0 }).bytes() =~= primitives::be_bytes(0, 32));
}

// ------------------------------------------------------------------ machine

/// A call of the table's cursor.
#[derive(Clone, Copy, Debug, PartialEq, Eq, Structural)]
pub enum Cursor {
    /// The first row.
    First,
    /// The first row whose head is not before this one.
    Seek(B256),
    /// Of the rows with this head, the first whose sub-key is not before this.
    SeekSub(B256, B256),
    /// The row that follows.
    Next,
    /// The first row that follows with another head.
    NextNoDup,
}

/// What the answer of the cursor is for.
#[derive(Clone, Copy, Debug, PartialEq, Eq, Structural)]
pub enum WalkPhase {
    /// No transaction is open.
    Closed,
    /// To find the last head that was taken in.
    ResumeAt(B256),
    /// To find the last head and sub-key that were taken in.
    ResumeSub(B256, B256),
    /// To pass over this head.
    Skip,
    /// To be taken in.
    Rows,
}

/// The answer of the cursor.
#[derive(Debug)]
pub enum Answer {
    /// A row, or the end of the table.
    Row(Option<Row>),
    /// A sub-key with its value, or none that `SeekSub` asked for.
    Sub(Option<(B256, U256)>),
}

/// What is to be done next.
#[derive(Clone, Copy, Debug, PartialEq, Eq, Structural)]
pub enum WalkStep {
    /// Call the cursor and hand the answer back.
    Call(Cursor),
    /// Close the transaction, ship the part, and open again.
    PartDone,
    /// Close the transaction and finish the table.
    Finish,
}

/// A code whose bytes do not hash to the key it stands under.
#[derive(Clone, Copy, Debug, PartialEq, Eq, Structural)]
pub struct Corrupt {
    pub hash: B256,
    pub got: B256,
}

/// The walk over a table, or over one shard of it: the heads from `lo` up to,
/// not including, `hi`.
#[derive(Debug)]
pub struct Walk {
    pub table: Table,
    pub lo: B256,
    pub hi: Option<B256>,
    pub phase: WalkPhase,
    pub sink: Sink,
}

/// The walk over a table.
pub struct WalkView {
    pub table: Table,
    pub lo: B256,
    pub hi: Option<B256>,
    pub phase: WalkPhase,
    pub sink: SinkView,
}

impl View for Walk {
    type V = WalkView;

    open spec fn view(&self) -> WalkView {
        WalkView {
            table: self.table,
            lo: self.lo,
            hi: self.hi,
            phase: self.phase,
            sink: self.sink@,
        }
    }
}

/// `key` can be gone back to in this table.
pub open spec fn resumable(table: Table, key: Option<Seq<u8>>) -> bool {
    match key {
        None => true,
        Some(k) => k.len() == (if table == Table::Slots {
            64int
        } else {
            32
        }),
    }
}

/// `head` lies at or behind the end of the range.
pub open spec fn past(hi: Option<B256>, head: B256) -> bool {
    hi matches Some(h) && !head.before(h)
}

/// The row that is taken in, if `row` is one and lies in the range.
pub open spec fn within(hi: Option<B256>, row: Option<RowView>) -> Option<RowView> {
    match row {
        Some(r) => if past(hi, r.head()) {
            None
        } else {
            Some(r)
        },
        None => None,
    }
}

/// There is room in the sink for `row`.
pub open spec fn row_fits(s: SinkView, row: RowView) -> bool {
    &&& s.index_every > 0
    &&& s.count < u64::MAX
    &&& s.global_off + row.bytes().len() <= u64::MAX
}

impl WalkView {
    /// The call that a new transaction starts with, and what its answer is
    /// for, when `key` was the last to be taken in.
    pub open spec fn opening(self, call: Cursor, phase: WalkPhase) -> bool {
        match self.sink.last_key {
            None => {
                &&& phase == WalkPhase::Rows
                &&& call == (if self.table == Table::Codes {
                    Cursor::First
                } else {
                    Cursor::Seek(self.lo)
                })
            },
            Some(k) => if self.table == Table::Slots {
                &&& phase matches WalkPhase::ResumeSub(a, s)
                &&& call == Cursor::SeekSub(a, s)
                &&& a.bytes() == k.take(32)
                &&& s.bytes() == k.skip(32)
            } else {
                &&& phase matches WalkPhase::ResumeAt(h)
                &&& call == Cursor::Seek(h)
                &&& h.bytes() == k
            },
        }
    }

    /// The part being filled is to be shipped.
    pub open spec fn full(self) -> bool {
        self.sink.buf.len() >= self.sink.part_bytes
    }

    /// The walk when the rows that this transaction gives are taken in.
    pub open spec fn ended(self) -> (WalkView, WalkStep) {
        (
            WalkView { phase: WalkPhase::Closed, ..self },
            if self.full() {
                WalkStep::PartDone
            } else {
                WalkStep::Finish
            },
        )
    }

    /// The walk after `row` was taken in.
    pub open spec fn taken(self, row: RowView) -> WalkView {
        WalkView { sink: self.sink.pushed(row.bytes(), row.key()), ..self }
    }

    /// The walk after a row, or the end of the table, that is to be taken in.
    pub open spec fn after_row(self, row: Option<RowView>) -> (WalkView, WalkStep) {
        match row {
            None => self.ended(),
            Some(r) => if past(self.hi, r.head()) {
                self.ended()
            } else {
                let t = self.taken(r);
                if t.full() {
                    (WalkView { phase: WalkPhase::Closed, ..t }, WalkStep::PartDone)
                } else {
                    (WalkView { phase: WalkPhase::Rows, ..t }, WalkStep::Call(Cursor::Next))
                }
            },
        }
    }
}

/// The row that an answer brings, where it is one to be taken in, in this
/// phase.
pub open spec fn to_take(phase: WalkPhase, answer: Answer) -> Option<Option<RowView>> {
    match (phase, answer) {
        (WalkPhase::Rows, Answer::Row(r)) => Some(row_view(r)),
        (WalkPhase::ResumeAt(h), Answer::Row(r)) => match row_view(r) {
            Some(row) => if row.head() == h {
                None
            } else {
                Some(Some(row))
            },
            None => Some(None),
        },
        (WalkPhase::ResumeSub(a, s), Answer::Sub(Some((key, value)))) => if key == s {
            None
        } else {
            Some(Some(RowView::Slot(HashedSlot { hashed_addr: a, key, value })))
        },
        _ => None,
    }
}

/// A row, if there is one.
pub open spec fn row_view(r: Option<Row>) -> Option<RowView> {
    match r {
        Some(row) => Some(row@),
        None => None,
    }
}

/// The answer can come in this phase.
pub open spec fn answers(phase: WalkPhase, answer: Answer) -> bool {
    match phase {
        WalkPhase::Closed => false,
        WalkPhase::ResumeSub(..) => answer is Sub,
        _ => answer is Row,
    }
}

/// The walk after an answer that brings no row to be taken in: the last row
/// that was taken in is passed over.
pub open spec fn after_other(w: WalkView, answer: Answer) -> (WalkView, WalkStep) {
    match (w.phase, answer) {
        (WalkPhase::ResumeSub(a, _), Answer::Sub(None)) => (
            WalkView { phase: WalkPhase::Skip, ..w },
            WalkStep::Call(Cursor::Seek(a)),
        ),
        (WalkPhase::Skip, _) => (
            WalkView { phase: WalkPhase::Rows, ..w },
            WalkStep::Call(Cursor::NextNoDup),
        ),
        _ => (WalkView { phase: WalkPhase::Rows, ..w }, WalkStep::Call(Cursor::Next)),
    }
}

impl Walk {
    /// A walk that has not begun.
    pub fn new(table: Table, lo: B256, hi: Option<B256>, sink: Sink) -> (r: Self)
        ensures
            r@ == (WalkView { table, lo, hi, phase: WalkPhase::Closed, sink: sink@ }),
            r.sink == sink,
    {
        Walk { table, lo, hi, phase: WalkPhase::Closed, sink }
    }

    /// A transaction was opened: the call that it starts with.
    pub fn open(&mut self) -> (call: Cursor)
        requires
            resumable(old(self).table, old(self)@.sink.last_key),
        ensures
            old(self)@.opening(call, final(self).phase),
            final(self)@ == (WalkView { phase: final(self).phase, ..old(self)@ }),
            final(self).sink == old(self).sink,
    {
        match &self.sink.last_key {
            None => {
                self.phase = WalkPhase::Rows;
                if self.table == Table::Codes {
                    Cursor::First
                } else {
                    Cursor::Seek(self.lo)
                }
            },
            Some(k) => {
                if self.table == Table::Slots {
                    let a = B256::from_slice(vstd::slice::slice_subrange(k.as_slice(), 0, 32));
                    let s = B256::from_slice(vstd::slice::slice_subrange(k.as_slice(), 32, 64));
                    assert(k@.subrange(0, 32) =~= k@.take(32));
                    assert(k@.subrange(32, 64) =~= k@.skip(32));
                    self.phase = WalkPhase::ResumeSub(a, s);
                    Cursor::SeekSub(a, s)
                } else {
                    let h = B256::from_slice(k.as_slice());
                    self.phase = WalkPhase::ResumeAt(h);
                    Cursor::Seek(h)
                }
            },
        }
    }

    fn end(&mut self) -> (r: WalkStep)
        ensures
            (final(self)@, r) == old(self)@.ended(),
    {
        self.phase = WalkPhase::Closed;
        if self.sink.part_full() {
            WalkStep::PartDone
        } else {
            WalkStep::Finish
        }
    }

    /// Takes a row in.
    fn take(&mut self, row: Option<Row>) -> (r: Result<WalkStep, Corrupt>)
        requires
            within(old(self).hi, row_view(row)) matches Some(w) ==> row_fits(old(self)@.sink, w),
        ensures
            match r {
                Ok(step) => {
                    &&& (final(self)@, step) == old(self)@.after_row(row_view(row))
                    &&& within(old(self).hi, row_view(row)) matches Some(w) ==> w.sound()
                },
                Err(e) => {
                    &&& within(old(self).hi, row_view(row)) matches Some(w) && corrupt(w, e)
                    &&& final(self)@ == old(self)@
                },
            },
    {
        let row = match row {
            Some(row) => row,
            None => {
                return Ok(self.end());
            },
        };
        let head = row.head();
        if let Some(h) = self.hi {
            if !head.is_before(&h) {
                return Ok(self.end());
            }
        }
        if let Row::Code { hash, bytes } = &row {
            let got = keccak256(bytes.as_slice());
            proof {
                primitives::lemma_b256_order(got, *hash);
            }
            if got != *hash {
                return Err(Corrupt { hash: *hash, got });
            }
        }
        let rec = row.record_bytes();
        let key = row.record_key();
        let ghost before = self@;
        self.sink.push(rec.as_slice(), key.as_slice());
        assert(self@ == before.taken(row@));
        if self.sink.part_full() {
            self.phase = WalkPhase::Closed;
            Ok(WalkStep::PartDone)
        } else {
            self.phase = WalkPhase::Rows;
            Ok(WalkStep::Call(Cursor::Next))
        }
    }

    /// The cursor has answered: what is to be done next. A code that does not
    /// hash to its key is refused.
    pub fn on(&mut self, answer: Answer) -> (r: Result<WalkStep, Corrupt>)
        requires
            answers(old(self).phase, answer),
            to_take(old(self).phase, answer) matches Some(row) ==> (within(
                old(self).hi,
                row,
            ) matches Some(w) ==> row_fits(old(self)@.sink, w)),
        ensures
            match (r, to_take(old(self).phase, answer)) {
                (Ok(step), Some(row)) => {
                    &&& (final(self)@, step) == old(self)@.after_row(row)
                    &&& within(old(self).hi, row) matches Some(w) ==> w.sound()
                },
                (Ok(step), None) => (final(self)@, step) == after_other(old(self)@, answer),
                (Err(e), Some(row)) => {
                    &&& within(old(self).hi, row) matches Some(w) && corrupt(w, e)
                    &&& final(self)@ == old(self)@
                },
                (Err(_), None) => false,
            },
    {
        match answer {
            Answer::Row(row) => {
                match self.phase {
                    WalkPhase::Skip => {
                        self.phase = WalkPhase::Rows;
                        Ok(WalkStep::Call(Cursor::NextNoDup))
                    },
                    WalkPhase::ResumeAt(h) => {
                        let same: bool = match &row {
                            Some(found) => found.head() == h,
                            None => false,
                        };
                        if same {
                            self.phase = WalkPhase::Rows;
                            Ok(WalkStep::Call(Cursor::Next))
                        } else {
                            self.take(row)
                        }
                    },
                    _ => self.take(row),
                }
            },
            Answer::Sub(found) => {
                if let WalkPhase::ResumeSub(a, s) = self.phase {
                    match found {
                        Some((key, value)) => {
                            if key == s {
                                self.phase = WalkPhase::Rows;
                                Ok(WalkStep::Call(Cursor::Next))
                            } else {
                                let slot = HashedSlot { hashed_addr: a, key, value };
                                self.take(Some(Row::Slot(slot)))
                            }
                        },
                        None => {
                            self.phase = WalkPhase::Skip;
                            Ok(WalkStep::Call(Cursor::Seek(a)))
                        },
                    }
                } else {
                    Ok(WalkStep::Finish)
                }
            },
        }
    }
}

/// `row` is a code that does not hash to its key, as `e` says.
pub open spec fn corrupt(row: RowView, e: Corrupt) -> bool {
    match row {
        RowView::Code { hash, bytes } => {
            &&& e.hash == hash
            &&& e.got.bytes() == hash::keccak256_of(bytes)
            &&& hash.bytes() != hash::keccak256_of(bytes)
        },
        _ => false,
    }
}

} // verus!
