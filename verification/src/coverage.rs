//! What a walk over a frozen table brings: every row of its range, once, in
//! order, however many parts and transactions it takes.

use vstd::prelude::*;

use crate::history;
use crate::history::Record;
use crate::primitives;
use crate::primitives::B256;
use crate::shard;
use crate::sink;
use crate::sink::{CommandView, OpenFault, SinkView};
use crate::walk;
use crate::walk::{Answer, Cursor, RowView, Table, WalkPhase, WalkStep, WalkView};

verus! {

/// `a` stands before `b` in their table.
pub open spec fn precedes(a: RowView, b: RowView) -> bool {
    ||| a.head().before(b.head())
    ||| {
        &&& a.head() == b.head()
        &&& a.sub() is Some
        &&& b.sub() is Some
        &&& a.sub()->Some_0.before(b.sub()->Some_0)
    }
}

/// The rows of a table, as a database keeps them: in order, none twice.
pub open spec fn frozen(rows: Seq<RowView>, table: Table) -> bool {
    &&& forall|i: int| 0 <= i < rows.len() ==> (#[trigger] rows[i]).table() == table
    &&& forall|i: int, j: int|
        0 <= i < j < rows.len() ==> precedes(#[trigger] rows[i], #[trigger] rows[j])
}

/// How many rows have a head before `k`. In a table that is where `Seek(k)`
/// finds its row.
pub open spec fn lower(rows: Seq<RowView>, k: B256) -> int
    decreases rows.len(),
{
    if rows.len() == 0 {
        0
    } else {
        lower(rows.drop_last(), k) + (if rows.last().head().before(k) {
            1int
        } else {
            0
        })
    }
}

/// `row` stands before the sub-key `s` of the head `a`.
pub open spec fn before_sub(row: RowView, a: B256, s: B256) -> bool {
    ||| row.head().before(a)
    ||| row.head() == a && row.sub() is Some && row.sub()->Some_0.before(s)
}

/// How many rows stand before the sub-key `s` of the head `a`. In a table that
/// is where `SeekSub(a, s)` finds its row, if it has that head.
pub open spec fn lower_sub(rows: Seq<RowView>, a: B256, s: B256) -> int
    decreases rows.len(),
{
    if rows.len() == 0 {
        0
    } else {
        lower_sub(rows.drop_last(), a, s) + (if before_sub(rows.last(), a, s) {
            1int
        } else {
            0
        })
    }
}

proof fn lemma_frozen_prefix(rows: Seq<RowView>, table: Table)
    requires
        frozen(rows, table),
        rows.len() > 0,
    ensures
        frozen(rows.drop_last(), table),
{
    let p = rows.drop_last();
    assert forall|i: int| 0 <= i < p.len() implies (#[trigger] p[i]).table() == table by {
        assert(rows[i].table() == table);
    }
    assert forall|i: int, j: int| 0 <= i < j < p.len() implies precedes(
        #[trigger] p[i],
        #[trigger] p[j],
    ) by {
        assert(precedes(rows[i], rows[j]));
    }
}

/// In a table, the rows before `Seek(k)` are those with a head before `k`.
pub proof fn lemma_lower(rows: Seq<RowView>, table: Table, k: B256)
    requires
        frozen(rows, table),
    ensures
        0 <= lower(rows, k) <= rows.len(),
        forall|i: int|
            0 <= i < rows.len() ==> ((#[trigger] rows[i]).head().before(k) <==> i < lower(rows, k)),
    decreases rows.len(),
{
    if rows.len() > 0 {
        let p = rows.drop_last();
        let n = rows.len() - 1;
        lemma_frozen_prefix(rows, table);
        lemma_lower(p, table, k);
        assert forall|i: int| 0 <= i < rows.len() implies ((#[trigger] rows[i]).head().before(k)
            <==> i < lower(rows, k)) by {
            if i < n {
                assert(p[i] == rows[i]);
                assert(precedes(rows[i], rows[n]));
                if lower(p, k) < n {
                    assert(p[lower(p, k)] == rows[lower(p, k)]);
                    assert(precedes(rows[lower(p, k)], rows[n]));
                }
            } else if lower(p, k) < n {
                assert(p[lower(p, k)] == rows[lower(p, k)]);
                assert(precedes(rows[lower(p, k)], rows[n]));
            }
        }
    }
}

proof fn lemma_lower_sub(rows: Seq<RowView>, table: Table, a: B256, s: B256)
    requires
        frozen(rows, table),
        table == Table::Slots,
    ensures
        0 <= lower_sub(rows, a, s) <= rows.len(),
        forall|i: int|
            0 <= i < rows.len() ==> (before_sub(#[trigger] rows[i], a, s) <==> i < lower_sub(
                rows,
                a,
                s,
            )),
    decreases rows.len(),
{
    if rows.len() > 0 {
        let p = rows.drop_last();
        let n = rows.len() - 1;
        lemma_frozen_prefix(rows, table);
        lemma_lower_sub(p, table, a, s);
        let l = lower_sub(p, a, s);
        assert(rows[n].table() == table);
        assert forall|i: int| 0 <= i < rows.len() implies (before_sub(#[trigger] rows[i], a, s)
            <==> i < lower_sub(rows, a, s)) by {
            assert(rows[i].table() == table);
            if i < n {
                assert(p[i] == rows[i]);
                assert(precedes(rows[i], rows[n]));
            }
            if l < n {
                assert(p[l] == rows[l]);
                assert(rows[l].table() == table);
                assert(precedes(rows[l], rows[n]));
            }
        }
    }
}

/// A new transaction finds the row that was taken in last.
pub proof fn lemma_seek_finds_last(rows: Seq<RowView>, table: Table, p: int)
    requires
        frozen(rows, table),
        0 <= p < rows.len(),
    ensures
        table != Table::Slots ==> lower(rows, rows[p].head()) == p,
        table == Table::Slots ==> lower_sub(rows, rows[p].head(), rows[p].sub()->Some_0) == p,
{
    let h = rows[p].head();
    assert(rows[p].table() == table);
    if table != Table::Slots {
        lemma_lower(rows, table, h);
        let l = lower(rows, h);
        if l < p {
            assert(rows[l].table() == table);
            assert(precedes(rows[l], rows[p]));
        }
    } else {
        let s = rows[p].sub()->Some_0;
        lemma_lower_sub(rows, table, h, s);
        let l = lower_sub(rows, h, s);
        if l < p {
            assert(rows[l].table() == table);
            assert(precedes(rows[l], rows[p]));
        }
    }
}

/// `answer` brings `row`, as the cursor of its table brings it in this phase.
pub open spec fn brings(phase: WalkPhase, answer: Answer, row: RowView) -> bool {
    match phase {
        WalkPhase::ResumeSub(..) => row matches RowView::Slot(s) && answer == Answer::Sub(
            Some((s.key, s.value)),
        ),
        _ => answer matches Answer::Row(r) && walk::row_view(r) == Some(row),
    }
}

/// A walk that is taken up again, in a new transaction or a new run, goes on
/// with the row after the last that was taken in: its first call finds that
/// row, and its second asks for the next.
pub proof fn lemma_reopened(
    w: WalkView,
    rows: Seq<RowView>,
    p: int,
    call: Cursor,
    phase: WalkPhase,
    answer: Answer,
)
    requires
        frozen(rows, w.table),
        0 <= p < rows.len(),
        w.sink.last_key == Some(rows[p].key()),
        w.opening(call, phase),
        brings(phase, answer, rows[p]),
    ensures
        call == (if w.table == Table::Slots {
            Cursor::SeekSub(rows[p].head(), rows[p].sub()->Some_0)
        } else {
            Cursor::Seek(rows[p].head())
        }),
        walk::to_take(phase, answer) is None,
        walk::after_other((WalkView { phase, ..w }), answer) == (
            (WalkView { phase: WalkPhase::Rows, ..w }),
            WalkStep::Call(Cursor::Next),
        ),
{
    let row = rows[p];
    let key = row.key();
    assert(row.table() == w.table);
    if w.table == Table::Slots {
        if let WalkPhase::ResumeSub(a, s) = phase {
            primitives::lemma_b256_order(row.head(), a);
            primitives::lemma_b256_order(row.sub()->Some_0, s);
            assert(key.take(32) =~= row.head().bytes());
            assert(key.skip(32) =~= row.sub()->Some_0.bytes());
        }
    } else {
        if let WalkPhase::ResumeAt(h) = phase {
            primitives::lemma_b256_order(row.head(), h);
        }
    }
}

/// The records of these rows.
pub open spec fn records_of(rows: Seq<RowView>) -> Seq<Record> {
    rows.map_values(|r: RowView| r.record())
}

/// The walk has taken in the `m` rows from `start` on, all of its range, after
/// `earlier` ones.
pub open spec fn on_course(
    w: WalkView,
    rows: Seq<RowView>,
    start: int,
    m: int,
    earlier: Seq<Record>,
    bodies: Seq<Seq<u8>>,
    fragments: Seq<Seq<u8>>,
) -> bool {
    &&& 0 <= start <= start + m <= rows.len()
    &&& 0 <= m
    &&& forall|i: int| start <= i < start + m ==> !walk::past(w.hi, (#[trigger] rows[i]).head())
    &&& history::tells(
        w.sink,
        earlier + records_of(rows.subrange(start, start + m)),
        bodies,
        fragments,
    )
}

/// The next row of the range is taken in; the first that is not of the range
/// ends the walk, and so does the end of the table.
pub proof fn lemma_row_taken(
    w: WalkView,
    rows: Seq<RowView>,
    start: int,
    m: int,
    earlier: Seq<Record>,
    bodies: Seq<Seq<u8>>,
    fragments: Seq<Seq<u8>>,
    row: Option<RowView>,
)
    requires
        frozen(rows, w.table),
        on_course(w, rows, start, m, earlier, bodies, fragments),
        row == (if start + m < rows.len() {
            Some(rows[start + m])
        } else {
            None
        }),
        walk::within(w.hi, row) matches Some(r) ==> walk::row_fits(w.sink, r),
        !w.full(),
    ensures
        walk::within(w.hi, row) is Some ==> {
            &&& on_course(w.after_row(row).0, rows, start, m + 1, earlier, bodies, fragments)
            &&& w.after_row(row).1 != WalkStep::Finish
        },
        walk::within(w.hi, row) is None ==> {
            &&& w.after_row(row).1 == WalkStep::Finish
            &&& w.after_row(row).0.sink == w.sink
            &&& forall|i: int|
                start + m <= i < rows.len() ==> walk::past(w.hi, (#[trigger] rows[i]).head())
        },
{
    if let Some(r) = walk::within(w.hi, row) {
        let old_records = earlier + records_of(rows.subrange(start, start + m));
        let new_records = earlier + records_of(rows.subrange(start, start + m + 1));
        history::lemma_push_tells(w.sink, old_records, bodies, fragments, r.record());
        assert(new_records =~= old_records.push(r.record()));
    } else {
        assert forall|i: int| start + m <= i < rows.len() implies walk::past(
            w.hi,
            (#[trigger] rows[i]).head(),
        ) by {
            if i > start + m {
                assert(precedes(rows[start + m], rows[i]));
            }
        }
    }
}

/// When a walk that began with the range ends, it has taken in the rows of the
/// range, all of them and no other.
pub proof fn lemma_walk_covers(
    w: WalkView,
    rows: Seq<RowView>,
    start: int,
    m: int,
    earlier: Seq<Record>,
    bodies: Seq<Seq<u8>>,
    fragments: Seq<Seq<u8>>,
)
    requires
        frozen(rows, w.table),
        on_course(w, rows, start, m, earlier, bodies, fragments),
        start == lower(rows, w.lo),
        forall|i: int|
            start + m <= i < rows.len() ==> walk::past(w.hi, (#[trigger] rows[i]).head()),
    ensures
        forall|i: int|
            0 <= i < rows.len() ==> (start <= i < start + m <==> !(
            #[trigger] rows[i]).head().before(w.lo) && !walk::past(w.hi, rows[i].head())),
{
    lemma_lower(rows, w.table, w.lo);
}

/// A walk over shard `i` of `n` takes in the rows whose heads lie in that
/// shard: its bounds, as bytes, are the shard's.
pub proof fn lemma_shard_range(lo: B256, hi: Option<B256>, i: int, n: u32, key: B256)
    requires
        n > 0,
        0 <= i < n,
        lo.bytes() == shard::bound_bytes(shard::shard_low(i, n)),
        match hi {
            None => i + 1 == n,
            Some(h) => i + 1 < n && h.bytes() == shard::bound_bytes(shard::shard_low(i + 1, n)),
        },
    ensures
        !key.before(lo) && !walk::past(hi, key) <==> shard::in_shard(key, i, n),
{
    shard::lemma_shard_bounds_exact(i, n, key);
    primitives::lemma_b256_order(key, lo);
    if let Some(h) = hi {
        shard::lemma_shard_bounds_exact(i + 1, n, key);
        primitives::lemma_b256_order(key, h);
    }
}

/// The shards one after the other are the table: of two rows, the one that
/// stands first in the table lies in no later shard.
pub proof fn lemma_shards_keep_order(
    rows: Seq<RowView>,
    table: Table,
    n: u32,
    j: int,
    k: int,
    a: int,
    b: int,
)
    requires
        frozen(rows, table),
        n > 0,
        0 <= j < k < rows.len(),
        0 <= a < n,
        0 <= b < n,
        shard::in_shard(rows[j].head(), a, n),
        shard::in_shard(rows[k].head(), b, n),
    ensures
        a <= b,
{
    assert(precedes(rows[j], rows[k]));
    if b < a {
        shard::lemma_shards_ascend(rows[k].head(), b, rows[j].head(), a, n);
    }
}

/// The row at `at`, if the table reaches that far.
pub open spec fn row_at(rows: Seq<RowView>, at: int) -> Option<RowView> {
    if 0 <= at < rows.len() {
        Some(rows[at])
    } else {
        None
    }
}

/// What a transaction comes to that is given the rows from `at` on, one after
/// the other.
pub open spec fn transacted(w: WalkView, rows: Seq<RowView>, at: int) -> (WalkView, WalkStep)
    decreases rows.len() - at,
{
    let (t, step) = w.after_row(row_at(rows, at));
    if step is Call && 0 <= at < rows.len() {
        transacted(t, rows, at + 1)
    } else {
        (t, step)
    }
}

/// `b` is `a` but for the parts that are pending.
pub open spec fn same_fill(a: SinkView, b: SinkView) -> bool {
    (SinkView { pending: Seq::empty(), ..a }) == (SinkView { pending: Seq::empty(), ..b })
}

proof fn lemma_same_fill(w: WalkView, v: WalkView, rows: Seq<RowView>, at: int)
    requires
        w.hi == v.hi,
        same_fill(w.sink, v.sink),
    ensures
        transacted(w, rows, at).1 == transacted(v, rows, at).1,
        same_fill(transacted(w, rows, at).0.sink, transacted(v, rows, at).0.sink),
    decreases rows.len() - at,
{
    let (a, step) = w.after_row(row_at(rows, at));
    let (b, other) = v.after_row(row_at(rows, at));
    assert(step == other);
    assert(same_fill(a.sink, b.sink));
    if step is Call && 0 <= at < rows.len() {
        lemma_same_fill(a, b, rows, at + 1);
    }
}

/// A part that is sent again is the part that was sent before. Of a table that
/// does not change, a run that is taken up from a marker fills its next part as
/// the run that wrote the marker did: it starts with the same call, takes in
/// the same rows, ends in the same way, and has the same bytes to store under
/// the same key, with the same index and the same marker, byte by byte.
pub proof fn lemma_part_sent_again(
    w: WalkView,
    v: WalkView,
    block: u64,
    marker_bytes: Seq<u8>,
    rows: Seq<RowView>,
    at: int,
)
    requires
        w.sink.buf.len() == 0,
        w.sink.idx_frag.len() == 0,
        w.sink.sizes.len() == w.sink.part,
        w.sink.last_key != Some(Seq::<u8>::empty()),
        sink::says_progress(marker_bytes, block, w.sink.progress(false)),
        sink::opened(
            Some(marker_bytes),
            w.sink.name,
            w.sink.part_bytes,
            w.sink.index_every,
            block,
        ) == Ok::<(SinkView, bool), OpenFault>((v.sink, false)),
        v.table == w.table,
        v.lo == w.lo,
        v.hi == w.hi,
    ensures
        forall|c: Cursor, p: WalkPhase, d: Cursor, q: WalkPhase|
            #![trigger w.opening(c, p), v.opening(d, q)]
            w.opening(c, p) && v.opening(d, q) ==> c == d && p == q,
        transacted(v, rows, at).1 == transacted(w, rows, at).1,
        transacted(v, rows, at).0.sink.name == w.sink.name,
        transacted(v, rows, at).0.sink.part == transacted(w, rows, at).0.sink.part,
        transacted(v, rows, at).0.sink.buf == transacted(w, rows, at).0.sink.buf,
        transacted(v, rows, at).0.sink.idx_frag == transacted(w, rows, at).0.sink.idx_frag,
        transacted(v, rows, at).0.sink.progress(false) == transacted(w, rows, at).0.sink.progress(
            false,
        ),
        forall|ca: Seq<CommandView>, ta: SinkView, cb: Seq<CommandView>, tb: SinkView|
            #![trigger
                sink::shipped(transacted(w, rows, at).0.sink, block, ca, ta),
                sink::shipped(transacted(v, rows, at).0.sink, block, cb, tb)]
            {
                &&& transacted(w, rows, at).0.sink.buf.len() > 0
                &&& transacted(w, rows, at).0.sink.part < u32::MAX
                &&& sink::shipped(transacted(w, rows, at).0.sink, block, ca, ta)
                &&& sink::shipped(transacted(v, rows, at).0.sink, block, cb, tb)
            } ==> ca[0] == cb[0] && ta.pending == tb.pending,
{
    history::lemma_marker_opens(
        w.sink.progress(false),
        block,
        marker_bytes,
        w.sink.name,
        w.sink.part_bytes,
        w.sink.index_every,
    );
    assert(v.sink.buf =~= w.sink.buf);
    assert(v.sink.idx_frag =~= w.sink.idx_frag);
    assert(same_fill(w.sink, v.sink));
    lemma_same_fill(w, v, rows, at);
    lemma_named(w, rows, at);
    let a = transacted(w, rows, at).0.sink;
    let b = transacted(v, rows, at).0.sink;
    assert forall|ca: Seq<CommandView>, ta: SinkView, cb: Seq<CommandView>, tb: SinkView|
        #![trigger sink::shipped(a, block, ca, ta), sink::shipped(b, block, cb, tb)]
        {
            &&& a.buf.len() > 0
            &&& a.part < u32::MAX
            &&& sink::shipped(a, block, ca, ta)
            &&& sink::shipped(b, block, cb, tb)
        } implies ca[0] == cb[0] && ta.pending == tb.pending by {
        history::lemma_shipped_keeps(a, block, ca, ta);
        history::lemma_shipped_keeps(b, block, cb, tb);
        assert(ta.progress(false) =~= tb.progress(false));
    }
    assert forall|c: Cursor, p: WalkPhase, d: Cursor, q: WalkPhase|
        #![trigger w.opening(c, p), v.opening(d, q)]
        w.opening(c, p) && v.opening(d, q) implies c == d && p == q by {
        match (p, q) {
            (WalkPhase::ResumeSub(a, s), WalkPhase::ResumeSub(b, t)) => {
                primitives::lemma_b256_order(a, b);
                primitives::lemma_b256_order(s, t);
            },
            (WalkPhase::ResumeAt(a), WalkPhase::ResumeAt(b)) => {
                primitives::lemma_b256_order(a, b);
            },
            _ => {},
        }
    }
}

proof fn lemma_named(w: WalkView, rows: Seq<RowView>, at: int)
    ensures
        transacted(w, rows, at).0.sink.name == w.sink.name,
    decreases rows.len() - at,
{
    let (t, step) = w.after_row(row_at(rows, at));
    if step is Call && 0 <= at < rows.len() {
        lemma_named(t, rows, at + 1);
    }
}

} // verus!
