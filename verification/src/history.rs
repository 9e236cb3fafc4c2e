//! What holds of a sink over its whole life: the parts are one stream of
//! records, the fragments are its index, and a marker is stored only when
//! every part it counts is.

use vstd::prelude::*;

use crate::marker;
use crate::marker::ProgressView;
use crate::primitives;
use crate::sink;
use crate::sink::{CommandView, OpenFault, PendingView, SinkView};

verus! {

// ------------------------------------------------------------------- stream

/// A record with its key.
pub struct Record {
    pub bytes: Seq<u8>,
    pub key: Seq<u8>,
}

/// The bytes of all records, one after the other.
pub open spec fn stream(records: Seq<Record>) -> Seq<u8>
    decreases records.len(),
{
    if records.len() == 0 {
        Seq::empty()
    } else {
        stream(records.drop_last()) + records.last().bytes
    }
}

/// The index of the records: for every so manieth its key and the offset at
/// which it stands in the stream.
pub open spec fn index(records: Seq<Record>, every: u64) -> Seq<u8>
    decreases records.len(),
{
    if records.len() == 0 {
        Seq::empty()
    } else {
        let earlier = records.drop_last();
        if earlier.len() % (every as nat) == 0 {
            index(earlier, every) + records.last().key + primitives::be_bytes(
                stream(earlier).len(),
                8,
            )
        } else {
            index(earlier, every)
        }
    }
}

/// Byte strings one after the other.
pub open spec fn concat(pieces: Seq<Seq<u8>>) -> Seq<u8>
    decreases pieces.len(),
{
    if pieces.len() == 0 {
        Seq::empty()
    } else {
        concat(pieces.drop_last()) + pieces.last()
    }
}

/// `s` has taken in `records` and has shipped `bodies` with `fragments`.
pub open spec fn tells(
    s: SinkView,
    records: Seq<Record>,
    bodies: Seq<Seq<u8>>,
    fragments: Seq<Seq<u8>>,
) -> bool {
    &&& concat(bodies) + s.buf == stream(records)
    &&& concat(fragments) + s.idx_frag == index(records, s.index_every)
    &&& s.count == records.len()
    &&& s.global_off == stream(records).len()
    &&& s.last_key == (if records.len() == 0 {
        None
    } else {
        Some(records.last().key)
    })
    &&& s.part == bodies.len()
    &&& s.part == fragments.len()
    &&& s.sizes.len() == s.part
    &&& forall|i: int| 0 <= i < bodies.len() ==> #[trigger] s.sizes[i] == bodies[i].len()
}

/// A sink that starts afresh has taken in nothing.
pub proof fn lemma_fresh_tells(name: Seq<char>, part_bytes: usize, index_every: u64)
    ensures
        tells(
            sink::resumed(name, part_bytes, index_every, sink::no_progress()),
            Seq::empty(),
            Seq::empty(),
            Seq::empty(),
        ),
{
    let s = sink::resumed(name, part_bytes, index_every, sink::no_progress());
    assert(concat(Seq::<Seq<u8>>::empty()) + s.buf =~= stream(Seq::<Record>::empty()));
    assert(concat(Seq::<Seq<u8>>::empty()) + s.idx_frag =~= index(
        Seq::<Record>::empty(),
        index_every,
    ));
}

/// A record that is pushed joins the end of the stream, and the index when its
/// turn has come.
pub proof fn lemma_push_tells(
    s: SinkView,
    records: Seq<Record>,
    bodies: Seq<Seq<u8>>,
    fragments: Seq<Seq<u8>>,
    r: Record,
)
    requires
        tells(s, records, bodies, fragments),
        s.index_every > 0,
        s.count < u64::MAX,
        s.global_off + r.bytes.len() <= u64::MAX,
    ensures
        tells(s.pushed(r.bytes, r.key), records.push(r), bodies, fragments),
{
    let all = records.push(r);
    let t = s.pushed(r.bytes, r.key);
    assert(all.drop_last() =~= records);
    assert(concat(bodies) + t.buf =~= stream(all));
    let entry = r.key + primitives::be_bytes(s.global_off as nat, 8);
    if s.count % s.index_every == 0 {
        assert(concat(fragments) + t.idx_frag =~= (concat(fragments) + s.idx_frag) + r.key
            + primitives::be_bytes(s.global_off as nat, 8));
    }
    assert(concat(fragments) + t.idx_frag =~= index(all, s.index_every));
}

/// A part that is shipped leaves the stream and the index as they are: what
/// was in the buffer is now the last body, and its size is on record.
pub proof fn lemma_ship_tells(
    s: SinkView,
    records: Seq<Record>,
    bodies: Seq<Seq<u8>>,
    fragments: Seq<Seq<u8>>,
    block: u64,
    commands: Seq<CommandView>,
    t: SinkView,
)
    requires
        tells(s, records, bodies, fragments),
        sink::shipped(s, block, commands, t),
        s.buf.len() > 0,
        s.part < u32::MAX,
    ensures
        tells(t, records, bodies.push(s.buf), fragments.push(s.idx_frag)),
        t.buf.len() == 0,
        t.idx_frag.len() == 0,
        commands.len() > 0,
        commands[0] == (CommandView::Start {
            key: sink::numbered(s.name, bodies.len() as u32),
            body: s.buf,
        }),
{
    let m = choose|m: Seq<u8>|
        {
            &&& #[trigger] sink::says_progress(m, block, s.cut(m).progress(false))
            &&& commands == seq![
                CommandView::Start { key: sink::numbered(s.name, s.part), body: s.buf },
            ] + s.cut(m).reaping(1)
            &&& t == s.cut(m).reaped(1)
        };
    sink::lemma_reaped(s.cut(m), 1);
    let b = bodies.push(s.buf);
    let f = fragments.push(s.idx_frag);
    assert(b.drop_last() =~= bodies);
    assert(f.drop_last() =~= fragments);
    assert(concat(bodies).len() <= stream(records).len());
    assert(s.buf.len() <= s.global_off);
    assert(concat(b) + t.buf =~= stream(records));
    assert(concat(f) + t.idx_frag =~= index(records, t.index_every));
}

/// A sink that is opened on a marker goes on with the very progress that the
/// marker was written for.
pub proof fn lemma_marker_opens(
    p: ProgressView,
    block: u64,
    marker_bytes: Seq<u8>,
    name: Seq<char>,
    part_bytes: usize,
    index_every: u64,
)
    requires
        p.sizes.len() == p.part,
        p.last_key != Some(Seq::<u8>::empty()),
        sink::says_progress(marker_bytes, block, p),
    ensures
        sink::opened(Some(marker_bytes), name, part_bytes, index_every, block) == Ok::<
            (SinkView, bool),
            OpenFault,
        >((sink::resumed(name, part_bytes, index_every, p), p.done)),
{
    marker::lemma_marker_round_trip(block, p);
}

/// An export that is taken up again from the marker of a shipped part goes on
/// exactly where that part ended.
pub proof fn lemma_resume_tells(
    s: SinkView,
    records: Seq<Record>,
    bodies: Seq<Seq<u8>>,
    fragments: Seq<Seq<u8>>,
    block: u64,
    marker_bytes: Seq<u8>,
    done: bool,
)
    requires
        tells(s, records, bodies, fragments),
        s.buf.len() == 0,
        s.idx_frag.len() == 0,
        s.last_key != Some(Seq::<u8>::empty()),
        sink::says_progress(marker_bytes, block, s.progress(done)),
    ensures
        sink::opened(Some(marker_bytes), s.name, s.part_bytes, s.index_every, block) == Ok::<
            (SinkView, bool),
            OpenFault,
        >(((SinkView { pending: Seq::empty(), ..s }), done)),
        tells((SinkView { pending: Seq::empty(), ..s }), records, bodies, fragments),
{
    lemma_marker_opens(
        s.progress(done),
        block,
        marker_bytes,
        s.name,
        s.part_bytes,
        s.index_every,
    );
    let r = sink::resumed(s.name, s.part_bytes, s.index_every, s.progress(done));
    assert(r.buf =~= s.buf);
    assert(r.idx_frag =~= s.idx_frag);
    assert(r =~= SinkView { pending: Seq::empty(), ..s });
}

proof fn lemma_reaped_to_one(s: SinkView)
    requires
        s.pending.len() > 0,
    ensures
        s.reaped(1).pending == seq![s.pending.last()],
    decreases s.pending.len(),
{
    if s.pending.len() > 1 {
        lemma_reaped_to_one(s.without_oldest());
        assert(s.without_oldest().pending.last() == s.pending.last());
    } else {
        assert(s.pending =~= seq![s.pending.last()]);
    }
}

/// A part that is shipped leaves one part pending, its own, whose marker opens a
/// sink that goes on where the part ended.
pub proof fn lemma_shipped_marker_opens(
    s: SinkView,
    block: u64,
    commands: Seq<CommandView>,
    t: SinkView,
)
    requires
        sink::shipped(s, block, commands, t),
        s.buf.len() > 0,
        s.part < u32::MAX,
        s.sizes.len() == s.part,
        s.last_key != Some(Seq::<u8>::empty()),
    ensures
        t.buf.len() == 0,
        t.idx_frag.len() == 0,
        t.pending.len() == 1,
        sink::says_progress(t.pending[0].marker, block, t.progress(false)),
        sink::opened(Some(t.pending[0].marker), t.name, t.part_bytes, t.index_every, block) == Ok::<
            (SinkView, bool),
            OpenFault,
        >(((SinkView { pending: Seq::empty(), ..t }), false)),
{
    let m = choose|m: Seq<u8>|
        {
            &&& #[trigger] sink::says_progress(m, block, s.cut(m).progress(false))
            &&& commands == seq![
                CommandView::Start { key: sink::numbered(s.name, s.part), body: s.buf },
            ] + s.cut(m).reaping(1)
            &&& t == s.cut(m).reaped(1)
        };
    sink::lemma_reaped(s.cut(m), 1);
    lemma_reaped_to_one(s.cut(m));
    assert(t.pending[0].marker == m);
    assert(t.progress(false) == s.cut(m).progress(false));
    lemma_marker_opens(t.progress(false), block, m, t.name, t.part_bytes, t.index_every);
    assert(sink::resumed(t.name, t.part_bytes, t.index_every, t.progress(false)) =~= SinkView {
        pending: Seq::empty(),
        ..t
    });
}

/// A table that was marked as complete is found complete: the last that is
/// stored for it is its marker, and a sink that is opened on that has the parts,
/// the counts, the last key and the sizes of the sink that stored it, with
/// nothing buffered and nothing pending.
pub proof fn lemma_finished_marker_opens(
    s: SinkView,
    block: u64,
    commands: Seq<CommandView>,
    t: SinkView,
)
    requires
        sink::finished_with(s, block, commands, t),
        s.buf.len() > 0 ==> s.part < u32::MAX,
        s.sizes.len() == s.part,
        s.last_key != Some(Seq::<u8>::empty()),
    ensures
        t.buf.len() == 0,
        t.pending.len() == 0,
        commands.len() > 0,
        commands.last() is Put,
        commands.last()->Put_key == sink::progress_key_of(s.name),
        sink::opened(
            Some(commands.last()->Put_body),
            s.name,
            s.part_bytes,
            s.index_every,
            block,
        ) == Ok::<(SinkView, bool), OpenFault>(
            ((SinkView { buf: Seq::empty(), idx_frag: Seq::empty(), pending: Seq::empty(), ..t }),
            true),
        ),
{
    let (first, mid, second) = choose|
        first: Seq<CommandView>,
        mid: SinkView,
        second: Seq<CommandView>,
    |
        {
            &&& #[trigger] sink::shipped(s, block, first, mid)
            &&& #[trigger] sink::closed_with(mid, block, second, t)
            &&& commands == first + second
        };
    if s.buf.len() > 0 {
        lemma_shipped_marker_opens(s, block, first, mid);
        lemma_shipped_keeps(s, block, first, mid);
    }
    let d = choose|d: Seq<u8>|
        {
            &&& #[trigger] sink::says_progress(d, block, mid.progress(true))
            &&& second == mid.reaping(0).push(
                CommandView::Put { key: sink::progress_key_of(mid.name), body: d },
            )
            &&& t == mid.reaped(0)
        };
    sink::lemma_reaped(mid, 0);
    assert(commands.last() == second.last());
    lemma_marker_opens(mid.progress(true), block, d, s.name, s.part_bytes, s.index_every);
    assert(sink::resumed(s.name, s.part_bytes, s.index_every, mid.progress(true)) =~= SinkView {
        buf: Seq::empty(),
        idx_frag: Seq::empty(),
        pending: Seq::empty(),
        ..t
    });
}

/// A part that is shipped leaves nothing buffered, and is itself what is pending:
/// its index, and the marker for the progress that it brought. All else stays
/// as it was.
pub proof fn lemma_shipped_keeps(s: SinkView, block: u64, commands: Seq<CommandView>, t: SinkView)
    requires
        sink::shipped(s, block, commands, t),
        s.buf.len() > 0,
        s.part < u32::MAX,
    ensures
        t.name == s.name,
        t.part_bytes == s.part_bytes,
        t.index_every == s.index_every,
        t.last_key == s.last_key,
        t.count == s.count,
        t.global_off == s.global_off,
        t.part == s.part + 1,
        t.sizes == s.sizes.push(s.buf.len() as u64),
        t.buf.len() == 0,
        t.idx_frag.len() == 0,
        t.pending == seq![
            PendingView {
                fragment: s.idx_frag,
                marker: marker::marker_bytes(block, t.progress(false)),
            },
        ],
{
    let m = choose|m: Seq<u8>|
        {
            &&& #[trigger] sink::says_progress(m, block, s.cut(m).progress(false))
            &&& commands == seq![
                CommandView::Start { key: sink::numbered(s.name, s.part), body: s.buf },
            ] + s.cut(m).reaping(1)
            &&& t == s.cut(m).reaped(1)
        };
    sink::lemma_reaped(s.cut(m), 1);
    lemma_reaped_to_one(s.cut(m));
}

// -------------------------------------------------------------------- sizes

/// All sizes together.
pub open spec fn sum(sizes: Seq<u64>) -> int
    decreases sizes.len(),
{
    if sizes.len() == 0 {
        0
    } else {
        sum(sizes.drop_last()) + sizes.last()
    }
}

/// `t` is `s` after a record.
pub open spec fn after_push(s: SinkView, t: SinkView) -> bool {
    exists|rec: Seq<u8>, key: Seq<u8>|
        {
            &&& #[trigger] s.pushed(rec, key) == t
            &&& s.count < u64::MAX
            &&& s.global_off + rec.len() <= u64::MAX
        }
}

/// `t` is `s` after `flush`.
pub open spec fn after_flush(s: SinkView, block: u64, done: bool, t: SinkView) -> bool {
    &&& s.buf.len() > 0 ==> s.part < u32::MAX
    &&& exists|commands: Seq<CommandView>|
        #![trigger sink::finished_with(s, block, commands, t)]
        #![trigger sink::shipped(s, block, commands, t)]
        if done {
            sink::finished_with(s, block, commands, t)
        } else {
            sink::shipped(s, block, commands, t)
        }
}

/// `t` was opened on a marker that `s` wrote when it had nothing buffered.
pub open spec fn after_open(s: SinkView, block: u64, t: SinkView) -> bool {
    &&& s.buf.len() == 0
    &&& exists|b: Seq<u8>, marked: bool, done: bool|
        {
            &&& #[trigger] sink::says_progress(b, block, s.progress(marked))
            &&& #[trigger] opens_as(b, block, t, done)
        }
}

/// A sink that is opened on `b` is `t`.
pub open spec fn opens_as(b: Seq<u8>, block: u64, t: SinkView, done: bool) -> bool {
    sink::opened(Some(b), t.name, t.part_bytes, t.index_every, block) == Ok::<
        (SinkView, bool),
        OpenFault,
    >((t, done))
}

/// `t` is `s` after a record, after a flush, or as a new run finds it.
pub open spec fn steps_to(s: SinkView, block: u64, t: SinkView) -> bool {
    ||| after_push(s, t)
    ||| after_flush(s, block, false, t)
    ||| after_flush(s, block, true, t)
    ||| after_open(s, block, t)
}

/// `t` is a sink that opening, pushing and flushing lead to in `n` steps: it
/// started afresh, and each step is a record, a flush, or a new run on a marker
/// of the sink before.
pub open spec fn reached(t: SinkView, block: u64, n: nat) -> bool
    decreases n,
{
    if n == 0 {
        t == sink::resumed(t.name, t.part_bytes, t.index_every, sink::no_progress())
    } else {
        exists|s: SinkView| #[trigger]
            steps_to(s, block, t) && reached(s, block, (n - 1) as nat)
    }
}

/// The sizes on record, with what is buffered, are the bytes so far, one size
/// for each part, and one part at most is pending.
pub open spec fn balanced(s: SinkView) -> bool {
    &&& s.sizes.len() == s.part
    &&& sum(s.sizes) + s.buf.len() == s.global_off
    &&& s.pending.len() <= 1
}

proof fn lemma_flush_balances(s: SinkView, block: u64, done: bool, t: SinkView)
    requires
        balanced(s),
        after_flush(s, block, done, t),
    ensures
        balanced(t),
        t.buf.len() == 0,
        sum(t.sizes) == t.global_off,
        done ==> t.pending.len() == 0,
{
    if done {
        let commands = choose|commands: Seq<CommandView>| #[trigger]
            sink::finished_with(s, block, commands, t);
        let (first, mid, second) = choose|
            first: Seq<CommandView>,
            mid: SinkView,
            second: Seq<CommandView>,
        |
            {
                &&& #[trigger] sink::shipped(s, block, first, mid)
                &&& #[trigger] sink::closed_with(mid, block, second, t)
                &&& commands == first + second
            };
        lemma_ship_balances(s, block, first, mid);
        sink::lemma_reaped(mid, 0);
    } else {
        let commands = choose|commands: Seq<CommandView>| #[trigger]
            sink::shipped(s, block, commands, t);
        lemma_ship_balances(s, block, commands, t);
    }
}

proof fn lemma_ship_balances(s: SinkView, block: u64, commands: Seq<CommandView>, t: SinkView)
    requires
        balanced(s),
        s.buf.len() > 0 ==> s.part < u32::MAX,
        sink::shipped(s, block, commands, t),
    ensures
        balanced(t),
        t.buf.len() == 0,
{
    if s.buf.len() > 0 {
        lemma_shipped_keeps(s, block, commands, t);
        lemma_sum_bound(s.sizes);
        assert(t.sizes.drop_last() =~= s.sizes);
    }
}

proof fn lemma_sum_bound(sizes: Seq<u64>)
    ensures
        sum(sizes) >= 0,
    decreases sizes.len(),
{
    if sizes.len() > 0 {
        lemma_sum_bound(sizes.drop_last());
    }
}

proof fn lemma_open_balances(s: SinkView, block: u64, t: SinkView)
    requires
        balanced(s),
        after_open(s, block, t),
    ensures
        balanced(t),
{
    let (b, marked, done) = choose|b: Seq<u8>, marked: bool, done: bool|
        {
            &&& #[trigger] sink::says_progress(b, block, s.progress(marked))
            &&& #[trigger] opens_as(b, block, t, done)
        };
    marker::lemma_marker_values(block, s.progress(marked));
    let found = marker::values_of(marker::marker_members(block, s.progress(marked)));
    assert(marker::parsed(b)->Some_0 == Some(marker::marker_members(block, s.progress(marked))));
    assert(marker::progress_of(found, block) is Ok);
    assert(t.sizes == s.sizes);
    assert(t.global_off == s.global_off);
    assert(t.part == t.sizes.len());
}

/// Whatever opening, pushing and flushing lead to, the part sizes on record sum
/// up to the bytes so far but for what is buffered, which after a flush is
/// nothing.
pub proof fn lemma_sizes_sum_up(t: SinkView, block: u64, n: nat)
    requires
        reached(t, block, n),
    ensures
        balanced(t),
        t.buf.len() == 0 ==> sum(t.sizes) == t.global_off,
    decreases n,
{
    if n > 0 {
        let s = choose|s: SinkView| #[trigger]
            steps_to(s, block, t) && reached(s, block, (n - 1) as nat);
        lemma_sizes_sum_up(s, block, (n - 1) as nat);
        if after_flush(s, block, false, t) {
            lemma_flush_balances(s, block, false, t);
        } else if after_flush(s, block, true, t) {
            lemma_flush_balances(s, block, true, t);
        } else if after_open(s, block, t) {
            lemma_open_balances(s, block, t);
        }
    }
}

/// After a flush nothing is buffered, the sizes on record are one for each part
/// and sum up to the bytes so far, and no more than one part is pending, none
/// where the table is done.
pub proof fn lemma_flushed(s: SinkView, block: u64, n: nat, done: bool, t: SinkView)
    requires
        reached(s, block, n),
        after_flush(s, block, done, t),
    ensures
        reached(t, block, n + 1),
        t.buf.len() == 0,
        t.sizes.len() == t.part,
        sum(t.sizes) == t.global_off,
        t.pending.len() <= 1,
        done ==> t.pending.len() == 0,
{
    lemma_sizes_sum_up(s, block, n);
    lemma_flush_balances(s, block, done, t);
    assert(steps_to(s, block, t));
}

// ------------------------------------------------------------------ offsets

proof fn lemma_stream_prefix(records: Seq<Record>, k: int)
    requires
        0 <= k <= records.len(),
    ensures
        stream(records.take(k)).len() <= stream(records).len(),
        stream(records).take(stream(records.take(k)).len() as int) == stream(records.take(k)),
    decreases records.len(),
{
    let whole = stream(records);
    if k == records.len() {
        assert(records.take(k) =~= records);
        assert(whole.take(whole.len() as int) =~= whole);
    } else {
        let p = records.drop_last();
        lemma_stream_prefix(p, k);
        assert(p.take(k) =~= records.take(k));
        let n = stream(p.take(k)).len() as int;
        assert(whole.take(n) =~= stream(p).take(n));
    }
}

/// Where the stream says a record stands, the record stands: the bytes from
/// its offset on are its own. With `tells`, the same is true of the parts
/// taken together, since they are the stream.
pub proof fn lemma_record_at_offset(records: Seq<Record>, k: int)
    requires
        0 <= k < records.len(),
    ensures
        ({
            let from = stream(records.take(k)).len() as int;
            let to = from + records[k].bytes.len();
            &&& to <= stream(records).len()
            &&& stream(records).subrange(from, to) == records[k].bytes
        }),
{
    lemma_stream_prefix(records, k);
    lemma_stream_prefix(records, k + 1);
    let from = stream(records.take(k)).len() as int;
    let next = records.take(k + 1);
    assert(next.drop_last() =~= records.take(k));
    assert(next.last() == records[k]);
    let to = stream(next).len() as int;
    assert(to == from + records[k].bytes.len());
    assert(stream(records).subrange(from, to) =~= stream(records).take(to).subrange(from, to));
    assert(stream(next).subrange(from, to) =~= records[k].bytes);
}

/// Every entry of the index is the key of a record with the offset at which
/// that record stands: where all keys are `width` bytes long, the `j`th entry
/// is that of record `j * every`.
pub proof fn lemma_index_entry(records: Seq<Record>, every: u64, width: nat, j: nat)
    requires
        every > 0,
        j * every < records.len(),
        forall|i: int| 0 <= i < records.len() ==> (#[trigger] records[i]).key.len() == width,
    ensures
        ({
            let at = (j * (width + 8)) as int;
            let k = (j * every) as int;
            &&& at + width + 8 <= index(records, every).len()
            &&& index(records, every).subrange(at, at + width) == records[k].key
            &&& index(records, every).subrange(at + width, at + width + 8)
                == primitives::be_bytes(stream(records.take(k)).len(), 8)
        }),
    decreases records.len(),
{
    let earlier = records.drop_last();
    let n = earlier.len();
    let at = (j * (width + 8)) as int;
    let whole = index(records, every);
    lemma_index_len(earlier, every, width);
    if j * every < n {
        assert forall|i: int| 0 <= i < earlier.len() implies (#[trigger] earlier[i]).key.len()
            == width by {
            assert(earlier[i] == records[i]);
        }
        lemma_index_entry(earlier, every, width, j);
        let k = (j * every) as int;
        assert(earlier.take(k) =~= records.take(k));
        let part = index(earlier, every);
        assert(whole.subrange(at, at + width) =~= part.subrange(at, at + width));
        assert(whole.subrange(at + width, at + width + 8) =~= part.subrange(
            at + width,
            at + width + 8,
        ));
    } else {
        assert(j * every == n);
        assert(n % (every as nat) == 0) by {
            vstd::arithmetic::div_mod::lemma_mod_multiples_basic(j as int, every as int);
        }
        primitives::lemma_be_bytes_len(stream(earlier).len(), 8);
        assert(records.take(n as int) =~= earlier);
        assert(index(earlier, every).len() == at) by {
            lemma_entries_before(j, every as nat);
        }
        assert(whole.subrange(at, at + width) =~= records.last().key);
        assert(whole.subrange(at + width, at + width + 8) =~= primitives::be_bytes(
            stream(earlier).len(),
            8,
        ));
    }
}

/// How many of the first `n` records have an entry.
pub open spec fn entries(n: nat, every: nat) -> nat
    decreases n,
{
    if n == 0 {
        0
    } else if (n - 1) as nat % every == 0 {
        entries((n - 1) as nat, every) + 1
    } else {
        entries((n - 1) as nat, every)
    }
}

proof fn lemma_entries_between(j: nat, every: nat, r: nat)
    requires
        every > 0,
        r < every,
    ensures
        entries(j * every + r, every) == (if r == 0 {
            j
        } else {
            j + 1
        }),
    decreases j, r,
{
    if r == 0 {
        if j > 0 {
            let i = (j - 1) as nat;
            assert(j * every == i * every + every) by (nonlinear_arith)
                requires
                    j == i + 1,
            ;
            lemma_entries_between(i, every, (every - 1) as nat);
            let m = (j * every - 1) as nat;
            assert(m == i * every + (every - 1));
            vstd::arithmetic::div_mod::lemma_fundamental_div_mod_converse(
                m as int,
                every as int,
                i as int,
                every - 1,
            );
        } else {
            assert(0 * every == 0) by (nonlinear_arith);
        }
    } else {
        lemma_entries_between(j, every, (r - 1) as nat);
        let m = (j * every + (r - 1)) as nat;
        vstd::arithmetic::div_mod::lemma_fundamental_div_mod_converse(
            m as int,
            every as int,
            j as int,
            r - 1,
        );
    }
}

proof fn lemma_entries_before(j: nat, every: nat)
    requires
        every > 0,
    ensures
        entries(j * every, every) == j,
{
    lemma_entries_between(j, every, 0);
}

proof fn lemma_index_len(records: Seq<Record>, every: u64, width: nat)
    requires
        every > 0,
        forall|i: int| 0 <= i < records.len() ==> (#[trigger] records[i]).key.len() == width,
    ensures
        index(records, every).len() == entries(records.len(), every as nat) * (width + 8),
    decreases records.len(),
{
    if records.len() > 0 {
        let earlier = records.drop_last();
        assert forall|i: int| 0 <= i < earlier.len() implies (#[trigger] earlier[i]).key.len()
            == width by {
            assert(earlier[i] == records[i]);
        }
        lemma_index_len(earlier, every, width);
        primitives::lemma_be_bytes_len(stream(earlier).len(), 8);
        let e = entries(earlier.len(), every as nat);
        assert((e + 1) * (width + 8) == e * (width + 8) + (width + 8)) by (nonlinear_arith);
        assert(records[records.len() - 1].key.len() == width);
    } else {
        assert(0 * (width + 8) == 0) by (nonlinear_arith);
    }
}

// -------------------------------------------------------------------- order

/// How many parts the commands have begun to store.
pub open spec fn starts(trace: Seq<CommandView>) -> nat
    decreases trace.len(),
{
    if trace.len() == 0 {
        0
    } else {
        starts(trace.drop_last()) + (if trace.last() is Start {
            1nat
        } else {
            0
        })
    }
}

/// How many parts the commands have waited for. The oldest is waited for
/// first, so that these are the first so many of those that were begun.
pub open spec fn awaits(trace: Seq<CommandView>) -> nat
    decreases trace.len(),
{
    if trace.len() == 0 {
        0
    } else {
        awaits(trace.drop_last()) + (if trace.last() is AwaitOldest {
            1nat
        } else {
            0
        })
    }
}

/// `b` is a marker that counts `part` parts.
pub open spec fn counts(b: Seq<u8>, block: u64, part: int) -> bool {
    exists|p: ProgressView| #[trigger] sink::says_progress(b, block, p) && p.part == part
}

/// `c` is in order after `trace`, by a sink that began at part `first`: what
/// is waited for was begun; the fragment that is put is that of the part that
/// was stored last; the marker that is put counts the parts that are stored,
/// no more.
pub open spec fn in_order(
    trace: Seq<CommandView>,
    c: CommandView,
    name: Seq<char>,
    block: u64,
    first: int,
) -> bool {
    match c {
        CommandView::Start { key, .. } => key == sink::numbered(
            name,
            (first + starts(trace)) as u32,
        ),
        CommandView::AwaitOldest => awaits(trace) < starts(trace),
        CommandView::Put { key, body } => {
            ||| key == sink::fragment_key_of(name, (first + awaits(trace) - 1) as u32)
            ||| key == sink::progress_key_of(name) && counts(body, block, first + awaits(trace))
        },
    }
}

/// Every command of `trace` is in order.
pub open spec fn orderly(trace: Seq<CommandView>, name: Seq<char>, block: u64, first: int) -> bool {
    forall|i: int|
        0 <= i < trace.len() ==> in_order(trace.take(i), #[trigger] trace[i], name, block, first)
}

/// `trace` is what a sink that began at part `first` has had done.
pub open spec fn led_to(trace: Seq<CommandView>, s: SinkView, block: u64, first: int) -> bool {
    &&& orderly(trace, s.name, block, first)
    &&& starts(trace) == s.part - first
    &&& awaits(trace) + s.pending.len() == s.part - first
    &&& forall|k: int|
        0 <= k < s.pending.len() ==> counts(
            (#[trigger] s.pending[k]).marker,
            block,
            s.part - s.pending.len() + k + 1,
        )
}

/// A sink that was opened has had nothing done.
pub proof fn lemma_opened_is_orderly(s: SinkView, block: u64)
    requires
        s.pending.len() == 0,
    ensures
        led_to(Seq::empty(), s, block, s.part as int),
{
}

proof fn lemma_orderly_push(
    trace: Seq<CommandView>,
    c: CommandView,
    name: Seq<char>,
    block: u64,
    first: int,
)
    requires
        orderly(trace, name, block, first),
        in_order(trace, c, name, block, first),
    ensures
        orderly(trace.push(c), name, block, first),
        starts(trace.push(c)) == starts(trace) + (if c is Start {
            1nat
        } else {
            0
        }),
        awaits(trace.push(c)) == awaits(trace) + (if c is AwaitOldest {
            1nat
        } else {
            0
        }),
{
    let all = trace.push(c);
    assert(all.drop_last() =~= trace);
    assert forall|i: int| 0 <= i < all.len() implies in_order(
        all.take(i),
        #[trigger] all[i],
        name,
        block,
        first,
    ) by {
        if i < trace.len() {
            assert(all.take(i) =~= trace.take(i));
            assert(all[i] == trace[i]);
        } else {
            assert(all.take(i) =~= trace);
        }
    }
}

#[verifier::spinoff_prover]
#[verifier::rlimit(40)]
proof fn lemma_completion_is_orderly(
    trace: Seq<CommandView>,
    s: SinkView,
    block: u64,
    first: int,
)
    requires
        led_to(trace, s, block, first),
        0 <= first,
        s.pending.len() > 0,
    ensures
        led_to(trace + s.completion(), s.without_oldest(), block, first),
{
    let c = s.completion();
    let a = trace.push(c[0]);
    let b = a.push(c[1]);
    let d = b.push(c[2]);
    let t = s.without_oldest();
    assert(counts(s.pending[0].marker, block, s.part - s.pending.len() + 0 + 1));
    lemma_orderly_push(trace, c[0], s.name, block, first);
    assert(in_order(a, c[1], s.name, block, first));
    lemma_orderly_push(a, c[1], s.name, block, first);
    assert(in_order(b, c[2], s.name, block, first));
    lemma_orderly_push(b, c[2], s.name, block, first);
    assert forall|k: int| 0 <= k < t.pending.len() implies counts(
        (#[trigger] t.pending[k]).marker,
        block,
        t.part - t.pending.len() + k + 1,
    ) by {
        assert(t.pending[k] == s.pending[k + 1]);
        assert(counts(s.pending[k + 1].marker, block, s.part - s.pending.len() + (k + 1) + 1));
    }
    assert(trace + c =~= d);
}

proof fn lemma_reaping_is_orderly(
    trace: Seq<CommandView>,
    s: SinkView,
    block: u64,
    first: int,
    max_left: nat,
)
    requires
        led_to(trace, s, block, first),
        0 <= first,
    ensures
        led_to(trace + s.reaping(max_left), s.reaped(max_left), block, first),
    decreases s.pending.len(),
{
    if s.pending.len() <= max_left {
        assert(trace + s.reaping(max_left) =~= trace);
    } else {
        let t = s.without_oldest();
        let done = trace + s.completion();
        lemma_completion_is_orderly(trace, s, block, first);
        lemma_reaping_is_orderly(done, t, block, first, max_left);
        assert(trace + s.reaping(max_left) =~= done + t.reaping(max_left));
    }
}

/// Shipping a part is done in order: its fragment and its marker are stored
/// only after the part itself.
pub proof fn lemma_ship_is_orderly(
    trace: Seq<CommandView>,
    s: SinkView,
    block: u64,
    first: int,
    commands: Seq<CommandView>,
    t: SinkView,
)
    requires
        led_to(trace, s, block, first),
        0 <= first,
        s.buf.len() > 0 ==> s.part < u32::MAX,
        sink::shipped(s, block, commands, t),
    ensures
        led_to(trace + commands, t, block, first),
{
    if s.buf.len() == 0 {
        assert(trace + commands =~= trace);
    } else {
        let m = choose|m: Seq<u8>|
            {
                &&& #[trigger] sink::says_progress(m, block, s.cut(m).progress(false))
                &&& commands == seq![
                    CommandView::Start { key: sink::numbered(s.name, s.part), body: s.buf },
                ] + s.cut(m).reaping(1)
                &&& t == s.cut(m).reaped(1)
            };
        let c = s.cut(m);
        let start = CommandView::Start { key: sink::numbered(s.name, s.part), body: s.buf };
        lemma_orderly_push(trace, start, s.name, block, first);
        assert forall|k: int| 0 <= k < c.pending.len() implies counts(
            (#[trigger] c.pending[k]).marker,
            block,
            c.part - c.pending.len() + k + 1,
        ) by {
            if k < s.pending.len() {
                assert(c.pending[k] == s.pending[k]);
                assert(counts(s.pending[k].marker, block, s.part - s.pending.len() + k + 1));
            } else {
                assert(sink::says_progress(m, block, c.progress(false)));
            }
        }
        lemma_reaping_is_orderly(trace.push(start), c, block, first, 1);
        assert(trace + commands =~= trace.push(start) + c.reaping(1));
    }
}

/// A table is marked as complete only when every part of it is stored, with
/// every fragment.
pub proof fn lemma_close_is_orderly(
    trace: Seq<CommandView>,
    s: SinkView,
    block: u64,
    first: int,
    commands: Seq<CommandView>,
    t: SinkView,
)
    requires
        led_to(trace, s, block, first),
        0 <= first,
        sink::closed_with(s, block, commands, t),
    ensures
        led_to(trace + commands, t, block, first),
        t.pending.len() == 0,
        awaits(trace + commands) == starts(trace + commands),
{
    let d = choose|d: Seq<u8>|
        {
            &&& #[trigger] sink::says_progress(d, block, s.progress(true))
            &&& commands == s.reaping(0).push(
                CommandView::Put { key: sink::progress_key_of(s.name), body: d },
            )
            &&& t == s.reaped(0)
        };
    lemma_reaping_is_orderly(trace, s, block, first, 0);
    sink::lemma_reaped(s, 0);
    let before = trace + s.reaping(0);
    let put = CommandView::Put { key: sink::progress_key_of(s.name), body: d };
    assert(counts(d, block, first + awaits(before)));
    lemma_orderly_push(before, put, s.name, block, first);
    assert(trace + commands =~= before.push(put));
}

} // verus!
