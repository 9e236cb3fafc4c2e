//! What a sink and a walk do with one record, one part, one row: in terms of what
//! they held before and of what is stored.

use vstd::prelude::*;

use crate::commit_point;
use crate::commit_point::field;
use crate::hash;
use crate::history;
use crate::marker;
use crate::marker::{FieldView, ProgressView, Refusal};
use crate::primitives;
use crate::primitives::B256;
use crate::readback;
use crate::sink;
use crate::sink::{Command, CommandView, Pending, PendingView, Sink, SinkError, SinkView};
use crate::text;
use crate::walk;
use crate::walk::{
    Answer, Corrupt, Cursor, HashedSlot, Row, RowView, Table, Walk, WalkPhase, WalkStep,
};

verus! {

// ---------------------------------------------------------------------- keys

/// `key` is that of part `part` of `name`: the name, a dot, and the number in five
/// digits or more.
pub open spec fn names_part(key: Seq<char>, name: Seq<char>, part: int) -> bool {
    &&& key.len() >= name.len() + 6
    &&& key.take(name.len() as int) == name
    &&& key[name.len() as int] == '.'
    &&& readback::decimal_read(key.skip(name.len() as int + 1)) == part
    &&& key.len() > name.len() + 6 ==> key[name.len() as int + 1] != '0'
    &&& forall|k: int|
        name.len() < k < key.len() ==> 0x30 <= #[trigger] key[k] as u32 <= 0x39
}

proof fn lemma_numbered(name: Seq<char>, part: u32)
    ensures
        names_part(sink::numbered(name, part), name, part as int),
{
    reveal_strlit(".");
    readback::lemma_padded_says(part as nat, 5);
    let key = sink::numbered(name, part);
    let d = text::padded_digits(part as nat, 5);
    assert(key.take(name.len() as int) =~= name);
    assert(key.skip(name.len() as int + 1) =~= d);
    readback::lemma_decimal_says(part as nat);
    assert(key[name.len() as int + 1] == d[0]);
    assert forall|k: int| name.len() < k < key.len() implies 0x30 <= #[trigger] key[k] as u32
        <= 0x39 by {
        assert(key[k] == d[k - name.len() - 1]);
    }
}

/// Where the objects of a table stand: its parts, their index fragments apart from
/// them, its marker and its index.
pub proof fn lemma_object_keys(
    name: &str,
    part: u32,
    p: String,
    f: String,
    m: String,
    i: String,
)
    requires
        call_ensures(sink::part_key, (name, part), p),
        call_ensures(sink::fragment_key, (name, part), f),
        call_ensures(sink::progress_key, (name,), m),
        call_ensures(sink::index_key, (name,), i),
    ensures
        names_part(p@, name@, part as int),
        f@.take(8) == "idxfrag/"@,
        names_part(f@.skip(8), name@, part as int),
        m@ == "progress/"@ + name@ + ".json"@,
        i@ == name@ + ".idx"@,
{
    reveal_strlit("idxfrag/");
    lemma_numbered(name@, part);
    assert(f@.take(8) =~= "idxfrag/"@);
    assert(f@.skip(8) =~= sink::numbered(name@, part));
}

/// Two parts have two keys.
pub proof fn lemma_parts_apart(name: Seq<char>, a: u32, b: u32)
    requires
        sink::numbered(name, a) == sink::numbered(name, b),
    ensures
        a == b,
{
    lemma_numbered(name, a);
    lemma_numbered(name, b);
}

/// Commands, parts on their way and rows are seen as they are.
pub proof fn lemma_seen(c: Vec<Command>, p: Vec<Pending>, row: Row, i: int)
    ensures
        sink::commands_view(c@).len() == c@.len(),
        sink::pending_view(p@).len() == p@.len(),
        0 <= i < c@.len() ==> match c@[i] {
            Command::Start { key, body } => sink::commands_view(c@)[i] == (CommandView::Start {
                key: key@,
                body: body@,
            }),
            Command::AwaitOldest => sink::commands_view(c@)[i] is AwaitOldest,
            Command::Put { key, body } => sink::commands_view(c@)[i] == (CommandView::Put {
                key: key@,
                body: body@,
            }),
        },
        0 <= i < p@.len() ==> sink::pending_view(p@)[i].fragment == p@[i].fragment@
            && sink::pending_view(p@)[i].marker == p@[i].marker@,
        row matches Row::Account(a) ==> row@ == RowView::Account(a),
        row matches Row::Slot(s) ==> row@ == RowView::Slot(s),
        row matches Row::Code { hash, bytes } ==> row@ == (RowView::Code { hash, bytes: bytes@ }),
{
}

// -------------------------------------------------------------------- record

/// A record goes to the end of the part that is being filled, is counted, and has an
/// index entry where its turn has come: its key, and where it starts in the stream.
pub proof fn lemma_push(x: &mut Sink, rec: &[u8], key: &[u8])
    requires
        old(x).index_every > 0,
        old(x).count < u64::MAX,
        old(x).global_off + rec@.len() <= u64::MAX,
        call_ensures(Sink::push, (x, rec, key), ()),
    ensures
        final(x).buf@ == old(x).buf@ + rec@,
        final(x).count == old(x).count + 1,
        final(x).global_off == old(x).global_off + rec@.len(),
        final(x).last_key matches Some(k) && k@ == key@,
        old(x).count as int % old(x).index_every as int != 0 ==> final(x).idx_frag@ == old(x).idx_frag@,
        old(x).count as int % old(x).index_every as int == 0 ==> {
            let n = old(x).idx_frag@.len() as int;
            let k = key@.len() as int;
            &&& final(x).idx_frag@.len() == n + k + 8
            &&& final(x).idx_frag@.take(n) == old(x).idx_frag@
            &&& final(x).idx_frag@.subrange(n, n + k) == key@
            &&& primitives::be_value(final(x).idx_frag@.skip(n + k)) == old(x).global_off
        },
        final(x).name@ == old(x).name@,
        final(x).part == old(x).part,
        final(x).sizes@ == old(x).sizes@,
        final(x).part_bytes == old(x).part_bytes,
        final(x).index_every == old(x).index_every,
        final(x)@.pending == old(x)@.pending,
{
    let s = old(x)@;
    let t = final(x)@;
    assert(t.buf == final(x).buf@ && t.idx_frag == final(x).idx_frag@ && t.count == final(x).count);
    assert(t.last_key == marker::key_view(final(x).last_key));
    assert(s.idx_frag == old(x).idx_frag@);
    primitives::lemma_be_bytes_len(s.global_off as nat, 8);
    primitives::lemma_pow256_16();
    primitives::lemma_be_round_trip(s.global_off as nat, 8);
    if old(x).count as int % old(x).index_every as int == 0 {
        let n = old(x).idx_frag@.len() as int;
        let k = key@.len() as int;
        assert(t.idx_frag.take(n) =~= s.idx_frag);
        assert(t.idx_frag.subrange(n, n + k) =~= key@);
        assert(t.idx_frag.skip(n + k) =~= primitives::be_bytes(s.global_off as nat, 8));
    }
}

/// A part is full from the size on that was asked for.
pub proof fn lemma_part_full(s: Sink, r: bool)
    requires
        call_ensures(Sink::part_full, (&s,), r),
    ensures
        r <==> s.buf@.len() >= s.part_bytes,
{
}

// ---------------------------------------------------------------------- part

/// These bytes are a marker of this block and of this progress.
pub open spec fn marks(b: Seq<u8>, block: u64, p: ProgressView) -> bool {
    &&& b.len() > 0
    &&& field(b, "block"@) == Some(FieldView::Uint(block))
    &&& field(b, "part"@) == Some(FieldView::Uint(p.part as u64))
    &&& field(b, "count"@) == Some(FieldView::Uint(p.count))
    &&& field(b, "global_off"@) == Some(FieldView::Uint(p.global_off))
    &&& p.last_key is None ==> field(b, "last_key"@) == Some(FieldView::Text(Seq::empty()))
    &&& p.last_key matches Some(k) ==> (field(b, "last_key"@) matches Some(FieldView::Text(t))
        && text::pair_bytes(t) == Some(k))
    &&& field(b, "sizes"@) matches Some(FieldView::List(s)) && s.len() == p.sizes.len() && forall|
        i: int,
    |
        0 <= i < p.sizes.len() ==> #[trigger] s[i] == Some(p.sizes[i])
    &&& field(b, "done"@) == Some(FieldView::Flag(p.done))
}

proof fn lemma_marks(b: Seq<u8>, block: u64, p: ProgressView)
    requires
        sink::says_progress(b, block, p),
    ensures
        marks(b, block, p),
{
    reveal_strlit("block");
    reveal_strlit("part");
    reveal_strlit("count");
    reveal_strlit("global_off");
    reveal_strlit("last_key");
    reveal_strlit("sizes");
    reveal_strlit("done");
    assert("block"@[0] == 'b' && "part"@[0] == 'p' && "count"@[0] == 'c' && "global_off"@[0] == 'g'
        && "last_key"@[0] == 'l' && "sizes"@[0] == 's' && "done"@[0] == 'd');
    if let Some(k) = p.last_key {
        text::lemma_hex_round_trip(k);
    }
}

/// What is done once a part is stored: its index fragment is stored under its number,
/// and then its marker.
pub open spec fn lands(
    c: Seq<CommandView>,
    at: int,
    name: Seq<char>,
    part: int,
    p: PendingView,
) -> bool {
    &&& 0 <= at && at + 3 <= c.len()
    &&& c[at] == CommandView::AwaitOldest
    &&& c[at + 1] matches CommandView::Put { key, body } && key.len() >= 8 && key.take(8)
        == "idxfrag/"@ && names_part(key.skip(8), name, part) && body == p.fragment
    &&& c[at + 2] == (CommandView::Put {
        key: "progress/"@ + name + ".json"@,
        body: p.marker,
    })
}

proof fn lemma_lands(s: SinkView)
    requires
        0 < s.pending.len() <= s.part,
    ensures
        s.completion().len() == 3,
        lands(s.completion(), 0, s.name, s.part - s.pending.len(), s.pending[0]),
{
    reveal_strlit("idxfrag/");
    let part = (s.part - s.pending.len()) as u32;
    lemma_numbered(s.name, part);
    let key = sink::fragment_key_of(s.name, part);
    assert(key.take(8) =~= "idxfrag/"@);
    assert(key.skip(8) =~= sink::numbered(s.name, part));
}

/// The `j`th part that was on its way has landed, in its turn behind `from` commands.
pub open spec fn landed(c: Seq<CommandView>, from: int, s: SinkView, j: int) -> bool {
    lands(c, from + 3 * j, s.name, s.part - s.pending.len() + j, s.pending[j])
}

proof fn lemma_reaping(s: SinkView, max: nat)
    requires
        max <= s.pending.len() <= s.part,
    ensures
        s.reaping(max).len() == 3 * (s.pending.len() - max),
        forall|j: int|
            0 <= j < s.pending.len() - max ==> #[trigger] landed(s.reaping(max), 0, s, j),
    decreases s.pending.len(),
{
    let c = s.reaping(max);
    if s.pending.len() > max {
        let t = s.without_oldest();
        let d = t.reaping(max);
        lemma_lands(s);
        lemma_reaping(t, max);
        assert(c == s.completion() + d);
        assert forall|j: int| 0 <= j < s.pending.len() - max implies #[trigger] landed(
            c,
            0,
            s,
            j,
        ) by {
            if j == 0 {
                assert(c[0] == s.completion()[0] && c[1] == s.completion()[1] && c[2]
                    == s.completion()[2]);
            } else {
                assert(landed(d, 0, t, j - 1));
                assert(t.pending[j - 1] == s.pending[j]);
                let k = 3 * (j - 1);
                assert(c[k + 3] == d[k] && c[k + 4] == d[k + 1] && c[k + 5] == d[k + 2]);
            }
        }
    }
}

/// The part that was being filled is on its way, under its number, with nothing left
/// in its place; with it a marker of what is exported then is kept back, and the parts
/// that were on their way before have landed, the oldest first.
pub open spec fn ships(s: SinkView, block: u64, c: Seq<CommandView>, t: SinkView) -> bool {
    &&& c.len() == 1 + 3 * s.pending.len()
    &&& c[0] matches CommandView::Start { key, body } && names_part(key, s.name, s.part as int)
        && body == s.buf
    &&& forall|j: int| 0 <= j < s.pending.len() ==> #[trigger] landed(c, 1, s, j)
    &&& t.buf.len() == 0
    &&& t.idx_frag.len() == 0
    &&& t.part == s.part + 1
    &&& t.sizes.len() == s.sizes.len() + 1
    &&& t.sizes.last() == s.buf.len()
    &&& t.sizes.drop_last() == s.sizes
    &&& t.count == s.count
    &&& t.global_off == s.global_off
    &&& t.last_key == s.last_key
    &&& t.name == s.name
    &&& t.part_bytes == s.part_bytes
    &&& t.index_every == s.index_every
    &&& t.pending.len() == 1
    &&& t.pending[0].fragment == s.idx_frag
    &&& marks(
        t.pending[0].marker,
        block,
        (ProgressView {
            part: t.part,
            count: t.count,
            global_off: t.global_off,
            last_key: t.last_key,
            sizes: t.sizes,
            done: false,
        }),
    )
}

/// The part that is left, where one is, is the newest.
proof fn lemma_last_left(s: SinkView)
    requires
        s.pending.len() > 0,
    ensures
        s.reaped(1).pending == seq![s.pending.last()],
    decreases s.pending.len(),
{
    if s.pending.len() > 1 {
        lemma_last_left(s.without_oldest());
    } else {
        assert(s.pending =~= seq![s.pending.last()]);
    }
}

proof fn lemma_ships(s: SinkView, block: u64, c: Seq<CommandView>, t: SinkView)
    requires
        sink::shipped(s, block, c, t),
        s.buf.len() > 0,
        s.part < u32::MAX,
        s.pending.len() <= s.part,
        s.buf.len() <= u64::MAX,
    ensures
        ships(s, block, c, t),
{
    let m = choose|m: Seq<u8>|
        {
            &&& #[trigger] sink::says_progress(m, block, s.cut(m).progress(false))
            &&& c == seq![
                CommandView::Start { key: sink::numbered(s.name, s.part), body: s.buf },
            ] + s.cut(m).reaping(1)
            &&& t == s.cut(m).reaped(1)
        };
    history::lemma_shipped_keeps(s, block, c, t);
    lemma_numbered(s.name, s.part);
    let u = s.cut(m);
    lemma_marks(m, block, u.progress(false));
    assert(t.progress(false) == u.progress(false));
    assert(t.sizes.drop_last() =~= s.sizes);
    lemma_reaping(u, 1);
    lemma_last_left(u);
    let d = u.reaping(1);
    assert forall|j: int| 0 <= j < s.pending.len() implies #[trigger] landed(c, 1, s, j) by {
        assert(landed(d, 0, u, j));
        assert(u.pending[j] == s.pending[j]);
        let k = 3 * j;
        assert(c[1 + k] == d[k] && c[1 + k + 1] == d[k + 1] && c[1 + k + 2] == d[k + 2]);
    }
    assert(t.pending[0].marker == m);
}

/// Shipping a part: what is being filled goes out under its number, and what was on
/// its way before has landed. Nothing is done where nothing is being filled.
pub proof fn lemma_flush(
    x: &mut Sink,
    block: u64,
    r: Result<Vec<Command>, serde_json::Error>,
)
    requires
        old(x).well_formed(),
        old(x).buf@.len() > 0 ==> old(x).part < u32::MAX,
        call_ensures(Sink::flush, (x, block, false), r),
    ensures
        r matches Ok(c) && {
            &&& old(x).buf@.len() == 0 ==> c@.len() == 0 && final(x)@ == old(x)@
            &&& old(x).buf@.len() > 0 ==> ships(
                old(x)@,
                block,
                sink::commands_view(c@),
                final(x)@,
            )
        },
{
    let c = sink::commands_view(r->Ok_0@);
    assert(old(x)@.buf == old(x).buf@);
    assert(old(x).buf@.len() == old(x).buf.len());
    if old(x).buf@.len() > 0 {
        lemma_ships(old(x)@, block, c, final(x)@);
    } else {
        assert(c.len() == 0);
    }
}

/// The table is marked as complete, after what was on its way has landed: the last
/// that is stored is the marker of all that is exported.
pub open spec fn closes(s: SinkView, block: u64, c: Seq<CommandView>, t: SinkView) -> bool {
    &&& c.len() == 3 * s.pending.len() + 1
    &&& forall|j: int| 0 <= j < s.pending.len() ==> #[trigger] landed(c, 0, s, j)
    &&& c.last() matches CommandView::Put { key, body } && key == "progress/"@ + s.name
        + ".json"@ && marks(
        body,
        block,
        (ProgressView {
            part: s.part,
            count: s.count,
            global_off: s.global_off,
            last_key: s.last_key,
            sizes: s.sizes,
            done: true,
        }),
    )
    &&& t.pending.len() == 0
    &&& t.part == s.part
    &&& t.count == s.count
    &&& t.global_off == s.global_off
    &&& t.last_key == s.last_key
    &&& t.sizes == s.sizes
    &&& t.buf == s.buf
    &&& t.idx_frag == s.idx_frag
    &&& t.name == s.name
    &&& t.part_bytes == s.part_bytes
    &&& t.index_every == s.index_every
}

proof fn lemma_closes(s: SinkView, block: u64, c: Seq<CommandView>, t: SinkView)
    requires
        sink::closed_with(s, block, c, t),
        s.pending.len() <= s.part,
    ensures
        closes(s, block, c, t),
{
    let d = choose|d: Seq<u8>|
        {
            &&& #[trigger] sink::says_progress(d, block, s.progress(true))
            &&& c == s.reaping(0).push(
                CommandView::Put { key: sink::progress_key_of(s.name), body: d },
            )
            &&& t == s.reaped(0)
        };
    lemma_marks(d, block, s.progress(true));
    sink::lemma_reaped(s, 0);
    lemma_reaping(s, 0);
    let e = s.reaping(0);
    assert forall|j: int| 0 <= j < s.pending.len() implies #[trigger] landed(c, 0, s, j) by {
        assert(landed(e, 0, s, j));
        let k = 3 * j;
        assert(c[k] == e[k] && c[k + 1] == e[k + 1] && c[k + 2] == e[k + 2]);
    }
}

/// The first commands ship what is being filled, if anything is, and the others close
/// the table.
pub open spec fn finishes(
    s: SinkView,
    block: u64,
    first: Seq<CommandView>,
    mid: SinkView,
    second: Seq<CommandView>,
    t: SinkView,
) -> bool {
    &&& s.buf.len() > 0 ==> ships(s, block, first, mid)
    &&& s.buf.len() == 0 ==> first.len() == 0 && mid == s
    &&& closes(mid, block, second, t)
}

/// Finishing a table: what is being filled is shipped, what is on its way lands, and
/// the last that is stored marks the table as complete.
pub proof fn lemma_finish(
    x: &mut Sink,
    block: u64,
    r: Result<Vec<Command>, serde_json::Error>,
)
    requires
        old(x).well_formed(),
        old(x).buf@.len() > 0 ==> old(x).part < u32::MAX,
        call_ensures(Sink::flush, (x, block, true), r),
    ensures
        r matches Ok(c) && exists|first: Seq<CommandView>, mid: SinkView, second: Seq<CommandView>|
            {
                &&& sink::commands_view(c@) == first + second
                &&& #[trigger] finishes(old(x)@, block, first, mid, second, final(x)@)
            },
{
    let c = sink::commands_view(r->Ok_0@);
    let s = old(x)@;
    let (first, mid, second) = choose|
        first: Seq<CommandView>,
        mid: SinkView,
        second: Seq<CommandView>,
    |
        {
            &&& #[trigger] sink::shipped(s, block, first, mid)
            &&& #[trigger] sink::closed_with(mid, block, second, final(x)@)
            &&& c == first + second
        };
    assert(s.buf == old(x).buf@);
    assert(old(x).buf@.len() == old(x).buf.len());
    if s.buf.len() > 0 {
        lemma_ships(s, block, first, mid);
    }
    lemma_closes(mid, block, second, final(x)@);
    assert(finishes(s, block, first, mid, second, final(x)@));
}

/// The text of the last key, as a marker says it.
pub open spec fn key_text(b: Seq<u8>) -> Option<Seq<char>> {
    match field(b, "last_key"@) {
        Some(FieldView::Text(t)) => Some(t),
        _ => None,
    }
}

/// A table is opened afresh where it has no marker, and else where its marker says,
/// with nothing being filled and nothing on its way; a marker of another block, or
/// one that does not hold together, is refused.
pub proof fn lemma_open(
    body: Option<Vec<u8>>,
    name: &str,
    part_bytes: usize,
    index_every: u64,
    block: u64,
    r: Result<(Sink, bool), SinkError>,
)
    requires
        call_ensures(Sink::open, (&body, name, part_bytes, index_every, block), r),
    ensures
        body is None || body->Some_0@.len() == 0 ==> (r matches Ok((s, done)) && !done && s.part
            == 0 && s.count == 0 && s.global_off == 0 && s.last_key is None && s.sizes@.len()
            == 0),
        r matches Ok((s, done)) ==> {
            &&& s.name@ == name@
            &&& s.part_bytes == part_bytes
            &&& s.index_every == index_every
            &&& s.buf@.len() == 0
            &&& s.idx_frag@.len() == 0
            &&& s.pending@.len() == 0
            &&& s.sizes@.len() == s.part
        },
        body matches Some(b) ==> b@.len() > 0 ==> {
            &&& marker::parsed(b@) is None <==> (r is Err && r->Err_0 is Json)
            &&& marker::parsed(b@) is Some && commit_point::number_in(b@, "block"@) != block ==> r
                is Err && r->Err_0 == SinkError::Refused(
                Refusal::Block {
                    marker: commit_point::number_in(b@, "block"@),
                    database: block,
                },
            )
            &&& r is Ok <==> marker::parsed(b@) is Some && commit_point::number_in(b@, "block"@)
                == block && commit_point::readable_key(key_text(b@)) && commit_point::sizes_in(
                b@,
            ).len() == commit_point::lower_half(commit_point::number_in(b@, "part"@))
            &&& r matches Ok((s, done)) ==> {
                &&& commit_point::number_in(b@, "block"@) == block
                &&& s.part == commit_point::lower_half(commit_point::number_in(b@, "part"@))
                &&& s.count == commit_point::number_in(b@, "count"@)
                &&& s.global_off == commit_point::number_in(b@, "global_off"@)
                &&& s.sizes@ == commit_point::sizes_in(b@)
                &&& done <==> field(b@, "done"@) == Some(FieldView::Flag(true))
                &&& s.last_key matches Some(k) ==> (field(b@, "last_key"@) matches Some(
                    FieldView::Text(t),
                ) && text::pair_bytes(t) == Some(k@))
                &&& s.last_key is None ==> !(field(b@, "last_key"@) matches Some(
                    FieldView::Text(t),
                ) && t.len() > 0)
            }
        },
{
    if let Some(b) = body {
        if b@.len() > 0 && marker::parsed(b@) is Some {
            let m = marker::values_in(marker::parsed(b@)->Some_0);
            if let Some(s) = m.sizes {
                commit_point::lemma_integers(s);
            }
            commit_point::lemma_lower_half(commit_point::number_in(b@, "part"@));
        }
    }
    if let Ok((s, done)) = r {
        let v = s@;
        assert(v.name == s.name@ && v.buf == s.buf@ && v.idx_frag == s.idx_frag@);
        assert(v.sizes == s.sizes@ && v.pending.len() == s.pending@.len());
        assert(v.last_key == marker::key_view(s.last_key));
    }
}

/// The index is its fragments, one after the other; where one is missing, the first
/// such is told.
pub proof fn lemma_assembled(fragments: Vec<Option<Vec<u8>>>, r: Result<Vec<u8>, usize>)
    requires
        call_ensures(sink::assemble_index, (&fragments,), r),
    ensures
        r matches Ok(idx) ==> idx@ == fragments@.map_values(
            |f: Option<Vec<u8>>| f->Some_0@,
        ).flatten() && forall|i: int|
            0 <= i < fragments@.len() ==> (#[trigger] fragments@[i]) is Some,
        r matches Err(p) ==> p < fragments@.len() && fragments@[p as int] is None && forall|i: int|
            0 <= i < p ==> (#[trigger] fragments@[i]) is Some,
{
    lemma_joined(fragments@);
}

proof fn lemma_joined(fragments: Seq<Option<Vec<u8>>>)
    ensures
        sink::joined(fragments) == fragments.map_values(
            |f: Option<Vec<u8>>| f->Some_0@,
        ).flatten(),
    decreases fragments.len(),
{
    let g = |f: Option<Vec<u8>>| f->Some_0@;
    let all = fragments.map_values(g);
    if fragments.len() == 0 {
        assert(all =~= Seq::<Seq<u8>>::empty());
        assert(all.flatten() =~= Seq::<u8>::empty());
        assert(sink::joined(fragments) =~= Seq::<u8>::empty());
    } else {
        let p = fragments.drop_last();
        lemma_joined(p);
        let front = p.map_values(g);
        assert(all =~= front.push(fragments.last()->Some_0@));
        lemma_flatten_push(front, fragments.last()->Some_0@);
    }
}

proof fn lemma_flatten_push(s: Seq<Seq<u8>>, last: Seq<u8>)
    ensures
        s.push(last).flatten() == s.flatten() + last,
    decreases s.len(),
{
    let t = s.push(last);
    if s.len() == 0 {
        assert(t.drop_first() =~= s);
        assert(t.first() == last);
        assert(t.flatten() == last + s.flatten());
        assert(last + s.flatten() =~= s.flatten() + last);
    } else {
        lemma_flatten_push(s.drop_first(), last);
        assert(t.drop_first() =~= s.drop_first().push(last));
        assert(t.first() == s.first());
        assert(t.flatten() == t.first() + t.drop_first().flatten());
        assert(s.flatten() == s.first() + s.drop_first().flatten());
        assert(t.flatten() =~= s.flatten() + last);
    }
}

// ---------------------------------------------------------------------- walk

/// A walk starts with what it is given, and with no call outstanding.
pub proof fn lemma_new_walk(table: Table, lo: B256, hi: Option<B256>, sink: Sink, r: Walk)
    requires
        call_ensures(Walk::new, (table, lo, hi, sink), r),
    ensures
        r.table == table,
        r.lo == lo,
        r.hi == hi,
        r.sink == sink,
        r.phase is Closed,
{
    assert(r@.table == r.table && r@.lo == r.lo && r@.hi == r.hi && r@.phase == r.phase);
}

/// A walk that has taken no row starts at the lower end of its range, and code at the
/// first row of all; another starts at the last row that it took.
pub proof fn lemma_open_walk(x: &mut Walk, call: Cursor)
    requires
        walk::resumable(old(x).table, old(x)@.sink.last_key),
        call_ensures(Walk::open, (x,), call),
    ensures
        final(x).sink == old(x).sink,
        final(x).table == old(x).table,
        final(x).lo == old(x).lo,
        final(x).hi == old(x).hi,
        old(x).sink.last_key is None ==> final(x).phase is Rows,
        old(x).sink.last_key is None && old(x).table is Codes ==> call is First,
        old(x).sink.last_key is None && !(old(x).table is Codes) ==> call == Cursor::Seek(
            old(x).lo,
        ),
        old(x).sink.last_key matches Some(k) ==> {
            &&& old(x).table is Slots ==> {
                &&& call matches Cursor::SeekSub(a, s) && a.bytes() + s.bytes() == k@
                    && final(x).phase == WalkPhase::ResumeSub(a, s)
            }
            &&& !(old(x).table is Slots) ==> {
                &&& call matches Cursor::Seek(h) && h.bytes() == k@ && final(x).phase
                    == WalkPhase::ResumeAt(h)
            }
        },
{
    let t = final(x)@;
    let s = old(x)@;
    assert(t.table == final(x).table && t.lo == final(x).lo && t.hi == final(x).hi);
    assert(s.table == old(x).table && s.lo == old(x).lo && s.hi == old(x).hi);
    assert(s.sink.last_key == marker::key_view(old(x).sink.last_key));
    if let Some(k) = old(x).sink.last_key {
        if old(x).table is Slots {
            assert(k@.take(32) + k@.skip(32) =~= k@);
        }
    }
}

/// The row that came lies below the upper end of the range.
pub open spec fn below(hi: Option<B256>, head: B256) -> bool {
    hi matches Some(h) ==> primitives::bytes_before(head.bytes(), h.bytes())
}

/// The row that a call brought, for a walk that is at this phase: for one that
/// resumes inside an account, the account is that of the call.
pub open spec fn brought(phase: WalkPhase, answer: Answer) -> Option<RowView> {
    match (answer, phase) {
        (Answer::Row(Some(r)), _) => Some(r@),
        (Answer::Sub(Some((key, value))), WalkPhase::ResumeSub(a, _)) => Some(
            RowView::Slot(HashedSlot { hashed_addr: a, key, value }),
        ),
        _ => None,
    }
}

/// The row that came is the one that was taken last.
pub open spec fn again(phase: WalkPhase, row: RowView) -> bool {
    match phase {
        WalkPhase::ResumeAt(h) => row.head() == h,
        WalkPhase::ResumeSub(_, s) => row.sub() == Some(s),
        _ => false,
    }
}

/// The record of this row stands at the end of the part, and is counted.
pub open spec fn holds_too(s: SinkView, row: RowView, t: SinkView) -> bool {
    &&& t.buf == s.buf + row.bytes()
    &&& t.count == s.count + 1
    &&& t.global_off == s.global_off + row.bytes().len()
    &&& t.last_key == Some(row.key())
    &&& t.part == s.part
    &&& t.sizes == s.sizes
    &&& t.pending == s.pending
    &&& t.name == s.name
    &&& t.part_bytes == s.part_bytes
    &&& t.index_every == s.index_every
}

/// What a walk does with the row that a call brought. One below the end of the range
/// is taken, unless it was taken before or is code of another hash than its key: the
/// part is done when it is full, and else the next row is asked for. One past the end
/// is not taken.
pub proof fn lemma_row_of_walk(x: &mut Walk, answer: Answer, r: Result<WalkStep, Corrupt>)
    requires
        walk::answers(old(x).phase, answer),
        !(old(x).phase is Skip),
        brought(old(x).phase, answer) is Some,
        !again(old(x).phase, brought(old(x).phase, answer)->Some_0) && below(
            old(x).hi,
            brought(old(x).phase, answer)->Some_0.head(),
        ) ==> walk::row_fits(old(x)@.sink, brought(old(x).phase, answer)->Some_0),
        call_ensures(Walk::on, (x, answer), r),
    ensures
        ({
            let row = brought(old(x).phase, answer)->Some_0;
            let s = old(x)@.sink;
            let t = final(x)@.sink;
            let spoiled = row matches RowView::Code { hash, bytes } && hash.bytes()
                != hash::keccak256_of(bytes);
            let fresh = !again(old(x).phase, row);
            &&& !fresh ==> r == Ok::<WalkStep, Corrupt>(WalkStep::Call(Cursor::Next)) && t == s
                && final(x).phase is Rows
            &&& fresh && below(old(x).hi, row.head()) ==> {
                &&& r is Err <==> spoiled
                &&& r is Err ==> t == s && r->Err_0.hash == row.head()
                    && r->Err_0.got.bytes() == hash::keccak256_of(row->Code_bytes)
                &&& r is Ok ==> holds_too(s, row, t)
                &&& r is Ok ==> r->Ok_0 == (if t.buf.len() >= t.part_bytes {
                    WalkStep::PartDone
                } else {
                    WalkStep::Call(Cursor::Next)
                })
                &&& r is Ok && r->Ok_0 is Call ==> final(x).phase is Rows
            }
            &&& fresh && !below(old(x).hi, row.head()) ==> {
                &&& r is Ok
                &&& t == s
                &&& r->Ok_0 == (if t.buf.len() >= t.part_bytes {
                    WalkStep::PartDone
                } else {
                    WalkStep::Finish
                })
            }
        }),
        final(x).table == old(x).table,
        final(x).lo == old(x).lo,
        final(x).hi == old(x).hi,
{
    let row = brought(old(x).phase, answer)->Some_0;
    let s = old(x)@;
    let t = final(x)@;
    assert(t.table == final(x).table && t.lo == final(x).lo && t.hi == final(x).hi && t.phase
        == final(x).phase);
    assert(s.table == old(x).table && s.lo == old(x).lo && s.hi == old(x).hi && s.phase == old(
        x).phase);
    if let Some(h) = old(x).hi {
        primitives::lemma_b256_order(row.head(), h);
    }
}

/// Where no row is left, the walk ends: with a part that is full, or for good. Where
/// none is left in the account that the walk resumed in, the walk finds the account
/// again, and steps to the next one.
pub proof fn lemma_end_of_walk(x: &mut Walk, answer: Answer, r: Result<WalkStep, Corrupt>)
    requires
        walk::answers(old(x).phase, answer),
        brought(old(x).phase, answer) is None || old(x).phase is Skip,
        call_ensures(Walk::on, (x, answer), r),
    ensures
        final(x)@.sink == old(x)@.sink,
        r is Ok,
        old(x).phase is Rows || old(x).phase is ResumeAt ==> r->Ok_0 == (if old(
            x).sink.buf@.len() >= old(x).sink.part_bytes {
            WalkStep::PartDone
        } else {
            WalkStep::Finish
        }),
        old(x).phase matches WalkPhase::ResumeSub(a, _) ==> r->Ok_0 == WalkStep::Call(
            Cursor::Seek(a),
        ) && final(x).phase is Skip,
        old(x).phase is Skip ==> r->Ok_0 == WalkStep::Call(Cursor::NextNoDup)
            && final(x).phase is Rows,
{
    let s = old(x)@;
    let t = final(x)@;
    assert(t.phase == final(x).phase && s.phase == old(x).phase);
    assert(s.sink == old(x).sink@);
    assert(s.sink.buf == old(x).sink.buf@);
}

} // verus!
