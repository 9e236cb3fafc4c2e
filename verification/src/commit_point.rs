//! What the markers of an export and its commit point promise: what is read from a
//! marker is what was written into it, and what is published of a table is what the
//! table's own marker says.

use vstd::prelude::*;
use vstd::utf8;

use crate::export;
use crate::export::{Complete, Incomplete, Lacks, NotFinal, Options};
use crate::json::{Json, JsonView};
use crate::marker;
use crate::marker::{FieldView, MarkerValues, Progress, Refusal};
use crate::published;
use crate::published::has_member;
use crate::readback;
use crate::shard;
use crate::text;
use crate::walk::Table;

verus! {

// ------------------------------------------------------------------- markers

/// What the marker in these bytes holds under `name`.
pub open spec fn field(bytes: Seq<u8>, name: Seq<char>) -> Option<FieldView> {
    match marker::parsed(bytes) {
        Some(Some(members)) => if members.contains_key(name) {
            Some(members[name])
        } else {
            None
        },
        _ => None,
    }
}

/// `n` is the number that the marker holds under `name`, where it holds one there.
pub open spec fn is_number_in(bytes: Seq<u8>, name: Seq<char>, n: Option<u64>) -> bool {
    match n {
        Some(v) => field(bytes, name) == Some(FieldView::Uint(v)),
        None => !(field(bytes, name) is Some && field(bytes, name)->Some_0 is Uint),
    }
}

/// The integers of a list, in their order, without what is none.
pub open spec fn integers_of(v: Seq<Option<u64>>) -> Seq<u64> {
    v.filter(|n: Option<u64>| n is Some).map_values(|n: Option<u64>| n->Some_0)
}

pub(crate) proof fn lemma_integers(v: Seq<Option<u64>>)
    ensures
        marker::integers(v) == integers_of(v),
    decreases v.len(),
{
    let f = |n: Option<u64>| n is Some;
    let g = |n: Option<u64>| n->Some_0;
    reveal(Seq::filter);
    if v.len() > 0 {
        let p = v.drop_last();
        lemma_integers(p);
        if v.last() is Some {
            assert(p.filter(f).push(v.last()).map_values(g) =~= p.filter(f).map_values(g).push(
                v.last()->Some_0,
            ));
        }
    } else {
        assert(v.filter(f).map_values(g) =~= Seq::<u64>::empty());
    }
}

proof fn lemma_no_more_integers(v: Seq<Option<u64>>)
    ensures
        marker::integers(v).len() <= v.len(),
    decreases v.len(),
{
    if v.len() > 0 {
        lemma_no_more_integers(v.drop_last());
    }
}

/// What is taken from a marker is, member by member, what stands under the member's
/// name, where it is of the right kind; only bytes that are no JSON are refused.
pub proof fn lemma_read_values(bytes: &[u8], r: Result<MarkerValues, serde_json::Error>)
    requires
        call_ensures(marker::read_values, (bytes,), r),
    ensures
        r is Err <==> marker::parsed(bytes@) is None,
        r matches Ok(v) ==> {
            &&& is_number_in(bytes@, "block"@, v.block)
            &&& is_number_in(bytes@, "part"@, v.part)
            &&& is_number_in(bytes@, "count"@, v.count)
            &&& is_number_in(bytes@, "global_off"@, v.global_off)
            &&& v.last_key matches Some(s) ==> field(bytes@, "last_key"@) == Some(
                FieldView::Text(s@),
            )
            &&& v.last_key is None ==> !(field(bytes@, "last_key"@) is Some && field(
                bytes@,
                "last_key"@,
            )->Some_0 is Text)
            &&& v.sizes matches Some(s) ==> field(bytes@, "sizes"@) == Some(
                FieldView::List(s@),
            )
            &&& v.sizes is None ==> !(field(bytes@, "sizes"@) is Some && field(
                bytes@,
                "sizes"@,
            )->Some_0 is List)
            &&& v.done == Some(true) <==> field(bytes@, "done"@) == Some(FieldView::Flag(true))
            &&& v.done == Some(false) <==> field(bytes@, "done"@) == Some(FieldView::Flag(false))
        },
{
    if let Ok(v) = r {
        assert(v.block == v@.block && v.part == v@.part && v.count == v@.count);
        assert(v.global_off == v@.global_off && v.done == v@.done);
    }
}

/// What is written into a marker stands under the names of its members: the block
/// of the export and how far it has come.
pub proof fn lemma_print_marker(
    block: u64,
    p: Progress,
    r: Result<Vec<u8>, serde_json::Error>,
)
    requires
        call_ensures(marker::print_marker, (block, &p), r),
    ensures
        r is Ok,
        r matches Ok(b) ==> {
            &&& b@.len() > 0
            &&& field(b@, "block"@) == Some(FieldView::Uint(block))
            &&& field(b@, "part"@) == Some(FieldView::Uint(p.part as u64))
            &&& field(b@, "count"@) == Some(FieldView::Uint(p.count))
            &&& field(b@, "global_off"@) == Some(FieldView::Uint(p.global_off))
            &&& p.last_key is None ==> field(b@, "last_key"@) == Some(
                FieldView::Text(Seq::empty()),
            )
            &&& p.last_key matches Some(k) ==> (field(b@, "last_key"@) matches Some(
                FieldView::Text(t),
            ) && text::pair_bytes(t) == Some(k@))
            &&& field(b@, "sizes"@) matches Some(FieldView::List(s)) && s.len() == p.sizes@.len()
            && forall|i: int|
                0 <= i < p.sizes@.len() ==> #[trigger] s[i] == Some(p.sizes@[i])
            &&& field(b@, "done"@) == Some(FieldView::Flag(p.done))
        },
{
    reveal_strlit("block");
    reveal_strlit("part");
    reveal_strlit("count");
    reveal_strlit("global_off");
    reveal_strlit("last_key");
    reveal_strlit("sizes");
    reveal_strlit("done");
    assert("block"@[0] == 'b' && "part"@[0] == 'p' && "count"@[0] == 'c' && "global_off"@[0] == 'g'
        && "last_key"@[0] == 'l' && "sizes"@[0] == 's' && "done"@[0] == 'd');
    if let Some(k) = p.last_key {
        text::lemma_hex_round_trip(k@);
    }
}

/// A key that can be taken up: none, or an even number of bytes of which every two are
/// the digits of a byte.
pub open spec fn readable_key(key: Option<Seq<char>>) -> bool {
    key matches Some(k) ==> k.len() == 0 || {
        &&& text::hex_cuts(k)
        &&& utf8::encode_utf8(k).len() % 2 == 0
        &&& text::pair_bytes(k) is Some
    }
}

/// The lower half of a number of 64 bits.
pub open spec fn lower_half(n: u64) -> int {
    n as int % 0x1_0000_0000
}

pub(crate) proof fn lemma_lower_half(n: u64)
    ensures
        (n as u32) as int == lower_half(n),
{
    assert((n as u32) as u64 == n % 0x1_0000_0000u64) by (bit_vector);
}

/// Progress can be taken up from a marker exactly where the marker is of this block,
/// its key can be read, and it has one size for each part.
pub proof fn lemma_progress_is_owed(
    values: MarkerValues,
    block: u64,
    r: Result<Progress, Refusal>,
)
    requires
        call_ensures(marker::progress_from, (&values, block), r),
    ensures
        ({
            let said: u64 = match values.block {
                Some(n) => n,
                None => 0,
            };
            let part: u64 = match values.part {
                Some(n) => n,
                None => 0,
            };
            let sizes = match values.sizes {
                Some(s) => integers_of(s@),
                None => Seq::empty(),
            };
            let key = match values.last_key {
                Some(k) => Some(k@),
                None => None,
            };
            &&& r is Ok <==> said == block && readable_key(key) && sizes.len() == lower_half(part)
            &&& r matches Ok(p) ==> p.part == lower_half(part)
            &&& said == block && readable_key(key) && r is Err ==> r->Err_0 is Sizes
            &&& said == block && !readable_key(key) ==> r is Err && (r->Err_0 is Key
                || r->Err_0 is KeyText)
        }),
{
    if let Some(s) = values.sizes {
        lemma_integers(s@);
    }
    if let Some(n) = values.part {
        lemma_lower_half(n);
    }
    if let Ok(p) = r {
        assert(p.part == p@.part);
    }
}

/// What is taken up from a marker is what the marker says: nothing of another block,
/// no key that is not written in hexadecimal, and one size for each part.
pub proof fn lemma_progress_from(
    values: MarkerValues,
    block: u64,
    r: Result<Progress, Refusal>,
)
    requires
        call_ensures(marker::progress_from, (&values, block), r),
        values.part matches Some(n) ==> n <= u32::MAX,
    ensures
        ({
            let said: u64 = match values.block {
                Some(n) => n,
                None => 0,
            };
            &&& said != block <==> r == Err::<Progress, Refusal>(
                Refusal::Block { marker: said, database: block },
            )
        }),
        r matches Ok(p) ==> {
            &&& values.part == Some(p.part as u64) || values.part is None && p.part == 0
            &&& values.count == Some(p.count) || values.count is None && p.count == 0
            &&& values.global_off == Some(p.global_off) || values.global_off is None
                && p.global_off == 0
            &&& values.sizes matches Some(s) ==> p.sizes@ == integers_of(s@)
            &&& values.sizes is None ==> p.sizes@.len() == 0
            &&& p.sizes@.len() == p.part
            &&& p.done <==> values.done == Some(true)
            &&& p.last_key is None <==> values.last_key is None || values.last_key->Some_0@.len()
                == 0
            &&& p.last_key matches Some(k) ==> text::pair_bytes(values.last_key->Some_0@) == Some(
                k@,
            )
        },
        r matches Err(Refusal::Sizes { part, sizes }) ==> sizes != part && (values.part == Some(
            part as u64,
        ) || values.part is None && part == 0),
{
    if let Some(s) = values.sizes {
        lemma_integers(s@);
        lemma_no_more_integers(s@);
        assert(s@.len() == s.len());
    }
    if let Ok(p) = r {
        assert(p.part == p@.part && p.count == p@.count && p.global_off == p@.global_off);
        assert(p.done == p@.done && p.sizes@ == p@.sizes);
        if let Some(k) = p.last_key {
            assert(p@.last_key == Some(k@));
        } else {
            assert(p@.last_key is None);
        }
    }
}

// -------------------------------------------------------------------- tables

/// The number that a marker says under `name`, zero where it says none.
pub open spec fn number_in(bytes: Seq<u8>, name: Seq<char>) -> u64 {
    match field(bytes, name) {
        Some(FieldView::Uint(n)) => n,
        _ => 0,
    }
}

/// The sizes that a marker says.
pub open spec fn sizes_in(bytes: Seq<u8>) -> Seq<u64> {
    match field(bytes, "sizes"@) {
        Some(FieldView::List(s)) => integers_of(s),
        _ => Seq::empty(),
    }
}

/// The body is a marker that says of its table that it is complete at `block`, with
/// one size for each part.
pub open spec fn complete_at(body: Option<Vec<u8>>, block: u64) -> bool {
    &&& body is Some
    &&& field(body->Some_0@, "done"@) == Some(FieldView::Flag(true))
    &&& field(body->Some_0@, "block"@) == Some(FieldView::Uint(block))
    &&& sizes_in(body->Some_0@).len() == number_in(body->Some_0@, "part"@) as usize
}

proof fn lemma_says_complete(body: Option<Vec<u8>>, block: u64, c: Complete)
    ensures
        export::says_complete(body, block, c) ==> complete_at(body, block) && c.count
            == number_in(body->Some_0@, "count"@) && c.sizes@ == sizes_in(body->Some_0@),
{
    if body is Some && marker::parsed(body->Some_0@) is Some {
        let m = marker::values_in(marker::parsed(body->Some_0@)->Some_0);
        if let Some(s) = m.sizes {
            lemma_integers(s);
        }
    }
}

proof fn lemma_says_incomplete(body: Option<Vec<u8>>, block: u64, e: Incomplete)
    ensures
        export::says_incomplete(body, block, e) ==> !complete_at(body, block),
{
    if body is Some && marker::parsed(body->Some_0@) is Some {
        let m = marker::values_in(marker::parsed(body->Some_0@)->Some_0);
        if let Some(s) = m.sizes {
            lemma_integers(s);
        }
    }
}

/// A table counts as complete exactly where its marker says so, of this block, and
/// then it has the count and the sizes that the marker says.
pub proof fn lemma_read_marker(
    body: Option<Vec<u8>>,
    block: u64,
    r: Result<Complete, Incomplete>,
)
    requires
        call_ensures(export::read_marker, (&body, block), r),
    ensures
        r is Ok <==> complete_at(body, block),
        r matches Ok(c) ==> c.count == number_in(body->Some_0@, "count"@) && c.sizes@ == sizes_in(
            body->Some_0@,
        ),
        r matches Err(Incomplete::NoMarker) ==> body is None,
        body is None ==> r == Err::<Complete, Incomplete>(Incomplete::NoMarker),
        r matches Err(Incomplete::Says(Lacks::Done)) ==> field(body->Some_0@, "done"@) != Some(
            FieldView::Flag(true),
        ),
        r matches Err(Incomplete::Says(Lacks::Block { marker: m, database })) ==> {
            &&& database == block
            &&& m != Some(block)
            &&& m matches Some(n) ==> field(body->Some_0@, "block"@) == Some(FieldView::Uint(n))
        },
{
    match r {
        Ok(c) => lemma_says_complete(body, block, c),
        Err(e) => lemma_says_incomplete(body, block, e),
    }
}

// ---------------------------------------------------------------------- meta

/// `name` is that of shard `i` of `table`.
pub open spec fn names_shard(name: Seq<char>, table: Seq<char>, i: int) -> bool {
    &&& name.len() >= table.len() + 3
    &&& name.take(table.len() as int) == table
    &&& name[table.len() as int] == '-'
    &&& readback::decimal_read(name.skip(table.len() as int + 1)) == i
    &&& name.len() > table.len() + 3 ==> name[table.len() as int + 1] != '0'
    &&& forall|k: int|
        table.len() < k < name.len() ==> 0x30 <= #[trigger] name[k] as u32 <= 0x39
}

proof fn lemma_shard_named(table: Seq<char>, i: u32)
    ensures
        names_shard(shard::shard_name_of(table, i), table, i as int),
{
    reveal_strlit("-");
    readback::lemma_padded_says(i as nat, 2);
    let name = shard::shard_name_of(table, i);
    let d = text::padded_digits(i as nat, 2);
    assert(name.take(table.len() as int) =~= table);
    assert(name.skip(table.len() as int + 1) =~= d);
    readback::lemma_decimal_says(i as nat);
    assert(name[table.len() as int + 1] == d[0]);
    assert forall|k: int| table.len() < k < name.len() implies 0x30 <= #[trigger] name[k] as u32
        <= 0x39 by {
        assert(name[k] == d[k - table.len() - 1]);
    }
}

/// A shard's name is its table's, a hyphen, and its number in two digits or more.
pub proof fn lemma_shard_name(table: &str, i: u32, r: String)
    requires
        call_ensures(shard::shard_name, (table, i), r),
    ensures
        names_shard(r@, table@, i as int),
{
    lemma_shard_named(table@, i);
}

/// A list of numbers.
pub open spec fn is_numbers(j: JsonView, v: Seq<u64>) -> bool {
    &&& j is List
    &&& j->List_0.len() == v.len()
    &&& forall|i: int| 0 <= i < v.len() ==> #[trigger] j->List_0[i] == JsonView::Number(v[i])
}

/// The object `sizes` has, under the name of shard `i` of `table`, the sizes that
/// the marker in `body` says.
pub open spec fn tells_shard(
    sizes: JsonView,
    table: Seq<char>,
    i: int,
    body: Option<Vec<u8>>,
) -> bool {
    exists|name: Seq<char>, list: JsonView|
        {
            &&& #[trigger] has_member(sizes, name, list)
            &&& names_shard(name, table, i)
            &&& is_numbers(list, sizes_in(body->Some_0@))
        }
}

/// The records that the markers from `from` up to `to` say.
pub open spec fn records_in(bodies: Seq<Option<Vec<u8>>>, from: int, to: int) -> int
    decreases to - from,
{
    if to <= from {
        0
    } else {
        records_in(bodies, from, to - 1) + number_in(bodies[to - 1]->Some_0@, "count"@)
    }
}

/// `j` is an object with these two numbers for accounts and slots.
pub open spec fn tells_two(j: JsonView, accounts: u64, slots: u64) -> bool {
    &&& has_member(j, "accounts"@, JsonView::Number(accounts))
    &&& has_member(j, "slots"@, JsonView::Number(slots))
}

/// What is published of an export: of each table and shard what its own marker
/// says, and what the export was asked for.
pub open spec fn tells_export(
    j: JsonView,
    bodies: Seq<Option<Vec<u8>>>,
    block: u64,
    options: Options,
) -> bool {
    let n = options.shards as int;
    &&& has_member(j, "v"@, JsonView::Number(3))
    &&& has_member(j, "block"@, JsonView::Number(block))
    &&& exists|a: u64, s: u64|
        {
            &&& #[trigger] has_member(j, "accounts"@, JsonView::Number(a))
            &&& #[trigger] has_member(j, "slots"@, JsonView::Number(s))
            &&& a == records_in(bodies, 0, n)
            &&& s == records_in(bodies, n, 2 * n)
        }
    &&& has_member(j, "codes"@, JsonView::Number(number_in(bodies[2 * n]->Some_0@, "count"@)))
    &&& exists|sizes: JsonView| #[trigger]
        has_member(j, "sizes"@, sizes) && tells_sizes(sizes, bodies, n)
    &&& exists|t: JsonView| #[trigger]
        has_member(j, "sharded"@, t) && tells_two(t, options.shards as u64, options.shards as u64)
    &&& exists|t: JsonView| #[trigger] has_member(j, "record"@, t) && tells_two(t, 104, 96)
    &&& has_member(j, "keyed"@, JsonView::Text("hashed"@))
    &&& has_member(j, "part_bytes"@, JsonView::Number(options.part_bytes as u64))
    &&& has_member(j, "index_every"@, JsonView::Number(options.index_every))
    &&& has_member(j, "codes_index_every"@, JsonView::Number(options.codes_index_every))
}

proof fn lemma_meta_names()
    ensures
        "v"@.len() == 1,
        "block"@.len() == 5,
        "slots"@.len() == 5,
        "codes"@.len() == 5,
        "sizes"@.len() == 5,
        "keyed"@.len() == 5,
        "record"@.len() == 6,
        "sharded"@.len() == 7,
        "accounts"@.len() == 8,
        "part_bytes"@.len() == 10,
        "index_every"@.len() == 11,
        "codes_index_every"@.len() == 17,
        "block"@[0] == 'b',
        "slots"@[0] == 's',
        "slots"@[1] == 'l',
        "codes"@[0] == 'c',
        "sizes"@[0] == 's',
        "sizes"@[1] == 'i',
        "keyed"@[0] == 'k',
        "accounts"@[0] == 'a',
{
    reveal_strlit("v");
    reveal_strlit("block");
    reveal_strlit("slots");
    reveal_strlit("codes");
    reveal_strlit("sizes");
    reveal_strlit("keyed");
    reveal_strlit("record");
    reveal_strlit("sharded");
    reveal_strlit("accounts");
    reveal_strlit("part_bytes");
    reveal_strlit("index_every");
    reveal_strlit("codes_index_every");
}

proof fn lemma_total(
    bodies: Seq<Option<Vec<u8>>>,
    from: int,
    to: int,
    block: u64,
    c: Seq<Complete>,
)
    requires
        from <= to,
        export::all_complete(bodies, from, to, block, c),
    ensures
        export::total(c) == records_in(bodies, from, to),
    decreases to - from,
{
    if from < to {
        let p = c.drop_last();
        assert forall|i: int| 0 <= i < p.len() implies export::says_complete(
            bodies[from + i],
            block,
            #[trigger] p[i],
        ) by {
            assert(p[i] == c[i]);
        }
        lemma_total(bodies, from, to - 1, block, p);
        let n = c.len() - 1;
        assert(export::says_complete(bodies[from + n], block, c[n]));
        lemma_says_complete(bodies[from + n], block, c[n]);
    }
}

proof fn lemma_sizes_members(a: Seq<Complete>, s: Seq<Complete>, c: Complete, j: JsonView, i: int)
    requires
        a.len() <= u32::MAX,
        s.len() <= u32::MAX,
        j == JsonView::Object(
            export::shard_sizes("accounts"@, a) + export::shard_sizes("slots"@, s) + seq![
                ("codes"@, export::numbers_view(c.sizes@)),
            ],
        ),
        0 <= i <= a.len() + s.len(),
    ensures
        has_member(j, j->Object_0[i].0, j->Object_0[i].1),
{
    lemma_meta_names();
    let ms = j->Object_0;
    let n = a.len();
    let m = s.len();
    assert(ms.len() == n + m + 1);
    assert forall|k: int| 0 <= k < ms.len() && k != i implies (#[trigger] ms[k]).0 != ms[i].0 by {
        let x = ms[k].0;
        let y = ms[i].0;
        if k < n {
            assert(x == shard::shard_name_of("accounts"@, k as u32));
            lemma_shard_named("accounts"@, k as u32);
            assert(x.take(8)[0] == x[0]);
        } else if k < n + m {
            assert(x == shard::shard_name_of("slots"@, (k - n) as u32));
            lemma_shard_named("slots"@, (k - n) as u32);
            assert(x.take(5)[0] == x[0]);
        }
        if i < n {
            assert(y == shard::shard_name_of("accounts"@, i as u32));
            lemma_shard_named("accounts"@, i as u32);
            assert(y.take(8)[0] == y[0]);
        } else if i < n + m {
            assert(y == shard::shard_name_of("slots"@, (i - n) as u32));
            lemma_shard_named("slots"@, (i - n) as u32);
            assert(y.take(5)[0] == y[0]);
        }
    }
    published::lemma_member_at(j, i);
}

proof fn lemma_numbers(v: Seq<u64>)
    ensures
        is_numbers(export::numbers_view(v), v),
{
}

proof fn lemma_two(j: JsonView, accounts: u64, slots: u64)
    requires
        j == export::two_tables(accounts, slots),
    ensures
        tells_two(j, accounts, slots),
{
    lemma_meta_names();
    assert(j->Object_0.len() == 2);
    published::lemma_member_at(j, 0);
    published::lemma_member_at(j, 1);
}

/// What is published of the sizes: under each shard's name those that its own
/// marker says, and those of the codes.
pub open spec fn tells_sizes(
    sizes: JsonView,
    bodies: Seq<Option<Vec<u8>>>,
    n: int,
) -> bool {
    &&& forall|i: int| 0 <= i < n ==> tells_shard(sizes, "accounts"@, i, #[trigger] bodies[i])
    &&& forall|i: int|
        n <= i < 2 * n ==> tells_shard(sizes, "slots"@, i - n, #[trigger] bodies[i])
    &&& exists|list: JsonView| #[trigger]
        has_member(sizes, "codes"@, list) && is_numbers(list, sizes_in(bodies[2 * n]->Some_0@))
}

proof fn lemma_sizes_told(
    bodies: Seq<Option<Vec<u8>>>,
    block: u64,
    n: u32,
    a: Seq<Complete>,
    s: Seq<Complete>,
    c: Complete,
    sizes: JsonView,
)
    requires
        export::all_complete(bodies, 0, n as int, block, a),
        export::all_complete(bodies, n as int, 2 * n, block, s),
        export::says_complete(bodies[2 * n], block, c),
        sizes == JsonView::Object(
            export::shard_sizes("accounts"@, a) + export::shard_sizes("slots"@, s) + seq![
                ("codes"@, export::numbers_view(c.sizes@)),
            ],
        ),
    ensures
        tells_sizes(sizes, bodies, n as int),
{
    let ms = sizes->Object_0;
    assert forall|i: int| 0 <= i < n implies tells_shard(
        sizes,
        "accounts"@,
        i,
        #[trigger] bodies[i],
    ) by {
        lemma_sizes_members(a, s, c, sizes, i);
        lemma_shard_named("accounts"@, i as u32);
        assert(export::says_complete(bodies[0 + i], block, a[i]));
        lemma_says_complete(bodies[i], block, a[i]);
        lemma_numbers(a[i].sizes@);
        assert(ms[i] == (
            shard::shard_name_of("accounts"@, i as u32),
            export::numbers_view(a[i].sizes@),
        ));
        assert(has_member(sizes, ms[i].0, ms[i].1));
    }
    assert forall|i: int| n <= i < 2 * n implies tells_shard(
        sizes,
        "slots"@,
        i - n,
        #[trigger] bodies[i],
    ) by {
        lemma_sizes_members(a, s, c, sizes, i);
        lemma_shard_named("slots"@, (i - n) as u32);
        assert(export::says_complete(bodies[n + (i - n)], block, s[i - n]));
        lemma_says_complete(bodies[i], block, s[i - n]);
        lemma_numbers(s[i - n].sizes@);
        assert(ms[i] == (
            shard::shard_name_of("slots"@, (i - n) as u32),
            export::numbers_view(s[i - n].sizes@),
        ));
        assert(has_member(sizes, ms[i].0, ms[i].1));
    }
    lemma_sizes_members(a, s, c, sizes, 2 * n);
    lemma_says_complete(bodies[2 * n], block, c);
    lemma_numbers(c.sizes@);
    assert(ms[2 * n] == ("codes"@, export::numbers_view(c.sizes@)));
    assert(has_member(sizes, "codes"@, ms[2 * n].1));
}

proof fn lemma_meta_members(
    block: u64,
    a: Seq<Complete>,
    s: Seq<Complete>,
    c: Complete,
    options: Options,
    i: int,
)
    requires
        0 <= i < 12,
    ensures
        ({
            let j = export::meta_view(block, a, s, c, options);
            &&& j->Object_0.len() == 12
            &&& has_member(j, j->Object_0[i].0, j->Object_0[i].1)
        }),
{
    lemma_meta_names();
    let j = export::meta_view(block, a, s, c, options);
    assert(j->Object_0.len() == 12);
    published::lemma_member_at(j, i);
}

proof fn lemma_export_told(
    bodies: Seq<Option<Vec<u8>>>,
    block: u64,
    options: Options,
    a: Seq<Complete>,
    s: Seq<Complete>,
    c: Complete,
)
    requires
        export::all_complete(bodies, 0, options.shards as int, block, a),
        export::all_complete(bodies, options.shards as int, 2 * options.shards, block, s),
        export::says_complete(bodies[2 * options.shards], block, c),
        export::total(a) <= u64::MAX,
        export::total(s) <= u64::MAX,
    ensures
        tells_export(
            export::meta_view(block, a, s, c, options),
            bodies,
            block,
            options,
        ),
{
    let n = options.shards as int;
    let j = export::meta_view(block, a, s, c, options);
    let ms = j->Object_0;
    lemma_total(bodies, 0, n, block, a);
    lemma_total(bodies, n, 2 * n, block, s);
    lemma_says_complete(bodies[2 * n], block, c);
    lemma_records_positive(bodies, 0, n);
    lemma_records_positive(bodies, n, 2 * n);
    lemma_meta_members(block, a, s, c, options, 0);
    lemma_meta_members(block, a, s, c, options, 1);
    lemma_meta_members(block, a, s, c, options, 2);
    lemma_meta_members(block, a, s, c, options, 3);
    lemma_meta_members(block, a, s, c, options, 4);
    lemma_meta_members(block, a, s, c, options, 5);
    lemma_meta_members(block, a, s, c, options, 6);
    lemma_meta_members(block, a, s, c, options, 7);
    lemma_meta_members(block, a, s, c, options, 8);
    lemma_meta_members(block, a, s, c, options, 9);
    lemma_meta_members(block, a, s, c, options, 10);
    lemma_meta_members(block, a, s, c, options, 11);
    assert(has_member(j, "accounts"@, JsonView::Number(export::total(a) as u64)));
    assert(has_member(j, "slots"@, JsonView::Number(export::total(s) as u64)));
    lemma_two(ms[5].1, options.shards as u64, options.shards as u64);
    assert(has_member(j, "sharded"@, ms[5].1));
    lemma_two(ms[7].1, 104, 96);
    assert(has_member(j, "record"@, ms[7].1));
    lemma_sizes_told(bodies, block, options.shards, a, s, c, ms[6].1);
    assert(has_member(j, "sizes"@, ms[6].1));
}

proof fn lemma_records_positive(bodies: Seq<Option<Vec<u8>>>, from: int, to: int)
    ensures
        records_in(bodies, from, to) >= 0,
    decreases to - from,
{
    if from < to {
        lemma_records_positive(bodies, from, to - 1);
    }
}

proof fn lemma_all_complete(
    bodies: Seq<Option<Vec<u8>>>,
    from: int,
    to: int,
    block: u64,
    c: Seq<Complete>,
)
    requires
        0 <= from <= to,
        export::all_complete(bodies, from, to, block, c),
    ensures
        forall|i: int| from <= i < to ==> complete_at(#[trigger] bodies[i], block),
{
    assert forall|i: int| from <= i < to implies complete_at(#[trigger] bodies[i], block) by {
        assert(export::says_complete(bodies[from + (i - from)], block, c[i - from]));
        lemma_says_complete(bodies[i], block, c[i - from]);
    }
}

/// An export is published only where every marker says that its table is complete at
/// this very block, and then each table is published with what its own marker says:
/// its count, and the sizes of its parts under the shard's own name. The markers are
/// those of the account shards, those of the slot shards, and that of the codes, in
/// this order.
pub proof fn lemma_published_export(
    bodies: Vec<Option<Vec<u8>>>,
    block: u64,
    options: Options,
    m: Json,
)
    requires
        bodies@.len() == 2 * options.shards + 1,
        call_ensures(
            export::finalize,
            (&bodies, block, &options),
            Ok::<Json, NotFinal>(m),
        ),
    ensures
        forall|i: int| 0 <= i < bodies@.len() ==> complete_at(#[trigger] bodies@[i], block),
        tells_export(m@, bodies@, block, options),
{
    let n = options.shards as int;
    let (a, s, c) = choose|a: Seq<Complete>, s: Seq<Complete>, c: Complete|
        {
            &&& #[trigger] export::all_complete(bodies@, 0, n, block, a)
            &&& #[trigger] export::all_complete(bodies@, n, 2 * options.shards, block, s)
            &&& #[trigger] export::says_complete(bodies@[2 * options.shards], block, c)
            &&& export::total(a) <= u64::MAX
            &&& export::total(s) <= u64::MAX
            &&& m@ == export::meta_view(block, a, s, c, options)
        };
    lemma_export_told(bodies@, block, options, a, s, c);
    lemma_all_complete(bodies@, 0, n, block, a);
    lemma_all_complete(bodies@, n, 2 * n, block, s);
    lemma_says_complete(bodies@[2 * n], block, c);
}

/// An export is not published only where a table is not complete, the first such, or
/// where a table has more records than can be counted.
pub proof fn lemma_unpublished_export(
    bodies: Vec<Option<Vec<u8>>>,
    block: u64,
    options: Options,
    e: NotFinal,
)
    requires
        bodies@.len() == 2 * options.shards + 1,
        call_ensures(
            export::finalize,
            (&bodies, block, &options),
            Err::<Json, NotFinal>(e),
        ),
    ensures
        e matches NotFinal::Table { at, .. } ==> {
            &&& at < bodies@.len()
            &&& !complete_at(bodies@[at as int], block)
            &&& forall|i: int| 0 <= i < at ==> complete_at(#[trigger] bodies@[i], block)
        },
        e matches NotFinal::Overflow { at } ==> {
            &&& at < 2 * options.shards
            &&& at < options.shards ==> records_in(bodies@, 0, at + 1) > u64::MAX
            &&& at >= options.shards ==> records_in(bodies@, options.shards as int, at + 1)
                > u64::MAX
        },
{
    match e {
        NotFinal::Table { at, why } => {
            lemma_says_incomplete(bodies@[at as int], block, why);
            let c = choose|c: Seq<Complete>| #[trigger]
                export::all_complete(bodies@, 0, at as int, block, c);
            lemma_all_complete(bodies@, 0, at as int, block, c);
        },
        NotFinal::Overflow { at } => {
            let from = export::group_start(at as int, options.shards);
            let c = choose|c: Seq<Complete>| #[trigger]
                export::all_complete(bodies@, from, at + 1, block, c) && export::total(c)
                    > u64::MAX;
            lemma_total(bodies@, from, at + 1, block, c);
        },
    }
}

/// The markers that an export is published from are those of its tables, in the
/// order in which they are asked for: each account shard, each slot shard, the codes.
pub proof fn lemma_marker_names(shards: u32, r: Vec<String>)
    requires
        call_ensures(export::marker_names, (shards,), r),
    ensures
        r@.len() == 2 * shards + 1,
        forall|i: int| 0 <= i < shards ==> names_shard((#[trigger] r@[i])@, "accounts"@, i),
        forall|i: int|
            shards <= i < 2 * shards ==> names_shard((#[trigger] r@[i])@, "slots"@, i - shards),
        r@[2 * shards]@ == "codes"@,
{
    assert forall|i: int| 0 <= i < shards implies names_shard(
        (#[trigger] r@[i])@,
        "accounts"@,
        i,
    ) by {
        lemma_shard_named("accounts"@, i as u32);
    }
    assert forall|i: int| shards <= i < 2 * shards implies names_shard(
        (#[trigger] r@[i])@,
        "slots"@,
        i - shards,
    ) by {
        lemma_shard_named("slots"@, (i - shards) as u32);
    }
}

/// The records of these tables together.
pub open spec fn records_of(tables: Seq<Complete>) -> int {
    tables.fold_left(0int, |sum: int, c: Complete| sum + c.count)
}

proof fn lemma_records_of(tables: Seq<Complete>)
    ensures
        export::total(tables) == records_of(tables),
        0 <= export::total(tables),
    decreases tables.len(),
{
    let f = |sum: int, c: Complete| sum + c.count;
    if tables.len() > 0 {
        lemma_records_of(tables.drop_last());
        reveal(Seq::fold_left);
        assert(tables.fold_left(0int, f) == f(
            tables.drop_last().fold_left(0int, f),
            tables.last(),
        ));
    } else {
        reveal(Seq::fold_left);
    }
}

/// The object `sizes` has, under the name of shard `i` of `table`, these sizes.
pub open spec fn has_shard(sizes: JsonView, table: Seq<char>, i: int, v: Seq<u64>) -> bool {
    exists|name: Seq<char>, list: JsonView|
        {
            &&& #[trigger] has_member(sizes, name, list)
            &&& names_shard(name, table, i)
            &&& is_numbers(list, v)
        }
}

/// What is published of tables that are complete: the records of all shards of a
/// table, and under each shard's own name the sizes of that shard's parts.
pub proof fn lemma_meta(
    block: u64,
    accounts: Vec<Complete>,
    slots: Vec<Complete>,
    codes: Complete,
    options: Options,
    r: Json,
)
    requires
        accounts@.len() == options.shards,
        slots@.len() == options.shards,
        records_of(accounts@) <= u64::MAX,
        records_of(slots@) <= u64::MAX,
        call_ensures(export::meta, (block, &accounts, &slots, &codes, &options), r),
    ensures
        has_member(r@, "block"@, JsonView::Number(block)),
        has_member(r@, "accounts"@, JsonView::Number(records_of(accounts@) as u64)),
        has_member(r@, "slots"@, JsonView::Number(records_of(slots@) as u64)),
        has_member(r@, "codes"@, JsonView::Number(codes.count)),
        exists|sizes: JsonView|
            {
                &&& #[trigger] has_member(r@, "sizes"@, sizes)
                &&& forall|i: int|
                    0 <= i < accounts@.len() ==> has_shard(
                        sizes,
                        "accounts"@,
                        i,
                        (#[trigger] accounts@[i]).sizes@,
                    )
                &&& forall|i: int|
                    0 <= i < slots@.len() ==> has_shard(
                        sizes,
                        "slots"@,
                        i,
                        (#[trigger] slots@[i]).sizes@,
                    )
                &&& exists|list: JsonView| #[trigger]
                    has_member(sizes, "codes"@, list) && is_numbers(list, codes.sizes@)
            },
{
    let a = accounts@;
    let s = slots@;
    let n = a.len();
    lemma_records_of(a);
    lemma_records_of(s);
    lemma_meta_members(block, a, s, codes, options, 1);
    lemma_meta_members(block, a, s, codes, options, 2);
    lemma_meta_members(block, a, s, codes, options, 3);
    lemma_meta_members(block, a, s, codes, options, 4);
    lemma_meta_members(block, a, s, codes, options, 6);
    let sizes = r@->Object_0[6].1;
    let ms = sizes->Object_0;
    assert(has_member(r@, "sizes"@, sizes));
    assert forall|i: int| 0 <= i < a.len() implies has_shard(
        sizes,
        "accounts"@,
        i,
        (#[trigger] a[i]).sizes@,
    ) by {
        lemma_sizes_members(a, s, codes, sizes, i);
        lemma_shard_named("accounts"@, i as u32);
        lemma_numbers(a[i].sizes@);
        assert(ms[i] == (
            shard::shard_name_of("accounts"@, i as u32),
            export::numbers_view(a[i].sizes@),
        ));
        assert(has_member(sizes, ms[i].0, ms[i].1));
    }
    assert forall|i: int| 0 <= i < s.len() implies has_shard(
        sizes,
        "slots"@,
        i,
        (#[trigger] s[i]).sizes@,
    ) by {
        let k = n + i;
        lemma_sizes_members(a, s, codes, sizes, k);
        lemma_shard_named("slots"@, i as u32);
        lemma_numbers(s[i].sizes@);
        assert(ms[k] == (
            shard::shard_name_of("slots"@, i as u32),
            export::numbers_view(s[i].sizes@),
        ));
        assert(has_member(sizes, ms[k].0, ms[k].1));
    }
    lemma_sizes_members(a, s, codes, sizes, (a.len() + s.len()) as int);
    lemma_numbers(codes.sizes@);
    assert(ms[(a.len() + s.len()) as int] == ("codes"@, export::numbers_view(codes.sizes@)));
    assert(has_member(sizes, "codes"@, ms[(a.len() + s.len()) as int].1));
}

// ------------------------------------------------------------------- options

/// Which table has which name, and whether it is exported or can be warmed.
pub proof fn lemma_tables(
    name: &str,
    named: Option<Table>,
    only: Option<Table>,
    t: Table,
    wanted: bool,
    warmed: bool,
    published: bool,
    succeeds: bool,
)
    requires
        call_ensures(export::table_named, (name,), named),
        call_ensures(export::wants, (only, t), wanted),
        call_ensures(export::can_warm, (t,), warmed),
        call_ensures(export::run_succeeds, (only, published), succeeds),
    ensures
        named == Some(Table::Accounts) <==> name@ == "accounts"@,
        named == Some(Table::Slots) <==> name@ == "slots"@,
        named == Some(Table::Codes) <==> name@ == "codes"@,
        only is None ==> wanted,
        only is Some ==> (wanted <==> only == Some(t)),
        warmed <==> t != Table::Accounts,
        published ==> succeeds,
        !published && only is None ==> !succeeds,
        only is Some ==> succeeds,
{
    lemma_meta_names();
    assert(export::table_name_of(Table::Accounts) == "accounts"@);
    assert(export::table_name_of(Table::Slots) == "slots"@);
    assert(export::table_name_of(Table::Codes) == "codes"@);
}

/// A table's name is read back as the table.
pub proof fn lemma_table_name(
    t: Table,
    r: &str,
    named: Option<Table>,
    any: &str,
    found: Option<Table>,
)
    requires
        call_ensures(export::table_name, (t,), r),
        call_ensures(export::table_named, (r,), named),
        call_ensures(export::table_named, (any,), found),
    ensures
        named == Some(t),
        found == Some(Table::Accounts) <==> any@ == "accounts"@,
        found == Some(Table::Slots) <==> any@ == "slots"@,
        found == Some(Table::Codes) <==> any@ == "codes"@,
{
    lemma_meta_names();
    assert(export::table_name_of(Table::Accounts) == "accounts"@);
    assert(export::table_name_of(Table::Slots) == "slots"@);
    assert(export::table_name_of(Table::Codes) == "codes"@);
}

proof fn lemma_finish_height(stages: Seq<(String, u64)>)
    ensures
        (exists|k: int|
            {
                &&& 0 <= k < stages.len()
                &&& (#[trigger] stages[k]).0@ == "Finish"@
                &&& stages[k].1 == export::finish_height(stages)
                &&& forall|j: int| k < j < stages.len() ==> (#[trigger] stages[j]).0@ != "Finish"@
            }) || (export::finish_height(stages) == 0 && forall|j: int|
            0 <= j < stages.len() ==> (#[trigger] stages[j]).0@ != "Finish"@),
    decreases stages.len(),
{
    if stages.len() > 0 {
        let p = stages.drop_last();
        let n = stages.len() - 1;
        lemma_finish_height(p);
        if stages.last().0@ == "Finish"@ {
            assert(stages[n].0@ == "Finish"@);
        } else if exists|k: int|
            {
                &&& 0 <= k < p.len()
                &&& (#[trigger] p[k]).0@ == "Finish"@
                &&& p[k].1 == export::finish_height(p)
                &&& forall|j: int| k < j < p.len() ==> (#[trigger] p[j]).0@ != "Finish"@
            } {
            let k = choose|k: int|
                {
                    &&& 0 <= k < p.len()
                    &&& (#[trigger] p[k]).0@ == "Finish"@
                    &&& p[k].1 == export::finish_height(p)
                    &&& forall|j: int| k < j < p.len() ==> (#[trigger] p[j]).0@ != "Finish"@
                };
            assert(stages[k] == p[k]);
            assert forall|j: int| k < j < stages.len() implies (#[trigger] stages[j]).0@
                != "Finish"@ by {
                if j < n {
                    assert(p[j] == stages[j]);
                }
            }
        } else {
            assert forall|j: int| 0 <= j < stages.len() implies (#[trigger] stages[j]).0@
                != "Finish"@ by {
                if j < n {
                    assert(p[j] == stages[j]);
                }
            }
        }
    }
}

/// The state is exported at the height of the last checkpoint of `Finish`, and not at
/// all where there is none above zero.
pub proof fn lemma_anchor(stages: Vec<(String, u64)>, r: Option<u64>, k: int)
    requires
        call_ensures(export::anchor, (&stages,), r),
        0 <= k < stages@.len(),
        stages@[k].0@ == "Finish"@,
        forall|j: int| k < j < stages@.len() ==> (#[trigger] stages@[j]).0@ != "Finish"@,
    ensures
        stages@[k].1 > 0 ==> r == Some(stages@[k].1),
        stages@[k].1 == 0 ==> r is None,
{
    lemma_finish_height(stages@);
    let i = choose|i: int|
        {
            &&& 0 <= i < stages@.len()
            &&& (#[trigger] stages@[i]).0@ == "Finish"@
            &&& stages@[i].1 == export::finish_height(stages@)
            &&& forall|j: int| i < j < stages@.len() ==> (#[trigger] stages@[j]).0@ != "Finish"@
        };
    assert(stages@[i].0@ == "Finish"@);
}

/// Without a checkpoint of `Finish` nothing is exported.
pub proof fn lemma_unanchored(stages: Vec<(String, u64)>, r: Option<u64>)
    requires
        call_ensures(export::anchor, (&stages,), r),
        forall|j: int| 0 <= j < stages@.len() ==> (#[trigger] stages@[j]).0@ != "Finish"@,
    ensures
        r is None,
{
    lemma_finish_height(stages@);
}

proof fn lemma_unslashed(s: Seq<char>)
    ensures
        export::unslashed(s).len() <= s.len(),
        s.take(export::unslashed(s).len() as int) == export::unslashed(s),
        export::unslashed(s).len() > 0 ==> export::unslashed(s).last() != '/',
        forall|i: int| export::unslashed(s).len() <= i < s.len() ==> #[trigger] s[i] == '/',
    decreases s.len(),
{
    if s.len() > 0 && s.last() == '/' {
        let p = s.drop_last();
        lemma_unslashed(p);
        let n = export::unslashed(s).len() as int;
        assert(s.take(n) =~= p.take(n));
        assert forall|i: int| n <= i < s.len() implies #[trigger] s[i] == '/' by {
            if i < p.len() {
                assert(p[i] == s[i]);
            }
        }
    } else {
        assert(s.take(s.len() as int) =~= s);
    }
}

/// Objects are stored under the place that was named, without the slashes at its end,
/// a slash, and the object's key.
pub proof fn lemma_object_path(place: &str, base: String, root: &str, key: &str, path: String)
    requires
        call_ensures(export::store_base, (place,), base),
        call_ensures(export::object_path, (root, key), path),
    ensures
        base@.len() <= place@.len(),
        place@.take(base@.len() as int) == base@,
        base@.len() > 0 ==> base@.last() != '/',
        forall|i: int| base@.len() <= i < place@.len() ==> #[trigger] place@[i] == '/',
        path@.len() == root@.len() + 1 + key@.len(),
        path@.take(root@.len() as int) == root@,
        path@[root@.len() as int] == '/',
        path@.skip(root@.len() as int + 1) == key@,
{
    lemma_unslashed(place@);
    reveal_strlit("/");
    assert(path@.take(root@.len() as int) =~= root@);
    assert(path@.skip(root@.len() as int + 1) =~= key@);
}

} // verus!
