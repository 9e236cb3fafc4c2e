//! What an export as a whole decides: which tables are walked, at which
//! height, and what is published when all of them are complete.

use vstd::prelude::*;

use crate::json;
use crate::json::{add_member, Json, JsonView};
use crate::marker;
use crate::marker::{read_values, MarkerValues, MarkerView};
use crate::shard;
use crate::shard::shard_name;
use crate::text;
use crate::walk::{Row, RowView, Table};

verus! {

// ------------------------------------------------------------------ options

/// The table's name.
pub open spec fn table_name_of(t: Table) -> Seq<char> {
    match t {
        Table::Accounts => "accounts"@,
        Table::Slots => "slots"@,
        Table::Codes => "codes"@,
    }
}

/// The table's name.
pub fn table_name(t: Table) -> (r: &'static str)
    ensures
        r@ == table_name_of(t),
{
    match t {
        Table::Accounts => "accounts",
        Table::Slots => "slots",
        Table::Codes => "codes",
    }
}

/// No table has this name.
pub open spec fn no_table(name: Seq<char>) -> bool {
    forall|t: Table| name != #[trigger] table_name_of(t)
}

/// The table of this name, if there is one.
pub fn table_named(name: &str) -> (r: Option<Table>)
    ensures
        match r {
            Some(t) => name@ == table_name_of(t),
            None => no_table(name@),
        },
{
    let name: String = name.to_owned();
    if name == "accounts".to_owned() {
        Some(Table::Accounts)
    } else if name == "slots".to_owned() {
        Some(Table::Slots)
    } else if name == "codes".to_owned() {
        Some(Table::Codes)
    } else {
        assert forall|t: Table| name@ != #[trigger] table_name_of(t) by {
            match t {
                Table::Accounts => {},
                Table::Slots => {},
                Table::Codes => {},
            }
        }
        None
    }
}

/// Whether table `t` is exported, when `only` one was asked for or all.
pub fn wants(only: Option<Table>, t: Table) -> (r: bool)
    ensures
        r == (only is None || only == Some(t)),
{
    match only {
        None => true,
        Some(o) => o == t,
    }
}

/// Whether the pages of this table can be warmed.
pub fn can_warm(t: Table) -> (r: bool)
    ensures
        r == (t == Table::Codes || t == Table::Slots),
{
    t == Table::Codes || t == Table::Slots
}

/// What a row adds to the count of bytes that a warmer has touched.
pub fn warmed_bytes(row: &Row) -> (r: u64)
    ensures
        r == (match row@ {
            RowView::Code { bytes, .. } => bytes.len() as u64,
            _ => 128,
        }),
{
    match row {
        Row::Code { bytes, .. } => bytes.len() as u64,
        _ => 128,
    }
}

/// `s` without the slashes that it ends with.
pub open spec fn unslashed(s: Seq<char>) -> Seq<char>
    decreases s.len(),
{
    if s.len() > 0 && s.last() == '/' {
        unslashed(s.drop_last())
    } else {
        s
    }
}

/// The place that objects are stored under: without slashes at the end.
pub fn store_base(s: &str) -> (r: String)
    ensures
        r@ == unslashed(s@),
{
    let v = text::chars_of(s);
    let mut n: usize = v.len();
    assert(v@.take(n as int) =~= v@);
    while n > 0 && v[n - 1] == '/'
        invariant
            n <= v@.len(),
            unslashed(s@) == unslashed(v@.take(n as int)),
        decreases n,
    {
        assert(v@.take(n as int).drop_last() =~= v@.take(n - 1));
        n = n - 1;
    }
    let mut out = String::new();
    let mut i: usize = 0;
    while i < n
        invariant
            i <= n <= v@.len(),
            out@ == v@.take(i as int),
        decreases n - i,
    {
        out.push(v[i]);
        assert(out@ =~= v@.take(i + 1));
        i = i + 1;
    }
    out
}

/// Where the object `key` is stored.
pub fn object_path(base: &str, key: &str) -> (r: String)
    ensures
        r@ == base@ + "/"@ + key@,
{
    let mut path: String = base.to_owned();
    path.append("/");
    path.append(key);
    assert(path@ =~= base@ + "/"@ + key@);
    path
}

/// The height that the last checkpoint of the stage `Finish` names, zero where
/// there is none.
pub open spec fn finish_height(stages: Seq<(String, u64)>) -> u64
    decreases stages.len(),
{
    if stages.len() == 0 {
        0
    } else if stages.last().0@ == "Finish"@ {
        stages.last().1
    } else {
        finish_height(stages.drop_last())
    }
}

/// The height at which the state is exported, or `None` where nothing anchors
/// it.
pub fn anchor(stages: &Vec<(String, u64)>) -> (r: Option<u64>)
    ensures
        r == (if finish_height(stages@) > 0 {
            Some(finish_height(stages@))
        } else {
            None
        }),
{
    let finish: String = "Finish".to_owned();
    let mut block: u64 = 0;
    let mut i: usize = 0;
    while i < stages.len()
        invariant
            i <= stages@.len(),
            finish@ == "Finish"@,
            block == finish_height(stages@.take(i as int)),
        decreases stages@.len() - i,
    {
        assert(stages@.take(i + 1).drop_last() =~= stages@.take(i as int));
        if stages[i].0 == finish {
            block = stages[i].1;
        }
        i = i + 1;
    }
    assert(stages@.take(i as int) =~= stages@);
    if block > 0 {
        Some(block)
    } else {
        None
    }
}

// ----------------------------------------------------------------- finalize

/// Why a table does not count as complete.
#[derive(Debug)]
pub enum Incomplete {
    /// There is no progress marker: the table was not exported.
    NoMarker,
    /// The marker is no JSON.
    Json(serde_json::Error),
    /// The marker says otherwise.
    Says(Lacks),
}

/// What a marker lacks.
#[derive(Clone, Copy, Debug, PartialEq, Eq, Structural)]
pub enum Lacks {
    /// The table is not marked as complete.
    Done,
    /// The marker is for another block.
    Block { marker: Option<u64>, database: u64 },
    /// The marker does not have one size for each part.
    Sizes { part: Option<u64>, sizes: usize },
}

/// The records and the sizes of the parts of a complete table.
#[derive(Debug)]
pub struct Complete {
    pub count: u64,
    pub sizes: Vec<u64>,
}

/// What a marker lacks for its table to be complete at `block`.
pub open spec fn lacks(m: MarkerView, block: u64) -> Option<Lacks> {
    let sizes = marker::sizes_in(m.sizes);
    if m.done != Some(true) {
        Some(Lacks::Done)
    } else if m.block != Some(block) {
        Some(Lacks::Block { marker: m.block, database: block })
    } else if sizes.len() != marker::or_zero(m.part) as usize {
        Some(Lacks::Sizes { part: m.part, sizes: sizes.len() as usize })
    } else {
        None
    }
}

/// Whether a table whose marker was found to hold `values` is complete.
pub fn complete_from(values: &MarkerValues, block: u64) -> (r: Result<Complete, Lacks>)
    ensures
        match r {
            Ok(c) => {
                &&& lacks(values@, block) is None
                &&& c.count == marker::or_zero(values@.count)
                &&& c.sizes@ == marker::sizes_in(values@.sizes)
            },
            Err(e) => lacks(values@, block) == Some(e),
        },
{
    if values.done != Some(true) {
        return Err(Lacks::Done);
    }
    if values.block != Some(block) {
        return Err(Lacks::Block { marker: values.block, database: block });
    }
    let sizes: Vec<u64> = marker::sizes_from(&values.sizes);
    let part: u64 = marker::number_or_zero(values.part);
    if sizes.len() != #[verifier::truncate] (part as usize) {
        return Err(Lacks::Sizes { part: values.part, sizes: sizes.len() });
    }
    Ok(Complete { count: marker::number_or_zero(values.count), sizes })
}

/// The bytes are a marker that says of its table that it is complete at
/// `block`, with this count and these sizes.
pub open spec fn says_complete(body: Option<Vec<u8>>, block: u64, c: Complete) -> bool {
    &&& body is Some
    &&& marker::parsed(body->Some_0@) is Some
    &&& lacks(marker::values_in(marker::parsed(body->Some_0@)->Some_0), block) is None
    &&& c.count == marker::or_zero(
        marker::values_in(marker::parsed(body->Some_0@)->Some_0).count,
    )
    &&& c.sizes@ == marker::sizes_in(
        marker::values_in(marker::parsed(body->Some_0@)->Some_0).sizes,
    )
}

/// The bytes are no such marker, for this reason.
pub open spec fn says_incomplete(body: Option<Vec<u8>>, block: u64, e: Incomplete) -> bool {
    match e {
        Incomplete::NoMarker => body is None,
        Incomplete::Json(_) => body is Some && marker::parsed(body->Some_0@) is None,
        Incomplete::Says(l) => {
            &&& body is Some
            &&& marker::parsed(body->Some_0@) is Some
            &&& lacks(marker::values_in(marker::parsed(body->Some_0@)->Some_0), block) == Some(l)
        },
    }
}

/// Whether a table with this progress marker is complete at `block`.
pub fn read_marker(body: &Option<Vec<u8>>, block: u64) -> (r: Result<Complete, Incomplete>)
    ensures
        match r {
            Ok(c) => says_complete(*body, block, c),
            Err(e) => says_incomplete(*body, block, e),
        },
{
    match body {
        None => Err(Incomplete::NoMarker),
        Some(b) => match read_values(b.as_slice()) {
            Err(e) => Err(Incomplete::Json(e)),
            Ok(values) => match complete_from(&values, block) {
                Ok(c) => Ok(c),
                Err(e) => Err(Incomplete::Says(e)),
            },
        },
    }
}

/// A table that is marked as complete by the sink that wrote it counts as
/// complete, with the count and the sizes that the sink had.
pub proof fn lemma_done_marker_is_complete(block: u64, p: marker::ProgressView)
    requires
        p.sizes.len() == p.part,
        p.done,
    ensures
        lacks(marker::values_of(marker::marker_members(block, p)), block) is None,
        marker::or_zero(marker::values_of(marker::marker_members(block, p)).count) == p.count,
        marker::sizes_in(marker::values_of(marker::marker_members(block, p)).sizes) == p.sizes,
{
    marker::lemma_marker_values(block, p);
    let m = marker::values_of(marker::marker_members(block, p));
    assert(marker::sizes_in(m.sizes) == p.sizes);
    assert(marker::or_zero(m.part) as usize == p.part);
}

/// What was asked of the export.
#[derive(Clone, Copy, Debug, PartialEq, Eq, Structural)]
pub struct Options {
    /// How many shards accounts and slots are walked in.
    pub shards: u32,
    /// The size at which a part is shipped.
    pub part_bytes: usize,
    /// Every so manieth account and slot has an index entry.
    pub index_every: u64,
    /// Every so manieth code has an index entry.
    pub codes_index_every: u64,
}

/// The records of these tables.
pub open spec fn total(tables: Seq<Complete>) -> int
    decreases tables.len(),
{
    if tables.len() == 0 {
        0
    } else {
        total(tables.drop_last()) + tables.last().count
    }
}

/// The sizes of the parts of the shards of a table, by the shards' names.
pub open spec fn shard_sizes(table: Seq<char>, shards: Seq<Complete>) -> Seq<
    (Seq<char>, JsonView),
> {
    Seq::new(
        shards.len(),
        |i: int| (shard::shard_name_of(table, i as u32), numbers_view(shards[i].sizes@)),
    )
}

/// An array of numbers.
pub open spec fn numbers_view(v: Seq<u64>) -> JsonView {
    JsonView::List(v.map_values(|n: u64| JsonView::Number(n)))
}

/// An object with one number for the accounts and one for the slots.
pub open spec fn two_tables(accounts: u64, slots: u64) -> JsonView {
    JsonView::Object(
        seq![
            ("accounts"@, JsonView::Number(accounts)),
            ("slots"@, JsonView::Number(slots)),
        ],
    )
}

/// What is published of an export of which every table is complete.
pub open spec fn meta_view(
    block: u64,
    accounts: Seq<Complete>,
    slots: Seq<Complete>,
    codes: Complete,
    options: Options,
) -> JsonView {
    JsonView::Object(
        seq![
            ("v"@, JsonView::Number(3)),
            ("block"@, JsonView::Number(block)),
            ("accounts"@, JsonView::Number(total(accounts) as u64)),
            ("slots"@, JsonView::Number(total(slots) as u64)),
            ("codes"@, JsonView::Number(codes.count)),
            ("sharded"@, two_tables(options.shards as u64, options.shards as u64)),
            (
                "sizes"@,
                JsonView::Object(
                    shard_sizes("accounts"@, accounts) + shard_sizes("slots"@, slots) + seq![
                        ("codes"@, numbers_view(codes.sizes@)),
                    ],
                ),
            ),
            ("record"@, two_tables(104, 96)),
            ("keyed"@, JsonView::Text("hashed"@)),
            ("part_bytes"@, JsonView::Number(options.part_bytes as u64)),
            ("index_every"@, JsonView::Number(options.index_every)),
            ("codes_index_every"@, JsonView::Number(options.codes_index_every)),
        ],
    )
}

fn two_numbers(accounts: u64, slots: u64) -> (r: Json)
    ensures
        r@ == two_tables(accounts, slots),
{
    let mut members: Vec<(String, Json)> = Vec::new();
    add_member(&mut members, "accounts", Json::Number(accounts));
    add_member(&mut members, "slots", Json::Number(slots));
    assert(json::members_view(members@) =~= two_tables(accounts, slots)->Object_0);
    Json::object(members)
}

fn add_sizes(members: &mut Vec<(String, Json)>, table: &str, shards: &Vec<Complete>)
    requires
        shards@.len() <= u32::MAX,
    ensures
        json::members_view(final(members)@) == json::members_view(old(members)@) + shard_sizes(
            table@,
            shards@,
        ),
{
    let ghost before = json::members_view(members@);
    let mut i: usize = 0;
    assert(before =~= before + shard_sizes(table@, shards@).take(0));
    while i < shards.len()
        invariant
            i <= shards@.len() <= u32::MAX,
            json::members_view(members@) == before + shard_sizes(table@, shards@).take(i as int),
        decreases shards@.len() - i,
    {
        let name = shard_name(table, i as u32);
        add_member(members, name.as_str(), Json::numbers(&shards[i].sizes));
        assert(json::members_view(members@) =~= before + shard_sizes(table@, shards@).take(i + 1));
        i = i + 1;
    }
    assert(shard_sizes(table@, shards@).take(i as int) =~= shard_sizes(table@, shards@));
}

fn count_all(shards: &Vec<Complete>) -> (r: u64)
    requires
        total(shards@) <= u64::MAX,
    ensures
        r == total(shards@),
{
    let mut sum: u64 = 0;
    let mut i: usize = 0;
    while i < shards.len()
        invariant
            i <= shards@.len(),
            sum == total(shards@.take(i as int)),
            total(shards@) <= u64::MAX,
        decreases shards@.len() - i,
    {
        assert(shards@.take(i + 1).drop_last() =~= shards@.take(i as int));
        proof {
            lemma_total_prefix(shards@, i + 1);
        }
        sum = sum + shards[i].count;
        i = i + 1;
    }
    assert(shards@.take(i as int) =~= shards@);
    sum
}

proof fn lemma_total_prefix(tables: Seq<Complete>, k: int)
    requires
        0 <= k <= tables.len(),
    ensures
        0 <= total(tables.take(k)) <= total(tables),
    decreases tables.len(),
{
    if k == tables.len() {
        assert(tables.take(k) =~= tables);
        if k > 0 {
            lemma_total_prefix(tables.drop_last(), k - 1);
        }
    } else {
        lemma_total_prefix(tables.drop_last(), k);
        assert(tables.drop_last().take(k) =~= tables.take(k));
    }
}

/// What is published of an export of which every table is complete.
pub fn meta(
    block: u64,
    accounts: &Vec<Complete>,
    slots: &Vec<Complete>,
    codes: &Complete,
    options: &Options,
) -> (r: Json)
    requires
        accounts@.len() == options.shards,
        slots@.len() == options.shards,
        total(accounts@) <= u64::MAX,
        total(slots@) <= u64::MAX,
    ensures
        r@ == meta_view(block, accounts@, slots@, *codes, *options),
{
    let mut sizes: Vec<(String, Json)> = Vec::new();
    assert(json::members_view(sizes@) =~= Seq::empty());
    add_sizes(&mut sizes, "accounts", accounts);
    add_sizes(&mut sizes, "slots", slots);
    add_member(&mut sizes, "codes", Json::numbers(&codes.sizes));
    let ghost whole = meta_view(block, accounts@, slots@, *codes, *options)->Object_0;
    assert(json::members_view(sizes@) =~= shard_sizes("accounts"@, accounts@) + shard_sizes(
        "slots"@,
        slots@,
    ) + seq![("codes"@, numbers_view(codes.sizes@))]);
    let mut members: Vec<(String, Json)> = Vec::new();
    add_member(&mut members, "v", Json::Number(3));
    add_member(&mut members, "block", Json::Number(block));
    add_member(&mut members, "accounts", Json::Number(count_all(accounts)));
    add_member(&mut members, "slots", Json::Number(count_all(slots)));
    add_member(&mut members, "codes", Json::Number(codes.count));
    add_member(
        &mut members,
        "sharded",
        two_numbers(options.shards as u64, options.shards as u64),
    );
    add_member(&mut members, "sizes", Json::object(sizes));
    add_member(&mut members, "record", two_numbers(104, 96));
    add_member(&mut members, "keyed", Json::text("hashed"));
    add_member(&mut members, "part_bytes", Json::Number(options.part_bytes as u64));
    add_member(&mut members, "index_every", Json::Number(options.index_every));
    add_member(&mut members, "codes_index_every", Json::Number(options.codes_index_every));
    assert(json::members_view(members@) =~= whole);
    Json::object(members)
}

/// Why an export is not published.
#[derive(Debug)]
pub enum NotFinal {
    /// The table whose marker stands at this place is not complete.
    Table { at: usize, why: Incomplete },
    /// The counts of a table's shards, up to that whose marker stands at this
    /// place, are more than can be counted.
    Overflow { at: usize },
}

/// The tables with markers `from` up to `to` are complete with `c`.
pub open spec fn all_complete(
    bodies: Seq<Option<Vec<u8>>>,
    from: int,
    to: int,
    block: u64,
    c: Seq<Complete>,
) -> bool {
    &&& c.len() == to - from
    &&& forall|i: int|
        0 <= i < c.len() ==> says_complete(bodies[from + i], block, #[trigger] c[i])
}

fn read_shards(bodies: &Vec<Option<Vec<u8>>>, from: usize, n: u32, block: u64) -> (r: Result<
    Vec<Complete>,
    NotFinal,
>)
    requires
        from + n <= bodies@.len(),
    ensures
        match r {
            Ok(v) => {
                &&& all_complete(bodies@, from as int, from + n, block, v@)
                &&& total(v@) <= u64::MAX
            },
            Err(NotFinal::Table { at, why }) => {
                &&& from <= at < from + n
                &&& says_incomplete(bodies@[at as int], block, why)
                &&& exists|c: Seq<Complete>| #[trigger]
                    all_complete(bodies@, from as int, at as int, block, c)
            },
            Err(NotFinal::Overflow { at }) => {
                &&& from <= at < from + n
                &&& exists|c: Seq<Complete>| #[trigger]
                    all_complete(bodies@, from as int, at + 1, block, c) && total(c) > u64::MAX
            },
        },
{
    let mut out: Vec<Complete> = Vec::new();
    let mut sum: u64 = 0;
    let mut i: u32 = 0;
    let len: usize = bodies.len();
    while i < n
        invariant
            i <= n,
            from + n <= bodies@.len(),
            len == bodies@.len(),
            all_complete(bodies@, from as int, from + i, block, out@),
            sum == total(out@),
        decreases n - i,
    {
        let at: usize = from + i as usize;
        match read_marker(&bodies[at], block) {
            Ok(c) => {
                let count: u64 = c.count;
                let ghost before = out@;
                out.push(c);
                assert(out@.drop_last() =~= before);
                assert(all_complete(bodies@, from as int, from + i + 1, block, out@)) by {
                    assert forall|k: int| 0 <= k < out@.len() implies says_complete(
                        bodies@[from + k],
                        block,
                        #[trigger] out@[k],
                    ) by {
                        if k < before.len() {
                            assert(before[k] == out@[k]);
                        }
                    }
                }
                if count > u64::MAX - sum {
                    assert(total(out@) == sum + count);
                    assert(all_complete(bodies@, from as int, at + 1, block, out@));
                    return Err(NotFinal::Overflow { at });
                }
                sum = sum + count;
            },
            Err(why) => {
                return Err(NotFinal::Table { at, why });
            },
        }
        i = i + 1;
    }
    Ok(out)
}

/// Where the markers of the table begin whose shard has its marker at `at`.
pub open spec fn group_start(at: int, shards: u32) -> int {
    if at < shards {
        0
    } else {
        shards as int
    }
}

proof fn lemma_complete_joined(
    bodies: Seq<Option<Vec<u8>>>,
    mid: int,
    to: int,
    block: u64,
    a: Seq<Complete>,
    b: Seq<Complete>,
)
    requires
        all_complete(bodies, 0, mid, block, a),
        all_complete(bodies, mid, to, block, b),
    ensures
        all_complete(bodies, 0, to, block, a + b),
{
    let c = a + b;
    assert forall|i: int| 0 <= i < c.len() implies says_complete(
        bodies[0 + i],
        block,
        #[trigger] c[i],
    ) by {
        if i < mid {
            assert(says_complete(bodies[0 + i], block, a[i]));
        } else {
            assert(says_complete(bodies[mid + (i - mid)], block, b[i - mid]));
        }
    }
}

/// Puts together what is published of an export, out of the progress markers
/// of its tables: those of the account shards, those of the slot shards, that
/// of the codes, in this order. Every one must be complete at `block`, so that
/// all of them are of the same state.
pub fn finalize(bodies: &Vec<Option<Vec<u8>>>, block: u64, options: &Options) -> (r: Result<
    Json,
    NotFinal,
>)
    requires
        bodies@.len() == 2 * options.shards + 1,
    ensures
        match r {
            Ok(m) => exists|a: Seq<Complete>, s: Seq<Complete>, c: Complete|
                {
                    &&& #[trigger] all_complete(bodies@, 0, options.shards as int, block, a)
                    &&& #[trigger] all_complete(
                        bodies@,
                        options.shards as int,
                        2 * options.shards,
                        block,
                        s,
                    )
                    &&& #[trigger] says_complete(bodies@[2 * options.shards], block, c)
                    &&& total(a) <= u64::MAX
                    &&& total(s) <= u64::MAX
                    &&& m@ == meta_view(block, a, s, c, *options)
                },
            Err(NotFinal::Table { at, why }) => {
                &&& at < bodies@.len()
                &&& says_incomplete(bodies@[at as int], block, why)
                &&& exists|c: Seq<Complete>| #[trigger]
                    all_complete(bodies@, 0, at as int, block, c)
            },
            Err(NotFinal::Overflow { at }) => {
                &&& at < 2 * options.shards
                &&& exists|c: Seq<Complete>| #[trigger]
                    all_complete(
                        bodies@,
                        group_start(at as int, options.shards),
                        at + 1,
                        block,
                        c,
                    ) && total(c) > u64::MAX
            },
        },
{
    let n: u32 = options.shards;
    let len: usize = bodies.len();
    let accounts: Vec<Complete> = match read_shards(bodies, 0, n, block) {
        Ok(v) => v,
        Err(e) => {
            proof {
                if e is Overflow {
                    let at = e->Overflow_at;
                    let c = choose|c: Seq<Complete>| #[trigger]
                        all_complete(bodies@, 0, at + 1, block, c) && total(c) > u64::MAX;
                    assert(all_complete(bodies@, group_start(at as int, n), at + 1, block, c));
                }
            }
            return Err(e);
        },
    };
    let slots: Vec<Complete> = match read_shards(bodies, n as usize, n, block) {
        Ok(v) => v,
        Err(e) => {
            proof {
                if e is Table {
                    let at = e->Table_at;
                    let c = choose|c: Seq<Complete>| #[trigger]
                        all_complete(bodies@, n as int, at as int, block, c);
                    lemma_complete_joined(bodies@, n as int, at as int, block, accounts@, c);
                } else {
                    let at = e->Overflow_at;
                    let c = choose|c: Seq<Complete>| #[trigger]
                        all_complete(bodies@, n as int, at + 1, block, c) && total(c) > u64::MAX;
                    assert(all_complete(bodies@, group_start(at as int, n), at + 1, block, c));
                }
            }
            return Err(e);
        },
    };
    let at: usize = len - 1;
    let codes: Complete = match read_marker(&bodies[at], block) {
        Ok(c) => c,
        Err(why) => {
            proof {
                let both = accounts@ + slots@;
                lemma_complete_joined(bodies@, n as int, at as int, block, accounts@, slots@);
                assert(all_complete(bodies@, 0, at as int, block, both));
                assert(says_incomplete(bodies@[at as int], block, why));
                assert(at < bodies@.len());
            }
            let e = NotFinal::Table { at, why };
            assert(e is Table && e->Table_at == at && e->Table_why == why);
            return Err(e);
        },
    };
    let m = meta(block, &accounts, &slots, &codes, options);
    assert(all_complete(bodies@, 0, n as int, block, accounts@));
    assert(all_complete(bodies@, n as int, 2 * n, block, slots@));
    assert(says_complete(bodies@[2 * n], block, codes));
    Ok(m)
}

/// The names of the tables whose markers `finalize` asks for, in its order.
pub fn marker_names(shards: u32) -> (r: Vec<String>)
    ensures
        r@.len() == 2 * shards + 1,
        forall|i: int|
            0 <= i < shards ==> (#[trigger] r@[i])@ == shard::shard_name_of(
                "accounts"@,
                i as u32,
            ),
        forall|i: int|
            shards <= i < 2 * shards ==> (#[trigger] r@[i])@ == shard::shard_name_of(
                "slots"@,
                (i - shards) as u32,
            ),
        r@[2 * shards]@ == "codes"@,
{
    let mut names: Vec<String> = Vec::new();
    let mut i: u32 = 0;
    while i < shards
        invariant
            i <= shards,
            names@.len() == i,
            forall|k: int|
                0 <= k < i ==> (#[trigger] names@[k])@ == shard::shard_name_of(
                    "accounts"@,
                    k as u32,
                ),
        decreases shards - i,
    {
        names.push(shard_name("accounts", i));
        i = i + 1;
    }
    i = 0;
    while i < shards
        invariant
            i <= shards,
            names@.len() == shards + i,
            forall|k: int|
                0 <= k < shards ==> (#[trigger] names@[k])@ == shard::shard_name_of(
                    "accounts"@,
                    k as u32,
                ),
            forall|k: int|
                shards <= k < shards + i ==> (#[trigger] names@[k])@ == shard::shard_name_of(
                    "slots"@,
                    (k - shards) as u32,
                ),
        decreases shards - i,
    {
        names.push(shard_name("slots", i));
        i = i + 1;
    }
    names.push("codes".to_owned());
    names
}

/// What an export run comes to, when `published` says whether its meta could
/// be put together: a run of one table leaves that to the last finisher.
pub fn run_succeeds(only: Option<Table>, published: bool) -> (r: bool)
    ensures
        r == (published || only is Some),
{
    published || only.is_some()
}

} // verus!
