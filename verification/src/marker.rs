//! Progress markers: small JSON objects that say how far a table was exported.

use vstd::prelude::*;

use crate::json;
use crate::json::{add_member, record_bytes, Json, JsonView, ValueView};
use crate::text;
use crate::text::{hex_cuts_whole, hex_decode, hex_encode, HexError};

verus! {

// ------------------------------------------------------------- JSON objects

/// What a member of a JSON object holds, as far as a marker asks.
#[derive(Debug)]
pub enum Field {
    /// An integer from zero to `u64::MAX`.
    Uint(u64),
    /// `true` or `false`.
    Flag(bool),
    /// A string.
    Text(String),
    /// An array: for each element the integer it is, if it is one.
    List(Vec<Option<u64>>),
    /// Anything else.
    Other,
}

/// What a member holds.
pub enum FieldView {
    Uint(u64),
    Flag(bool),
    Text(Seq<char>),
    List(Seq<Option<u64>>),
    Other,
}

impl View for Field {
    type V = FieldView;

    open spec fn view(&self) -> FieldView {
        match *self {
            Field::Uint(n) => FieldView::Uint(n),
            Field::Flag(b) => FieldView::Flag(b),
            Field::Text(s) => FieldView::Text(s@),
            Field::List(v) => FieldView::List(v@),
            Field::Other => FieldView::Other,
        }
    }
}

/// serde_json's object.
#[verifier::external_type_specification]
#[verifier::external_body]
#[verifier::reject_recursive_types(K)]
#[verifier::reject_recursive_types(V)]
pub struct ExJsonMap<K, V>(serde_json::Map<K, V>);

/// The members that an object holds.
pub uninterp spec fn members_of(
    m: serde_json::Map<String, serde_json::Value>,
) -> Map<Seq<char>, FieldView>;

/// No members.
pub open spec fn no_members() -> Map<Seq<char>, FieldView> {
    Map::empty()
}

/// What `serde_json::from_slice` makes of these bytes as a value: `None` where
/// it fails, `Some(None)` where the value is no object, else the members.
pub uninterp spec fn parsed(bytes: Seq<u8>) -> Option<Option<Map<Seq<char>, FieldView>>>;

/// What a member is, of which this is held.
pub open spec fn field_of(v: ValueView) -> FieldView {
    match v {
        ValueView::Number(n) => FieldView::Uint(n),
        ValueView::Bool(b) => FieldView::Flag(b),
        ValueView::Text(s) => FieldView::Text(s),
        ValueView::List(items) => FieldView::List(
            items.map_values(
                |i: ValueView|
                    match i {
                        ValueView::Number(n) => Some(n),
                        _ => None,
                    },
            ),
        ),
        _ => FieldView::Other,
    }
}

/// The members of an object, `None` where the value is none.
pub open spec fn fields_of(v: ValueView) -> Option<Map<Seq<char>, FieldView>> {
    match v {
        ValueView::Object(members) => Some(members.map_values(|m: ValueView| field_of(m))),
        _ => None,
    }
}

/// `v` is an object of unsigned integers, truth values, strings, and lists of
/// unsigned integers.
pub open spec fn flat(v: ValueView) -> bool {
    v matches ValueView::Object(members) && forall|k: Seq<char>| #[trigger]
        members.contains_key(k) ==> match members[k] {
            ValueView::Number(_) => true,
            ValueView::Bool(_) => true,
            ValueView::Text(_) => true,
            ValueView::List(items) => forall|i: int|
                0 <= i < items.len() ==> (#[trigger] items[i]) is Number,
            _ => false,
        }
}

/// `serde_json::Map::get`: what the member `key` holds, if there is one.
#[verifier::external_body]
fn get_field(m: &serde_json::Map<String, serde_json::Value>, key: &str) -> (r: Option<Field>)
    ensures
        match r {
            Some(f) => members_of(*m).contains_key(key@) && f@ == members_of(*m)[key@],
            None => !members_of(*m).contains_key(key@),
        },
{
    Some(match m.get(key)? {
        serde_json::Value::Number(n) => match n.as_u64() {
            Some(u) => Field::Uint(u),
            None => Field::Other,
        },
        serde_json::Value::Bool(b) => Field::Flag(*b),
        serde_json::Value::String(s) => Field::Text(s.clone()),
        serde_json::Value::Array(a) => Field::List(a.iter().map(|v| v.as_u64()).collect()),
        _ => Field::Other,
    })
}

/// `serde_json::from_slice` for a value, of which an object is kept. Which
/// bytes it takes is not said; `parsed` is its answer.
#[verifier::external_body]
fn parse_object(bytes: &[u8]) -> (r: Result<
    Option<serde_json::Map<String, serde_json::Value>>,
    serde_json::Error,
>)
    ensures
        match r {
            Ok(Some(m)) => parsed(bytes@) == Some(Some(members_of(m))),
            Ok(None) => parsed(bytes@) is Some && parsed(bytes@)->Some_0 is None,
            Err(_) => parsed(bytes@) is None,
        },
{
    Ok(match serde_json::from_slice::<serde_json::Value>(bytes)? {
        serde_json::Value::Object(m) => Some(m),
        _ => None,
    })
}

// ------------------------------------------------------------------- values

/// What a marker was found to hold. A member of the wrong kind counts as
/// missing.
#[derive(Debug)]
pub struct MarkerValues {
    /// The height of the database that was exported.
    pub block: Option<u64>,
    /// The number of parts that were shipped.
    pub part: Option<u64>,
    /// The number of records in them.
    pub count: Option<u64>,
    /// The number of bytes in them.
    pub global_off: Option<u64>,
    /// The key of the last record, in hexadecimal.
    pub last_key: Option<String>,
    /// The exact size of each part; an element may be no integer.
    pub sizes: Option<Vec<Option<u64>>>,
    /// Whether the table is complete.
    pub done: Option<bool>,
}

/// What a marker holds.
#[verifier::ext_equal]
pub struct MarkerView {
    pub block: Option<u64>,
    pub part: Option<u64>,
    pub count: Option<u64>,
    pub global_off: Option<u64>,
    pub last_key: Option<Seq<char>>,
    pub sizes: Option<Seq<Option<u64>>>,
    pub done: Option<bool>,
}

impl View for MarkerValues {
    type V = MarkerView;

    open spec fn view(&self) -> MarkerView {
        MarkerView {
            block: self.block,
            part: self.part,
            count: self.count,
            global_off: self.global_off,
            last_key: match self.last_key {
                Some(k) => Some(k@),
                None => None,
            },
            sizes: match self.sizes {
                Some(v) => Some(v@),
                None => None,
            },
            done: self.done,
        }
    }
}

/// The integer that a member holds.
pub open spec fn uint_at(m: Map<Seq<char>, FieldView>, key: Seq<char>) -> Option<u64> {
    if m.contains_key(key) {
        match m[key] {
            FieldView::Uint(n) => Some(n),
            _ => None,
        }
    } else {
        None
    }
}

/// The truth value that a member holds.
pub open spec fn flag_at(m: Map<Seq<char>, FieldView>, key: Seq<char>) -> Option<bool> {
    if m.contains_key(key) {
        match m[key] {
            FieldView::Flag(b) => Some(b),
            _ => None,
        }
    } else {
        None
    }
}

/// The string that a member holds.
pub open spec fn text_at(m: Map<Seq<char>, FieldView>, key: Seq<char>) -> Option<Seq<char>> {
    if m.contains_key(key) {
        match m[key] {
            FieldView::Text(s) => Some(s),
            _ => None,
        }
    } else {
        None
    }
}

/// The elements that a member holds.
pub open spec fn list_at(m: Map<Seq<char>, FieldView>, key: Seq<char>) -> Option<Seq<Option<u64>>> {
    if m.contains_key(key) {
        match m[key] {
            FieldView::List(v) => Some(v),
            _ => None,
        }
    } else {
        None
    }
}

/// What a marker with these members holds.
pub open spec fn values_of(m: Map<Seq<char>, FieldView>) -> MarkerView {
    MarkerView {
        block: uint_at(m, "block"@),
        part: uint_at(m, "part"@),
        count: uint_at(m, "count"@),
        global_off: uint_at(m, "global_off"@),
        last_key: text_at(m, "last_key"@),
        sizes: list_at(m, "sizes"@),
        done: flag_at(m, "done"@),
    }
}

/// What a marker that parsed like this holds: nothing where it is no object.
pub open spec fn values_in(found: Option<Map<Seq<char>, FieldView>>) -> MarkerView {
    match found {
        Some(m) => values_of(m),
        None => values_of(no_members()),
    }
}

fn get_uint(m: &serde_json::Map<String, serde_json::Value>, key: &str) -> (r: Option<u64>)
    ensures
        r == uint_at(members_of(*m), key@),
{
    match get_field(m, key) {
        Some(Field::Uint(n)) => Some(n),
        _ => None,
    }
}

/// What the bytes of a marker hold.
pub fn read_values(bytes: &[u8]) -> (r: Result<MarkerValues, serde_json::Error>)
    ensures
        match r {
            Ok(v) => parsed(bytes@) is Some && v@ == values_in(parsed(bytes@)->Some_0),
            Err(_) => parsed(bytes@) is None,
        },
{
    let found = match parse_object(bytes) {
        Ok(found) => found,
        Err(e) => {
            return Err(e);
        },
    };
    let m: serde_json::Map<String, serde_json::Value> = match found {
        Some(m) => m,
        None => {
            let none = MarkerValues {
                block: None,
                part: None,
                count: None,
                global_off: None,
                last_key: None,
                sizes: None,
                done: None,
            };
            assert(none@ =~= values_of(no_members()));
            return Ok(none);
        },
    };
    let last_key: Option<String> = match get_field(&m, "last_key") {
        Some(Field::Text(s)) => Some(s),
        _ => None,
    };
    let sizes: Option<Vec<Option<u64>>> = match get_field(&m, "sizes") {
        Some(Field::List(v)) => Some(v),
        _ => None,
    };
    let done: Option<bool> = match get_field(&m, "done") {
        Some(Field::Flag(b)) => Some(b),
        _ => None,
    };
    let r = MarkerValues {
        block: get_uint(&m, "block"),
        part: get_uint(&m, "part"),
        count: get_uint(&m, "count"),
        global_off: get_uint(&m, "global_off"),
        last_key,
        sizes,
        done,
    };
    proof {
        assert(r@ =~= values_of(members_of(m)));
    }
    Ok(r)
}

// ----------------------------------------------------------------- progress

/// How far a table was exported.
#[derive(Debug)]
pub struct Progress {
    /// The number of parts that were shipped.
    pub part: u32,
    /// The number of records in them.
    pub count: u64,
    /// The number of bytes in them.
    pub global_off: u64,
    /// The key of the last record.
    pub last_key: Option<Vec<u8>>,
    /// The exact size of each part.
    pub sizes: Vec<u64>,
    /// Whether the table is complete.
    pub done: bool,
}

/// How far a table was exported.
#[verifier::ext_equal]
pub struct ProgressView {
    pub part: u32,
    pub count: u64,
    pub global_off: u64,
    pub last_key: Option<Seq<u8>>,
    pub sizes: Seq<u64>,
    pub done: bool,
}

/// A key, if there is one.
pub open spec fn key_view(key: Option<Vec<u8>>) -> Option<Seq<u8>> {
    match key {
        Some(k) => Some(k@),
        None => None,
    }
}

impl View for Progress {
    type V = ProgressView;

    open spec fn view(&self) -> ProgressView {
        ProgressView {
            part: self.part,
            count: self.count,
            global_off: self.global_off,
            last_key: key_view(self.last_key),
            sizes: self.sizes@,
            done: self.done,
        }
    }
}

/// Why a marker is not continued from.
#[derive(Clone, Copy, Debug, PartialEq, Eq, Structural)]
pub enum Refusal {
    /// The marker is for another block: the source changed during the export.
    Block { marker: u64, database: u64 },
    /// The last key is no byte string.
    Key(HexError),
    /// The last key is no text that can be cut into pairs of digits.
    KeyText,
    /// The marker does not have one size for each part.
    Sizes { part: u32, sizes: usize },
}

/// The integers among the elements.
pub open spec fn integers(v: Seq<Option<u64>>) -> Seq<u64>
    decreases v.len(),
{
    if v.len() == 0 {
        Seq::empty()
    } else {
        match v.last() {
            Some(n) => integers(v.drop_last()).push(n),
            None => integers(v.drop_last()),
        }
    }
}

/// The sizes that a marker carries.
pub open spec fn sizes_in(sizes: Option<Seq<Option<u64>>>) -> Seq<u64> {
    match sizes {
        Some(v) => integers(v),
        None => Seq::empty(),
    }
}

/// A number, zero where there is none.
pub open spec fn or_zero(n: Option<u64>) -> u64 {
    match n {
        Some(v) => v,
        None => 0,
    }
}

/// The key that a marker carries: an empty text stands for none.
pub open spec fn key_in(key: Option<Seq<char>>) -> Result<Option<Seq<u8>>, Refusal> {
    match key {
        Some(k) => if k.len() == 0 {
            Ok(None)
        } else if !text::hex_cuts(k) {
            Err(Refusal::KeyText)
        } else {
            match text::hex_decoded(k) {
                Ok(b) => Ok(Some(b)),
                Err(e) => Err(Refusal::Key(e)),
            }
        },
        None => Ok(None),
    }
}

/// Where an export of the database at `block` goes on after this marker.
pub open spec fn progress_of(m: MarkerView, block: u64) -> Result<ProgressView, Refusal> {
    let part = or_zero(m.part) as u32;
    let sizes = sizes_in(m.sizes);
    if or_zero(m.block) != block {
        Err(Refusal::Block { marker: or_zero(m.block), database: block })
    } else {
        match key_in(m.last_key) {
            Err(e) => Err(e),
            Ok(last_key) => if sizes.len() != part {
                Err(Refusal::Sizes { part, sizes: sizes.len() as usize })
            } else {
                Ok(
                    ProgressView {
                        part,
                        count: or_zero(m.count),
                        global_off: or_zero(m.global_off),
                        last_key,
                        sizes,
                        done: m.done == Some(true),
                    },
                )
            },
        }
    }
}

/// A number, zero where there is none.
pub fn number_or_zero(n: Option<u64>) -> (r: u64)
    ensures
        r == or_zero(n),
{
    match n {
        Some(v) => v,
        None => 0,
    }
}

fn key_from(key: &Option<String>) -> (r: Result<Option<Vec<u8>>, Refusal>)
    ensures
        match r {
            Ok(k) => key_in(
                match *key {
                    Some(s) => Some(s@),
                    None => None,
                },
            ) == Ok::<Option<Seq<u8>>, Refusal>(key_view(k)),
            Err(e) => key_in(
                match *key {
                    Some(s) => Some(s@),
                    None => None,
                },
            ) == Err::<Option<Seq<u8>>, Refusal>(e),
        },
{
    match key {
        None => Ok(None),
        Some(k) => {
            if k.as_str().unicode_len() == 0 {
                Ok(None)
            } else if !hex_cuts_whole(k.as_str()) {
                Err(Refusal::KeyText)
            } else {
                match hex_decode(k.as_str()) {
                    Ok(b) => Ok(Some(b)),
                    Err(e) => Err(Refusal::Key(e)),
                }
            }
        },
    }
}

/// The sizes that a marker carries.
pub fn sizes_from(sizes: &Option<Vec<Option<u64>>>) -> (r: Vec<u64>)
    ensures
        r@ == sizes_in(
            match *sizes {
                Some(v) => Some(v@),
                None => None,
            },
        ),
{
    let mut out: Vec<u64> = Vec::new();
    if let Some(v) = sizes {
        let mut i: usize = 0;
        while i < v.len()
            invariant
                i <= v@.len(),
                out@ == integers(v@.take(i as int)),
            decreases v@.len() - i,
        {
            assert(v@.take(i + 1).drop_last() =~= v@.take(i as int));
            if let Some(n) = v[i] {
                out.push(n);
            }
            i = i + 1;
        }
        assert(v@.take(i as int) =~= v@);
    }
    out
}

/// Where an export of the database at `block` goes on after a marker that was
/// found to hold `values`.
pub fn progress_from(values: &MarkerValues, block: u64) -> (r: Result<Progress, Refusal>)
    ensures
        match r {
            Ok(p) => progress_of(values@, block) == Ok::<ProgressView, Refusal>(p@),
            Err(e) => progress_of(values@, block) == Err::<ProgressView, Refusal>(e),
        },
{
    let marker: u64 = number_or_zero(values.block);
    if marker != block {
        return Err(Refusal::Block { marker, database: block });
    }
    let part: u32 = #[verifier::truncate] (number_or_zero(values.part) as u32);
    let last_key: Option<Vec<u8>> = match key_from(&values.last_key) {
        Ok(k) => k,
        Err(e) => {
            return Err(e);
        },
    };
    let sizes: Vec<u64> = sizes_from(&values.sizes);
    if sizes.len() as u64 != part as u64 {
        return Err(Refusal::Sizes { part, sizes: sizes.len() });
    }
    let p = Progress {
        part,
        count: number_or_zero(values.count),
        global_off: number_or_zero(values.global_off),
        last_key,
        sizes,
        done: values.done == Some(true),
    };
    assert(progress_of(values@, block)->Ok_0 =~= p@);
    Ok(p)
}

// ------------------------------------------------------------------ writing

/// The text under which a key is kept: empty where there is none.
pub open spec fn key_text(key: Option<Seq<u8>>) -> Seq<char> {
    match key {
        Some(k) => text::hex_digits(k),
        None => Seq::empty(),
    }
}

/// The members of the marker that is written for this progress.
pub open spec fn marker_members(block: u64, p: ProgressView) -> Map<Seq<char>, FieldView> {
    no_members().insert("block"@, FieldView::Uint(block)).insert(
        "part"@,
        FieldView::Uint(p.part as u64),
    ).insert("count"@, FieldView::Uint(p.count)).insert(
        "global_off"@,
        FieldView::Uint(p.global_off),
    ).insert("last_key"@, FieldView::Text(key_text(p.last_key))).insert(
        "sizes"@,
        FieldView::List(p.sizes.map_values(|n: u64| Some(n))),
    ).insert("done"@, FieldView::Flag(p.done))
}

/// The marker that is written for this progress.
pub open spec fn marker_record(block: u64, p: ProgressView) -> JsonView {
    JsonView::Object(
        seq![
            ("block"@, JsonView::Number(block)),
            ("part"@, JsonView::Number(p.part as u64)),
            ("count"@, JsonView::Number(p.count)),
            ("global_off"@, JsonView::Number(p.global_off)),
            ("last_key"@, JsonView::Text(key_text(p.last_key))),
            ("sizes"@, JsonView::List(p.sizes.map_values(|n: u64| JsonView::Number(n)))),
            ("done"@, JsonView::Bool(p.done)),
        ],
    )
}

/// The bytes of the marker that is written for this progress.
#[verifier::opaque]
pub open spec fn marker_bytes(block: u64, p: ProgressView) -> Seq<u8> {
    json::printed(json::said(marker_record(block, p)))
}

/// What is read back of a marker that was written for this progress.
proof fn lemma_marker_fields(block: u64, p: ProgressView)
    ensures
        flat(json::said(marker_record(block, p))),
        fields_of(json::said(marker_record(block, p))) == Some(marker_members(block, p)),
{
    let all = marker_record(block, p)->Object_0;
    json::lemma_said_empty();
    assert(all.take(0) =~= Seq::empty());
    assert(all.take(7) =~= all);
    lemma_member(all, 0);
    lemma_member(all, 1);
    lemma_member(all, 2);
    lemma_member(all, 3);
    lemma_member(all, 4);
    lemma_member(all, 5);
    lemma_member(all, 6);
    reveal_with_fuel(json::said, 2);
    let sizes = json::said(all[5].1);
    assert(sizes->List_0 =~= p.sizes.map_values(|n: u64| ValueView::Number(n)));
    assert(field_of(sizes)->List_0 =~= p.sizes.map_values(|n: u64| Some(n)));
    assert(fields_of(json::said(marker_record(block, p)))->Some_0 =~= marker_members(block, p));
}

proof fn lemma_member(all: Seq<(Seq<char>, JsonView)>, i: int)
    requires
        0 <= i < all.len(),
    ensures
        json::said(JsonView::Object(all.take(i + 1))) == ValueView::Object(
            json::said(JsonView::Object(all.take(i)))->Object_0.insert(
                all[i].0,
                json::said(all[i].1),
            ),
        ),
{
    json::lemma_said_push(all.take(i), all[i].0, all[i].1);
    assert(all.take(i + 1) =~= all.take(i).push(all[i]));
}

/// The bytes of the marker for this progress: what is read back of them is
/// what was written. A marker can always be printed.
pub fn print_marker(block: u64, p: &Progress) -> (r: Result<Vec<u8>, serde_json::Error>)
    ensures
        match r {
            Ok(b) => {
                &&& b@ == marker_bytes(block, p@)
                &&& b@.len() > 0
                &&& parsed(b@) == Some(Some(marker_members(block, p@)))
            },
            Err(_) => false,
        },
{
    let key: String = match &p.last_key {
        Some(k) => hex_encode(k.as_slice()),
        None => String::new(),
    };
    assert(key@ =~= key_text(p@.last_key));
    let mut m: Vec<(String, Json)> = Vec::new();
    add_member(&mut m, "block", Json::Number(block));
    add_member(&mut m, "part", Json::Number(p.part as u64));
    add_member(&mut m, "count", Json::Number(p.count));
    add_member(&mut m, "global_off", Json::Number(p.global_off));
    add_member(&mut m, "last_key", Json::Text(key));
    add_member(&mut m, "sizes", Json::numbers(&p.sizes));
    add_member(&mut m, "done", Json::Bool(p.done));
    proof {
        assert(json::members_view(m@) =~= marker_record(block, p@)->Object_0);
        lemma_marker_fields(block, p@);
        reveal(marker_bytes);
    }
    record_bytes(&Json::object(m))
}

proof fn lemma_integers_of_some(v: Seq<u64>)
    ensures
        integers(v.map_values(|n: u64| Some(n))) == v,
    decreases v.len(),
{
    let s = v.map_values(|n: u64| Some(n));
    if v.len() > 0 {
        lemma_integers_of_some(v.drop_last());
        assert(s.drop_last() =~= v.drop_last().map_values(|n: u64| Some(n)));
        assert(v.drop_last().push(v.last()) =~= v);
    }
}

/// What is found in a marker that was written for this progress.
pub proof fn lemma_marker_values(block: u64, p: ProgressView)
    ensures
        values_of(marker_members(block, p)) == (MarkerView {
            block: Some(block),
            part: Some(p.part as u64),
            count: Some(p.count),
            global_off: Some(p.global_off),
            last_key: Some(key_text(p.last_key)),
            sizes: Some(p.sizes.map_values(|n: u64| Some(n))),
            done: Some(p.done),
        }),
        sizes_in(Some(p.sizes.map_values(|n: u64| Some(n)))) == p.sizes,
{
    reveal_strlit("block");
    reveal_strlit("part");
    reveal_strlit("count");
    reveal_strlit("global_off");
    reveal_strlit("last_key");
    reveal_strlit("sizes");
    reveal_strlit("done");
    assert("block"@[0] == 'b' && "part"@[0] == 'p' && "count"@[0] == 'c' && "global_off"@[0] == 'g'
        && "last_key"@[0] == 'l' && "sizes"@[0] == 's' && "done"@[0] == 'd');
    lemma_integers_of_some(p.sizes);
}

/// A marker gives back what was written: an export that is taken up again
/// starts with the very progress that the marker was written for.
pub proof fn lemma_marker_round_trip(block: u64, p: ProgressView)
    requires
        p.sizes.len() == p.part,
        p.last_key != Some(Seq::<u8>::empty()),
    ensures
        progress_of(values_of(marker_members(block, p)), block) == Ok::<ProgressView, Refusal>(p),
{
    let m = marker_members(block, p);
    lemma_marker_values(block, p);
    if let Some(k) = p.last_key {
        text::lemma_hex_round_trip(k);
        assert(k.len() > 0) by {
            if k.len() == 0 {
                assert(k =~= Seq::empty());
            }
        }
        assert(key_in(Some(key_text(p.last_key))) == Ok::<Option<Seq<u8>>, Refusal>(Some(k)));
    }
    assert((p.part as u64) as u32 == p.part);
    assert(progress_of(values_of(m), block)->Ok_0 =~= p);
}

/// A marker that was written for one block is refused for every other.
pub proof fn lemma_other_block_is_refused(block: u64, other: u64, p: ProgressView)
    requires
        block != other,
    ensures
        progress_of(values_of(marker_members(block, p)), other) == Err::<ProgressView, Refusal>(
            Refusal::Block { marker: block, database: other },
        ),
{
    lemma_marker_values(block, p);
}

} // verus!
