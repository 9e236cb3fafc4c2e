//! JSON documents as values, and the bytes that they are printed as.

use vstd::prelude::*;

use crate::marker;

verus! {

/// A JSON document. The numbers that are written here are unsigned.
#[derive(Debug)]
pub enum Json {
    /// `null`
    Null,
    /// `true` or `false`
    Bool(bool),
    /// An unsigned integer.
    Number(u64),
    /// A string.
    Text(String),
    /// An array.
    List(Vec<Json>),
    /// An object, as its members.
    Object(Vec<(String, Json)>),
}

/// What a JSON document says.
pub enum JsonView {
    Null,
    Bool(bool),
    Number(u64),
    Text(Seq<char>),
    List(Seq<JsonView>),
    Object(Seq<(Seq<char>, JsonView)>),
}

/// What `j` says.
pub open spec fn json_view(j: Json) -> JsonView
    decreases j,
{
    match j {
        Json::Null => JsonView::Null,
        Json::Bool(b) => JsonView::Bool(b),
        Json::Number(n) => JsonView::Number(n),
        Json::Text(s) => JsonView::Text(s@),
        Json::List(v) => JsonView::List(
            Seq::new(
                v@.len(),
                |i: int|
                    if 0 <= i < v@.len() {
                        json_view(v[i])
                    } else {
                        JsonView::Null
                    },
            ),
        ),
        Json::Object(v) => JsonView::Object(
            Seq::new(
                v@.len(),
                |i: int|
                    if 0 <= i < v@.len() {
                        (v[i].0@, json_view(v[i].1))
                    } else {
                        (Seq::empty(), JsonView::Null)
                    },
            ),
        ),
    }
}

impl View for Json {
    type V = JsonView;

    open spec fn view(&self) -> JsonView {
        json_view(*self)
    }
}

/// What the documents of a list say.
pub open spec fn list_view(items: Seq<Json>) -> Seq<JsonView> {
    Seq::new(items.len(), |i: int| items[i]@)
}

/// What the members of an object say.
pub open spec fn members_view(members: Seq<(String, Json)>) -> Seq<(Seq<char>, JsonView)> {
    Seq::new(members.len(), |i: int| (members[i].0@, members[i].1@))
}

impl Json {
    /// A string.
    pub fn text(s: &str) -> (r: Json)
        ensures
            r@ == JsonView::Text(s@),
    {
        Json::Text(s.to_owned())
    }

    /// An array.
    pub fn list(items: Vec<Json>) -> (r: Json)
        ensures
            r@ == JsonView::List(list_view(items@)),
    {
        let ghost before = items@;
        let r = Json::List(items);
        proof {
            assert(r@->List_0 =~= list_view(before));
        }
        r
    }

    /// An array of two.
    pub fn pair(a: Json, b: Json) -> (r: Json)
        ensures
            r@ == JsonView::List(seq![a@, b@]),
    {
        let ghost first = a@;
        let ghost second = b@;
        let mut items: Vec<Json> = Vec::new();
        items.push(a);
        items.push(b);
        assert(list_view(items@) =~= seq![first, second]);
        Json::list(items)
    }

    /// An array of unsigned integers.
    pub fn numbers(items: &Vec<u64>) -> (r: Json)
        ensures
            r@ == JsonView::List(items@.map_values(|n: u64| JsonView::Number(n))),
    {
        let mut out: Vec<Json> = Vec::new();
        let mut i: usize = 0;
        while i < items.len()
            invariant
                i <= items@.len(),
                list_view(out@) == items@.take(i as int).map_values(|n: u64| JsonView::Number(n)),
            decreases items@.len() - i,
        {
            let ghost before = out@;
            out.push(Json::Number(items[i]));
            assert(list_view(out@) =~= list_view(before).push(JsonView::Number(items[i as int])));
            assert(items@.take(i + 1).map_values(|n: u64| JsonView::Number(n)) =~= items@.take(
                i as int,
            ).map_values(|n: u64| JsonView::Number(n)).push(JsonView::Number(items[i as int])));
            i = i + 1;
        }
        assert(items@.take(i as int) =~= items@);
        Json::list(out)
    }

    /// An object.
    pub fn object(members: Vec<(String, Json)>) -> (r: Json)
        ensures
            r@ == JsonView::Object(members_view(members@)),
    {
        let ghost before = members@;
        let r = Json::Object(members);
        proof {
            assert(r@->Object_0 =~= members_view(before));
        }
        r
    }
}

/// Adds a member to those of an object.
pub fn add_member(members: &mut Vec<(String, Json)>, name: &str, value: Json)
    ensures
        members_view(final(members)@) == members_view(old(members)@).push((name@, value@)),
{
    let ghost said = value@;
    let ghost before = members@;
    members.push((name.to_owned(), value));
    assert(members_view(members@) =~= members_view(before).push((name@, said)));
}

// ------------------------------------------------------------------ printing

/// serde_json's error.
#[verifier::external_type_specification]
#[verifier::external_body]
pub struct ExJsonError(serde_json::Error);

/// serde_json's value.
#[verifier::external_type_specification]
#[verifier::external_body]
pub struct ExJsonValue(serde_json::Value);

/// What a value of serde_json holds. Its objects know no order, and of members
/// with one name they keep the last.
pub enum ValueView {
    Null,
    Bool(bool),
    Number(u64),
    /// A number that is no unsigned integer, as it is printed.
    Other(Seq<char>),
    Text(Seq<char>),
    List(Seq<ValueView>),
    Object(Map<Seq<char>, ValueView>),
}

/// What a value holds.
pub uninterp spec fn value_of(v: serde_json::Value) -> ValueView;

/// What `serde_json::to_vec` prints for a value that holds this.
pub uninterp spec fn printed(v: ValueView) -> Seq<u8>;

/// What `serde_json::to_vec_pretty` prints for a value that holds this.
pub uninterp spec fn printed_pretty(v: ValueView) -> Seq<u8>;

/// What these values hold.
pub open spec fn values_view(items: Seq<serde_json::Value>) -> Seq<ValueView> {
    items.map_values(|v: serde_json::Value| value_of(v))
}

/// `Value::from` for `()`: `null`.
#[verifier::external_body]
fn null_value() -> (r: serde_json::Value)
    ensures
        value_of(r) == ValueView::Null,
{
    serde_json::Value::from(())
}

/// `Value::from` for a truth value: that value.
#[verifier::external_body]
fn bool_value(b: bool) -> (r: serde_json::Value)
    ensures
        value_of(r) == ValueView::Bool(b),
{
    serde_json::Value::from(b)
}

/// `Value::from` for an unsigned integer: that number.
#[verifier::external_body]
fn number_value(n: u64) -> (r: serde_json::Value)
    ensures
        value_of(r) == ValueView::Number(n),
{
    serde_json::Value::from(n)
}

/// `Value::from` for a string: that string.
#[verifier::external_body]
fn text_value(s: &str) -> (r: serde_json::Value)
    ensures
        value_of(r) == ValueView::Text(s@),
{
    serde_json::Value::from(s)
}

/// `Value::from` for a vector of values: the array of them.
#[verifier::external_body]
fn list_value(items: Vec<serde_json::Value>) -> (r: serde_json::Value)
    ensures
        value_of(r) == ValueView::List(values_view(items@)),
{
    serde_json::Value::from(items)
}

/// No members.
pub open spec fn no_values() -> Map<Seq<char>, ValueView> {
    Map::empty()
}

/// `Value::from` for an object that `Map::new` made: an object without members.
#[verifier::external_body]
fn object_value() -> (r: serde_json::Value)
    ensures
        value_of(r) == ValueView::Object(no_values()),
{
    serde_json::Value::from(serde_json::Map::new())
}

/// What is assigned through `Value::index_mut`: the member `key` of an object
/// holds it afterwards, every other member what it held. A value that is no
/// object is left out, as the call panics on most of them.
#[verifier::external_body]
fn set_member(object: &mut serde_json::Value, key: &str, value: serde_json::Value)
    requires
        value_of(*old(object)) is Object,
    ensures
        value_of(*final(object)) == ValueView::Object(
            value_of(*old(object))->Object_0.insert(key@, value_of(value)),
        ),
{
    object[key] = value;
}

/// `serde_json::to_vec` for a value: it does not fail, and what it prints goes
/// by what the value holds, objects in the order of their members' names. There
/// is no value without bytes. An object that `marker::flat` tells is read back
/// as it was printed. Which bytes they are is not said.
#[verifier::external_body]
fn print_value(v: &serde_json::Value) -> (r: Result<Vec<u8>, serde_json::Error>)
    ensures
        match r {
            Ok(b) => {
                &&& b@ == printed(value_of(*v))
                &&& b@.len() > 0
                &&& marker::flat(value_of(*v)) ==> marker::parsed(b@) == Some(
                    marker::fields_of(value_of(*v)),
                )
            },
            Err(_) => false,
        },
{
    serde_json::to_vec(v)
}

/// `serde_json::to_vec_pretty` for a value: it does not fail, and what it prints
/// goes by what the value holds. Which bytes they are is not said.
#[verifier::external_body]
fn print_value_pretty(v: &serde_json::Value) -> (r: Result<Vec<u8>, serde_json::Error>)
    ensures
        match r {
            Ok(b) => b@ == printed_pretty(value_of(*v)),
            Err(_) => false,
        },
{
    serde_json::to_vec_pretty(v)
}

/// Where the last member of this name stands, below zero where there is none.
pub open spec fn last_named(members: Seq<(Seq<char>, JsonView)>, name: Seq<char>) -> int
    decreases members.len(),
{
    if members.len() == 0 {
        -1
    } else if members.last().0 == name {
        members.len() - 1
    } else {
        last_named(members.drop_last(), name)
    }
}

/// The value that says what a document says.
pub open spec fn said(j: JsonView) -> ValueView
    decreases j,
{
    match j {
        JsonView::Null => ValueView::Null,
        JsonView::Bool(b) => ValueView::Bool(b),
        JsonView::Number(n) => ValueView::Number(n),
        JsonView::Text(s) => ValueView::Text(s),
        JsonView::List(v) => ValueView::List(
            Seq::new(
                v.len(),
                |i: int|
                    if 0 <= i < v.len() {
                        said(v[i])
                    } else {
                        ValueView::Null
                    },
            ),
        ),
        JsonView::Object(v) => ValueView::Object(
            Map::new(
                |name: Seq<char>| last_named(v, name) >= 0,
                |name: Seq<char>|
                    if 0 <= last_named(v, name) < v.len() {
                        said(v[last_named(v, name)].1)
                    } else {
                        ValueView::Null
                    },
            ),
        ),
    }
}

proof fn lemma_last_named(members: Seq<(Seq<char>, JsonView)>, name: Seq<char>)
    ensures
        -1 <= last_named(members, name) < members.len(),
    decreases members.len(),
{
    if members.len() > 0 {
        lemma_last_named(members.drop_last(), name);
    }
}

/// An object with no members says nothing.
pub proof fn lemma_said_empty()
    ensures
        said(JsonView::Object(Seq::empty())) == ValueView::Object(no_values()),
{
    assert(said(JsonView::Object(Seq::empty()))->Object_0 =~= no_values());
}

/// One more member says one more thing, in place of what an earlier member of
/// its name said.
pub proof fn lemma_said_push(members: Seq<(Seq<char>, JsonView)>, name: Seq<char>, j: JsonView)
    ensures
        said(JsonView::Object(members.push((name, j)))) == ValueView::Object(
            said(JsonView::Object(members))->Object_0.insert(name, said(j)),
        ),
{
    let more = members.push((name, j));
    let a = said(JsonView::Object(more))->Object_0;
    let b = said(JsonView::Object(members))->Object_0.insert(name, said(j));
    assert(more.drop_last() =~= members);
    assert forall|k: Seq<char>|
        #![trigger a.dom().contains(k)]
        #![trigger b.dom().contains(k)]
        #![trigger a[k]]
        a.dom().contains(k) == b.dom().contains(k) && (a.dom().contains(k) ==> a[k] == b[k]) by {
        lemma_last_named(members, k);
        lemma_last_named(more, k);
        if k != name && last_named(members, k) >= 0 {
            assert(more[last_named(members, k)] == members[last_named(members, k)]);
        }
    }
    assert(a =~= b);
}

/// The value that says what `j` says.
#[verifier::loop_isolation(false)]
fn to_value(j: &Json) -> (r: serde_json::Value)
    ensures
        value_of(r) == said(j@),
    decreases j,
{
    match j {
        Json::Null => null_value(),
        Json::Bool(b) => bool_value(*b),
        Json::Number(n) => number_value(*n),
        Json::Text(s) => text_value(s.as_str()),
        Json::List(items) => {
            let mut out: Vec<serde_json::Value> = Vec::new();
            let mut i: usize = 0;
            while i < items.len()
                invariant
                    i <= items@.len(),
                    out@.len() == i,
                    forall|k: int| 0 <= k < i ==> value_of(#[trigger] out@[k]) == said(items@[k]@),
                decreases items@.len() - i,
            {
                assert(decreases_to!(items => items[i as int]));
                out.push(to_value(&items[i]));
                i = i + 1;
            }
            assert(values_view(out@) =~= said(j@)->List_0);
            list_value(out)
        },
        Json::Object(members) => {
            let ghost all = j@->Object_0;
            assert(all =~= members_view(members@));
            let mut object = object_value();
            let mut i: usize = 0;
            proof {
                lemma_said_empty();
                assert(all.take(0) =~= Seq::empty());
            }
            while i < members.len()
                invariant
                    i <= members@.len(),
                    value_of(object) == said(JsonView::Object(all.take(i as int))),
                decreases members@.len() - i,
            {
                proof {
                    lemma_said_push(all.take(i as int), all[i as int].0, all[i as int].1);
                    assert(all.take(i + 1) =~= all.take(i as int).push(all[i as int]));
                }
                assert(decreases_to!(members => members[i as int]));
                let value = to_value(&members[i].1);
                set_member(&mut object, members[i].0.as_str(), value);
                i = i + 1;
            }
            assert(all.take(i as int) =~= all);
            object
        },
    }
}

/// The bytes of a document, without white space. They go by what the document
/// says: documents that say the same have the same bytes.
pub fn record_bytes(j: &Json) -> (r: Result<Vec<u8>, serde_json::Error>)
    ensures
        match r {
            Ok(b) => {
                &&& b@ == printed(said(j@))
                &&& b@.len() > 0
                &&& marker::flat(said(j@)) ==> marker::parsed(b@) == Some(
                    marker::fields_of(said(j@)),
                )
            },
            Err(_) => false,
        },
{
    print_value(&to_value(j))
}

/// The bytes of a document, laid out over lines. They go by what the document
/// says.
pub fn record_bytes_pretty(j: &Json) -> (r: Result<Vec<u8>, serde_json::Error>)
    ensures
        match r {
            Ok(b) => b@ == printed_pretty(said(j@)),
            Err(_) => false,
        },
{
    print_value_pretty(&to_value(j))
}

} // verus!
