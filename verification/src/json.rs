//! JSON documents as plain values, and the reading of one from text.

use vstd::prelude::*;
use vstd::string::StringExecFns;
use crate::text::same_text;

verus! {

/// A JSON value.
#[derive(Debug)]
pub enum JsonValue {
    Null,
    Bool(bool),
    /// A number: its value as a signed 64-bit integer, where it is one.
    Number(Option<i64>),
    String(String),
    Array(Vec<JsonValue>),
    /// The members of an object, each a key with its value.
    Object(Vec<(String, JsonValue)>),
}

/// What a [`JsonValue`] stands for.
pub ghost enum Json {
    Null,
    Bool(bool),
    Number(Option<i64>),
    String(Seq<char>),
    Array(Seq<Json>),
    Object(Seq<(Seq<char>, Json)>),
}

impl View for JsonValue {
    type V = Json;

    open spec fn view(&self) -> Json {
        json_of(*self)
    }
}

/// What `v` stands for.
pub open spec fn json_of(v: JsonValue) -> Json
    decreases v,
{
    match v {
        JsonValue::Null => Json::Null,
        JsonValue::Bool(b) => Json::Bool(b),
        JsonValue::Number(n) => Json::Number(n),
        JsonValue::String(s) => Json::String(s@),
        JsonValue::Array(items) => Json::Array(jsons_of(items@)),
        JsonValue::Object(members) => Json::Object(members_of(members@)),
    }
}

/// What each of `items` stands for, in order.
pub open spec fn jsons_of(items: Seq<JsonValue>) -> Seq<Json>
    decreases items,
{
    if items.len() == 0 {
        Seq::empty()
    } else {
        jsons_of(items.drop_last()).push(json_of(items.last()))
    }
}

/// What each of `members` stands for, in order.
pub open spec fn members_of(members: Seq<(String, JsonValue)>) -> Seq<(Seq<char>, Json)>
    decreases members,
{
    if members.len() == 0 {
        Seq::empty()
    } else {
        members_of(members.drop_last()).push((members.last().0@, json_of(members.last().1)))
    }
}

/// The views of the items of an array go item by item.
pub proof fn lemma_jsons_of(items: Seq<JsonValue>)
    ensures
        jsons_of(items).len() == items.len(),
        forall|i: int| 0 <= i < items.len() ==> (#[trigger] jsons_of(items)[i]) == items[i]@,
    decreases items.len(),
{
    if items.len() > 0 {
        lemma_jsons_of(items.drop_last());
    }
}

/// The views of the members of an object go member by member.
pub proof fn lemma_members_of(members: Seq<(String, JsonValue)>)
    ensures
        members_of(members).len() == members.len(),
        forall|i: int|
            0 <= i < members.len() ==> (#[trigger] members_of(members)[i]) == (
                members[i].0@,
                members[i].1@,
            ),
    decreases members.len(),
{
    if members.len() > 0 {
        lemma_members_of(members.drop_last());
    }
}

/// Place `i` holds the first member of `members` with the key `key`.
pub open spec fn first_with_key(members: Seq<(Seq<char>, Json)>, key: Seq<char>, i: int) -> bool {
    &&& 0 <= i < members.len()
    &&& members[i].0 == key
    &&& forall|j: int| 0 <= j < i ==> members[j].0 != key
}

impl Json {
    /// The value of the first member with the key `key`, where `self` is an
    /// object that has one.
    pub open spec fn member(self, key: Seq<char>) -> Option<Json> {
        match self {
            Json::Object(members) => if exists|i: int| first_with_key(members, key, i) {
                Some(members[choose|i: int| first_with_key(members, key, i)].1)
            } else {
                None
            },
            _ => None,
        }
    }

    /// The text of a string.
    pub open spec fn text(self) -> Option<Seq<char>> {
        match self {
            Json::String(s) => Some(s),
            _ => None,
        }
    }

    /// The value of an integer that fits 64 bits.
    pub open spec fn integer(self) -> Option<i64> {
        match self {
            Json::Number(n) => n,
            _ => None,
        }
    }
}

impl JsonValue {
    /// The value of the first member with the key `key`, where `self` is an
    /// object that has one.
    pub fn get(&self, key: &str) -> (r: Option<&JsonValue>)
        ensures
            match r {
                Some(v) => self@.member(key@) == Some(v@),
                None => self@.member(key@) is None,
            },
    {
        match self {
            JsonValue::Object(members) => {
                let ghost model = members_of(members@);
                proof {
                    lemma_members_of(members@);
                }
                let mut i: usize = 0;
                while i < members.len()
                    invariant
                        i <= members.len(),
                        self@ == Json::Object(model),
                        model.len() == members.len(),
                        forall|j: int|
                            0 <= j < members.len() ==> model[j] == (
                                members[j].0@,
                                members[j].1@,
                            ),
                        forall|j: int| 0 <= j < i ==> model[j].0 != key@,
                    decreases members.len() - i,
                {
                    if same_text(members[i].0.as_str(), key) {
                        proof {
                            assert(first_with_key(model, key@, i as int));
                            let c = choose|c: int| first_with_key(model, key@, c);
                            assert(c == i);
                        }
                        return Some(&members[i].1);
                    }
                    i += 1;
                }
                None
            },
            _ => None,
        }
    }

    /// The text of a string.
    pub fn as_str(&self) -> (r: Option<&str>)
        ensures
            match r {
                Some(s) => self@.text() == Some(s@),
                None => self@.text() is None,
            },
    {
        match self {
            JsonValue::String(s) => Some(s.as_str()),
            _ => None,
        }
    }

    /// The value of an integer that fits 64 bits.
    pub fn as_i64(&self) -> (r: Option<i64>)
        ensures
            r == self@.integer(),
    {
        match self {
            JsonValue::Number(n) => *n,
            _ => None,
        }
    }
}

/// The value type of `serde_json`, of which nothing is known here but what
/// [`json_held`] names.
#[verifier::external_type_specification]
#[verifier::external_body]
pub struct ExValue(serde_json::Value);

/// The error type of `serde_json`.
#[verifier::external_type_specification]
#[verifier::external_body]
pub struct ExError(serde_json::Error);

/// The document that `text` holds, where it is well-formed JSON, and else the
/// message that says why it is not.
pub uninterp spec fn json_document(text: Seq<char>) -> Result<Json, Seq<char>>;

/// What a value of `serde_json` holds.
pub uninterp spec fn json_held(value: serde_json::Value) -> Json;

/// The message of an error of `serde_json`.
pub uninterp spec fn error_text(error: serde_json::Error) -> Seq<char>;

/// The outermost layer of a value of `serde_json`: which kind of value it
/// is, with what it holds directly. The items of an array and the values of
/// the members of an object are values of `serde_json` still.
enum Layer<'a> {
    Null,
    Bool(bool),
    Number(Option<i64>),
    String(&'a str),
    Array(&'a Vec<serde_json::Value>),
    Object(Vec<(&'a String, &'a serde_json::Value)>),
}

impl<'a> Layer<'a> {
    /// What the value holds whose outermost layer this is.
    spec fn held(self) -> Json {
        match self {
            Layer::Null => Json::Null,
            Layer::Bool(b) => Json::Bool(b),
            Layer::Number(n) => Json::Number(n),
            Layer::String(s) => Json::String(s@),
            Layer::Array(items) => Json::Array(
                Seq::new(items.len() as nat, |i: int| json_held(items[i])),
            ),
            Layer::Object(members) => Json::Object(
                Seq::new(members.len() as nat, |i: int| (members[i].0@, json_held(*members[i].1))),
            ),
        }
    }
}

/// `serde_json::from_str`, reading a `serde_json::Value`. The outcome depends
/// on the text alone: a value that holds the document of the text, or, where
/// the text is no well-formed JSON, an error with the message for the text.
#[verifier::external_body]
fn value_from_str(text: &str) -> (r: Result<serde_json::Value, serde_json::Error>)
    ensures
        match r {
            Ok(value) => json_document(text@) == Ok::<Json, Seq<char>>(json_held(value)),
            Err(error) => json_document(text@) == Err::<Json, Seq<char>>(error_text(error)),
        },
{
    serde_json::from_str::<serde_json::Value>(text)
}

/// Tells the variants of `serde_json::Value` apart. What the value holds is
/// what its outermost layer shows: a number as `serde_json::Number::as_i64`
/// gives it, an array with what its items hold, an object with the keys of
/// its members, in the order of `serde_json::Map::iter`, and what their
/// values hold.
#[verifier::external_body]
fn outer_layer(value: &serde_json::Value) -> (r: Layer<'_>)
    ensures
        r.held() == json_held(*value),
{
    match value {
        serde_json::Value::Null => Layer::Null,
        serde_json::Value::Bool(b) => Layer::Bool(*b),
        serde_json::Value::Number(n) => Layer::Number(n.as_i64()),
        serde_json::Value::String(s) => Layer::String(s),
        serde_json::Value::Array(a) => Layer::Array(a),
        serde_json::Value::Object(o) => Layer::Object(o.iter().collect()),
    }
}

/// The message of a `serde_json::Error`, as its `Display` gives it.
#[verifier::external_body]
fn error_message(error: &serde_json::Error) -> (r: String)
    ensures
        r@ == error_text(*error),
{
    error.to_string()
}

proof fn lemma_jsons_of_push(items: Seq<JsonValue>, item: JsonValue)
    ensures
        jsons_of(items.push(item)) == jsons_of(items).push(item@),
{
    assert(items.push(item).drop_last() =~= items);
}

proof fn lemma_members_of_push(members: Seq<(String, JsonValue)>, member: (String, JsonValue))
    ensures
        members_of(members.push(member)) == members_of(members).push((member.0@, member.1@)),
{
    assert(members.push(member).drop_last() =~= members);
}

/// A [`JsonValue`] that stands for what `value` holds.
fn lift(value: &serde_json::Value) -> (r: JsonValue)
    ensures
        r@ == json_held(*value),
    decreases json_held(*value),
{
    match outer_layer(value) {
        Layer::Null => JsonValue::Null,
        Layer::Bool(b) => JsonValue::Bool(b),
        Layer::Number(n) => JsonValue::Number(n),
        Layer::String(s) => JsonValue::String(String::from_str(s)),
        Layer::Array(items) => {
            let ghost held = Seq::new(items.len() as nat, |i: int| json_held(items[i]));
            let mut out: Vec<JsonValue> = Vec::new();
            let mut i: usize = 0;
            while i < items.len()
                invariant
                    i <= items.len(),
                    json_held(*value) == Json::Array(held),
                    held == Seq::new(items.len() as nat, |i: int| json_held(items[i])),
                    jsons_of(out@) == held.take(i as int),
                decreases items.len() - i,
            {
                proof {
                    assert(held[i as int] == json_held(items[i as int]));
                    assert(decreases_to!(json_held(*value) => json_held(*value)->Array_0));
                    assert(decreases_to!(held => held[i as int]));
                }
                let item = lift(&items[i]);
                proof {
                    lemma_jsons_of_push(out@, item);
                    assert(held.take(i as int).push(held[i as int]) =~= held.take(i + 1));
                }
                out.push(item);
                i += 1;
            }
            proof {
                assert(held.take(items.len() as int) =~= held);
            }
            JsonValue::Array(out)
        },
        Layer::Object(members) => {
            let ghost held = Seq::new(
                members.len() as nat,
                |i: int| (members[i].0@, json_held(*members[i].1)),
            );
            let mut out: Vec<(String, JsonValue)> = Vec::new();
            let mut i: usize = 0;
            while i < members.len()
                invariant
                    i <= members.len(),
                    json_held(*value) == Json::Object(held),
                    held == Seq::new(
                        members.len() as nat,
                        |i: int| (members[i].0@, json_held(*members[i].1)),
                    ),
                    members_of(out@) == held.take(i as int),
                decreases members.len() - i,
            {
                proof {
                    assert(held[i as int] == (
                        members[i as int].0@,
                        json_held(*members[i as int].1),
                    ));
                    assert(decreases_to!(json_held(*value) => json_held(*value)->Object_0));
                    assert(decreases_to!(held => held[i as int]));
                    assert(decreases_to!(held[i as int] => held[i as int].1));
                }
                let member = (members[i].0.clone(), lift(members[i].1));
                proof {
                    lemma_members_of_push(out@, member);
                    assert(held.take(i as int).push(held[i as int]) =~= held.take(i + 1));
                }
                out.push(member);
                i += 1;
            }
            proof {
                assert(held.take(members.len() as int) =~= held);
            }
            JsonValue::Object(out)
        },
    }
}

/// Reads the JSON document that `text` holds. Fails, with the reader's
/// message, exactly where `text` is no well-formed JSON.
pub fn parse_json(text: &str) -> (r: Result<JsonValue, String>)
    ensures
        match r {
            Ok(value) => json_document(text@) == Ok::<Json, Seq<char>>(value@),
            Err(message) => json_document(text@) == Err::<Json, Seq<char>>(message@),
        },
{
    match value_from_str(text) {
        Ok(value) => Ok(lift(&value)),
        Err(error) => Err(error_message(&error)),
    }
}

} // verus!
