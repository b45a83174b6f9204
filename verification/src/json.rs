//! JSON documents as the library reads them.
use vstd::prelude::*;

verus! {

#[verifier::external_type_specification]
#[verifier::external_body]
pub struct ExJsonValue(serde_json::Value);

/// A JSON value; a number keeps its text, an object its members in the
/// parser's order.
#[derive(Debug)]
pub enum Json {
    Null,
    Bool(bool),
    Number(String),
    Str(String),
    Array(Vec<Json>),
    Object(Vec<(String, Json)>),
}

/// A JSON value as mathematical values.
pub enum JsonValue {
    Null,
    Bool(bool),
    Number(Seq<char>),
    Str(Seq<char>),
    Array(Seq<JsonValue>),
    Object(Seq<(Seq<char>, JsonValue)>),
}

/// A JSON value as mathematical values.
pub open spec fn json_view(j: Json) -> JsonValue
    decreases j,
{
    match j {
        Json::Null => JsonValue::Null,
        Json::Bool(b) => JsonValue::Bool(b),
        Json::Number(n) => JsonValue::Number(n@),
        Json::Str(s) => JsonValue::Str(s@),
        Json::Array(items) => JsonValue::Array(Seq::new(
            items@.len(),
            |i: int| {
                if 0 <= i < items@.len() {
                    proof {
                        assert(decreases_to!(items => items@));
                        assert(decreases_to!(items@ => items@[i]));
                    }
                    json_view(items@[i])
                } else {
                    JsonValue::Null
                }
            },
        )),
        Json::Object(members) => JsonValue::Object(Seq::new(
            members@.len(),
            |i: int| {
                if 0 <= i < members@.len() {
                    proof {
                        assert(decreases_to!(members => members@));
                        assert(decreases_to!(members@ => members@[i]));
                        assert(decreases_to!(members@[i] => members@[i].1));
                    }
                    (members@[i].0@, json_view(members@[i].1))
                } else {
                    (Seq::empty(), JsonValue::Null)
                }
            },
        )),
    }
}

/// What `serde_json::from_slice` reads from bytes as a `serde_json::Value`,
/// or the text of its error.
pub uninterp spec fn json_document(bytes: Seq<u8>) -> Result<JsonValue, Seq<char>>;

/// A `serde_json::Value` as a [`Json`], one variant for each of its own:
/// a number by its `Display` text, an object's members in its iteration
/// order.
#[verifier::external_body]
fn json_of(v: &serde_json::Value) -> Json {
    match v {
        serde_json::Value::Null => Json::Null,
        serde_json::Value::Bool(b) => Json::Bool(*b),
        serde_json::Value::Number(n) => Json::Number(n.to_string()),
        serde_json::Value::String(s) => Json::Str(s.clone()),
        serde_json::Value::Array(items) => Json::Array(items.iter().map(json_of).collect()),
        serde_json::Value::Object(members) => Json::Object(members.iter().map(|(k, x)| (k.clone(), json_of(x))).collect()),
    }
}

/// `serde_json::from_slice::<serde_json::Value>`: the document, or the
/// `Display` text of the parser's error (see [`json_document`]).
#[verifier::external_body]
pub(crate) fn parse_json(bytes: &[u8]) -> (r: Result<Json, String>)
    ensures
        match r {
            Ok(j) => json_document(bytes@) == Ok::<JsonValue, Seq<char>>(json_view(j)),
            Err(e) => json_document(bytes@) == Err::<JsonValue, Seq<char>>(e@),
        },
{
    match serde_json::from_slice::<serde_json::Value>(bytes) {
        Ok(v) => Ok(json_of(&v)),
        Err(e) => Err(e.to_string()),
    }
}

/// The value of the first member named `key`, in member order.
pub open spec fn first_member(members: Seq<(Seq<char>, JsonValue)>, key: Seq<char>) -> Option<JsonValue>
    decreases members.len(),
{
    if members.len() == 0 {
        None
    } else {
        match first_member(members.drop_last(), key) {
            Some(v) => Some(v),
            None => if members.last().0 == key {
                Some(members.last().1)
            } else {
                None
            },
        }
    }
}

/// The member `key` of an object (`Value::get` with a string key); `None`
/// for any other value.
pub open spec fn json_member(v: JsonValue, key: Seq<char>) -> Option<JsonValue> {
    match v {
        JsonValue::Object(members) => first_member(members, key),
        _ => None,
    }
}

/// The text of a string value (`Value::as_str`).
pub open spec fn json_str(v: JsonValue) -> Option<Seq<char>> {
    match v {
        JsonValue::Str(s) => Some(s),
        _ => None,
    }
}

proof fn lemma_first_member_prefix(members: Seq<(Seq<char>, JsonValue)>, key: Seq<char>, n: int)
    requires
        0 <= n <= members.len(),
        first_member(members.take(n), key) is Some,
    ensures
        first_member(members, key) == first_member(members.take(n), key),
    decreases members.len() - n,
{
    if n < members.len() {
        assert(members.take(n + 1).drop_last() =~= members.take(n));
        lemma_first_member_prefix(members, key, n + 1);
    } else {
        assert(members.take(n) =~= members);
    }
}

/// The member `key` of an object (see [`json_member`]).
pub fn member<'a>(j: &'a Json, key: &str) -> (r: Option<&'a Json>)
    ensures
        match json_member(json_view(*j), key@) {
            Some(v) => r matches Some(x) && json_view(*x) == v,
            None => r is None,
        },
{
    match j {
        Json::Object(members) => {
            let ghost mv = json_view(*j)->Object_0;
            proof {
                assert(mv.len() == members@.len());
            }
            let mut i: usize = 0;
            while i < members.len()
                invariant
                    mv == json_view(*j)->Object_0,
                    *j == Json::Object(*members),
                    mv.len() == members@.len(),
                    0 <= i <= members@.len(),
                    first_member(mv.take(i as int), key@) is None,
                decreases members@.len() - i,
            {
                proof {
                    assert(mv.take(i + 1).drop_last() =~= mv.take(i as int));
                    assert(mv[i as int] == (members@[i as int].0@, json_view(members@[i as int].1)));
                }
                if crate::text::str_eq(members[i].0.as_str(), key) {
                    proof { lemma_first_member_prefix(mv, key@, i + 1); }
                    return Some(&members[i].1);
                }
                i = i + 1;
            }
            proof { assert(mv.take(i as int) =~= mv); }
            None
        },
        _ => None,
    }
}

/// The text of a string value (see [`json_str`]).
pub fn as_string(j: &Json) -> (r: Option<String>)
    ensures
        match json_str(json_view(*j)) {
            Some(s) => r matches Some(x) && x@ == s,
            None => r is None,
        },
{
    match j {
        Json::Str(s) => Some(crate::text::string_from(s.as_str())),
        _ => None,
    }
}

} // verus!
