//! JSON documents, as far as they are read here.
use vstd::prelude::*;

use crate::text::same;

verus! {

/// A JSON document. Of a number only its value as an unsigned integer is
/// kept, where it has one.
#[derive(Debug)]
pub enum Json {
    Null,
    Bool(bool),
    Number(Option<u64>),
    Text(String),
    List(Vec<Json>),
    /// The members of an object, each key once.
    Object(Vec<(String, Json)>),
}

/// A document of `serde_json`.
#[verifier::external_type_specification]
#[verifier::external_body]
pub struct ExValue(serde_json::Value);

/// What `serde_json::from_str` makes of a text: a document, or the message
/// of its error.
pub uninterp spec fn parsed_value(s: Seq<char>) -> Result<serde_json::Value, Seq<char>>;

/// `serde_json::from_str`, into a document of that crate. Which texts are
/// documents, and what they hold, is only named here.
#[verifier::external_body]
fn parse_value(s: &str) -> (r: Result<serde_json::Value, String>)
    ensures
        match r {
            Ok(v) => parsed_value(s@) == Ok::<serde_json::Value, Seq<char>>(v),
            Err(e) => parsed_value(s@) == Err::<serde_json::Value, Seq<char>>(e@),
        },
{
    serde_json::from_str::<serde_json::Value>(s).map_err(|e| e.to_string())
}

/// What a document of `serde_json` holds.
pub uninterp spec fn tree_of(v: serde_json::Value) -> Json;

/// The contents of a `serde_json::Value`, variant by variant: numbers by
/// `Number::as_u64`, lists and objects in their order.
#[verifier::external_body]
fn tree(v: serde_json::Value) -> (r: Json)
    ensures
        r == tree_of(v),
{
    match v {
        serde_json::Value::Null => Json::Null,
        serde_json::Value::Bool(b) => Json::Bool(b),
        serde_json::Value::Number(n) => Json::Number(n.as_u64()),
        serde_json::Value::String(s) => Json::Text(s),
        serde_json::Value::Array(items) => Json::List(items.into_iter().map(tree).collect()),
        serde_json::Value::Object(members) => {
            Json::Object(members.into_iter().map(|(key, item)| (key, tree(item))).collect())
        },
    }
}

/// The document that a text writes, or the message of the error.
pub open spec fn document(s: Seq<char>) -> Result<Json, Seq<char>> {
    match parsed_value(s) {
        Ok(v) => Ok(tree_of(v)),
        Err(e) => Err(e),
    }
}

/// Reads a document.
pub fn read_json(s: &str) -> (r: Result<Json, String>)
    ensures
        match r {
            Ok(j) => document(s@) == Ok::<Json, Seq<char>>(j),
            Err(e) => document(s@) == Err::<Json, Seq<char>>(e@),
        },
{
    match parse_value(s) {
        Ok(v) => Ok(tree(v)),
        Err(e) => Err(e),
    }
}

/// The value of a key among members.
pub open spec fn member(members: Seq<(String, Json)>, key: Seq<char>) -> Option<Json>
    decreases members.len(),
{
    if members.len() == 0 {
        None
    } else if members[0].0@ == key {
        Some(members[0].1)
    } else {
        member(members.skip(1), key)
    }
}

/// The value of a key, where the document is an object that has it.
pub open spec fn field(j: Json, key: Seq<char>) -> Option<Json> {
    match j {
        Json::Object(members) => member(members@, key),
        _ => None,
    }
}

/// The value of a key, where the document is an object that has it.
pub fn get<'a>(j: &'a Json, key: &str) -> (r: Option<&'a Json>)
    ensures
        match r {
            Some(x) => field(*j, key@) == Some(*x),
            None => field(*j, key@) is None,
        },
{
    match j {
        Json::Object(members) => {
            let n: usize = members.len();
            let mut i: usize = 0;
            assert(members@.skip(0) =~= members@);
            while i < n
                invariant
                    i <= n,
                    n == members@.len(),
                    field(*j, key@) == member(members@, key@),
                    member(members@, key@) == member(members@.skip(i as int), key@),
                decreases n - i,
            {
                assert(members@.skip(i as int)[0] == members@[i as int]);
                assert(members@.skip(i as int).skip(1) =~= members@.skip(i + 1));
                if same(members[i].0.as_str(), key) {
                    return Some(&members[i].1);
                }
                i += 1;
            }
            None
        },
        _ => None,
    }
}

/// The text at a key.
pub open spec fn text_at(j: Json, key: Seq<char>) -> Option<Seq<char>> {
    match field(j, key) {
        Some(Json::Text(s)) => Some(s@),
        _ => None,
    }
}

/// The list at a key.
pub open spec fn list_at(j: Json, key: Seq<char>) -> Option<Seq<Json>> {
    match field(j, key) {
        Some(Json::List(items)) => Some(items@),
        _ => None,
    }
}

/// The unsigned integer at a key.
pub open spec fn number_at(j: Json, key: Seq<char>) -> Option<u64> {
    match field(j, key) {
        Some(Json::Number(n)) => n,
        _ => None,
    }
}

/// The text at `inner`, within the object at `outer`.
pub open spec fn text_within(j: Json, outer: Seq<char>, inner: Seq<char>) -> Option<Seq<char>> {
    match field(j, outer) {
        Some(x) => text_at(x, inner),
        None => None,
    }
}

/// The first element of the list at a key.
pub open spec fn first_at(j: Json, key: Seq<char>) -> Option<Json> {
    match list_at(j, key) {
        Some(items) => if items.len() > 0 { Some(items[0]) } else { None },
        None => None,
    }
}

/// The text at a key.
pub fn get_text(j: &Json, key: &str) -> (r: Option<String>)
    ensures
        crate::text::opt_view(r) == text_at(*j, key@),
{
    match get(j, key) {
        Some(Json::Text(s)) => Some(s.clone()),
        _ => None,
    }
}

/// The list at a key.
pub fn get_list<'a>(j: &'a Json, key: &str) -> (r: Option<&'a Vec<Json>>)
    ensures
        match r {
            Some(items) => list_at(*j, key@) == Some(items@),
            None => list_at(*j, key@) is None,
        },
{
    match get(j, key) {
        Some(Json::List(items)) => Some(items),
        _ => None,
    }
}

/// The unsigned integer at a key.
pub fn get_number(j: &Json, key: &str) -> (r: Option<u64>)
    ensures
        r == number_at(*j, key@),
{
    match get(j, key) {
        Some(Json::Number(n)) => *n,
        _ => None,
    }
}

/// The text at `inner`, within the object at `outer`.
pub fn get_text_within(j: &Json, outer: &str, inner: &str) -> (r: Option<String>)
    ensures
        crate::text::opt_view(r) == text_within(*j, outer@, inner@),
{
    match get(j, outer) {
        Some(x) => get_text(x, inner),
        None => None,
    }
}

/// The first element of the list at a key.
pub fn get_first<'a>(j: &'a Json, key: &str) -> (r: Option<&'a Json>)
    ensures
        match r {
            Some(x) => first_at(*j, key@) == Some(*x),
            None => first_at(*j, key@) is None,
        },
{
    match get_list(j, key) {
        Some(items) => if items.len() > 0 {
            Some(&items[0])
        } else {
            None
        },
        None => None,
    }
}


/// A field is the first member of that name; without one there is none, and
/// only objects have fields.
pub proof fn law_the_first_member_of_a_name_counts(
    members: Seq<(String, Json)>,
    key: Seq<char>,
    k: int,
)
    requires
        0 <= k <= members.len(),
        forall|j: int| 0 <= j < k ==> (#[trigger] members[j]).0@ != key,
        k < members.len() ==> members[k].0@ == key,
    ensures
        k < members.len() ==> member(members, key) == Some(members[k].1),
        k == members.len() ==> member(members, key) is None,
    decreases members.len(),
{
    if k > 0 {
        let rest = members.skip(1);
        assert(members[0].0@ != key);
        assert forall|j: int| 0 <= j < k - 1 implies (#[trigger] rest[j]).0@ != key by {
            assert(rest[j] == members[j + 1]);
        }
        law_the_first_member_of_a_name_counts(rest, key, k - 1);
    }
}

} // verus!
