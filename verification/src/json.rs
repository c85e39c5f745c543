//! JSON values of the `serde_json` crate: what they hold, and the few
//! accesses and constructions that the index needs.

use vstd::prelude::*;

verus! {

/// `serde_json::Value`.
#[verifier::external_type_specification]
#[verifier::external_body]
pub struct ExValue(serde_json::Value);

/// What a JSON value holds. A number shows only as the `u64` that it may be.
pub enum JsonTree {
    Null,
    Bool(bool),
    Number(Option<u64>),
    Text(Seq<char>),
    List(Seq<JsonTree>),
    Object(Map<Seq<char>, JsonTree>),
}

/// What a value of `serde_json` holds.
pub uninterp spec fn json_tree(v: serde_json::Value) -> JsonTree;

/// What `serde_json` reads from bytes: a value, or the text of its error.
pub uninterp spec fn parsed_json(content: Seq<u8>) -> Result<JsonTree, Seq<char>>;

impl JsonTree {
    /// The member `key` of an object; `Null` where there is none.
    pub open spec fn member(self, key: Seq<char>) -> JsonTree {
        match self {
            JsonTree::Object(m) => if m.contains_key(key) {
                m[key]
            } else {
                JsonTree::Null
            },
            _ => JsonTree::Null,
        }
    }

    /// The element `i` of a list; `Null` where there is none.
    pub open spec fn element(self, i: nat) -> JsonTree {
        match self {
            JsonTree::List(l) => if i < l.len() {
                l[i as int]
            } else {
                JsonTree::Null
            },
            _ => JsonTree::Null,
        }
    }

    /// The text of a text value.
    pub open spec fn text(self) -> Option<Seq<char>> {
        match self {
            JsonTree::Text(s) => Some(s),
            _ => None,
        }
    }

    /// The number of a number value, where it is a `u64`.
    pub open spec fn number(self) -> Option<u64> {
        match self {
            JsonTree::Number(n) => n,
            _ => None,
        }
    }
}

/// What a list of values holds.
pub open spec fn json_trees(values: Seq<serde_json::Value>) -> Seq<JsonTree> {
    values.map_values(|v: serde_json::Value| json_tree(v))
}

/// `serde_json::from_reader` over bytes in memory, into a `Value`; the error
/// comes as its text.
#[verifier::external_body]
pub(crate) fn parse(content: &[u8]) -> (r: Result<serde_json::Value, String>)
    ensures
        match r {
            Ok(v) => parsed_json(content@) == Ok::<JsonTree, Seq<char>>(json_tree(v)),
            Err(e) => parsed_json(content@) == Err::<JsonTree, Seq<char>>(e@),
        },
{
    serde_json::from_reader(content).map_err(|e: serde_json::Error| e.to_string())
}

/// Indexing a `Value` with a key: the member of an object, else null.
#[verifier::external_body]
pub(crate) fn member<'a>(v: &'a serde_json::Value, key: &str) -> (r: &'a serde_json::Value)
    ensures
        json_tree(*r) == json_tree(*v).member(key@),
{
    &v[key]
}

/// Indexing a `Value` with a number: the element of a list, else null.
#[verifier::external_body]
pub(crate) fn element(v: &serde_json::Value, i: usize) -> (r: &serde_json::Value)
    ensures
        json_tree(*r) == json_tree(*v).element(i as nat),
{
    &v[i]
}

/// `Value::as_str`: the text of a text value.
#[verifier::external_body]
pub(crate) fn text(v: &serde_json::Value) -> (r: Option<String>)
    ensures
        match r {
            Some(s) => json_tree(*v) == JsonTree::Text(s@),
            None => json_tree(*v).text() is None,
        },
{
    v.as_str().map(str::to_string)
}

/// `Value::as_u64`: the number of a number value that is a `u64`.
#[verifier::external_body]
pub(crate) fn number(v: &serde_json::Value) -> (r: Option<u64>)
    ensures
        r == json_tree(*v).number(),
{
    v.as_u64()
}

/// `Value::as_array`: the elements of a list.
#[verifier::external_body]
pub(crate) fn elements(v: &serde_json::Value) -> (r: Option<&Vec<serde_json::Value>>)
    ensures
        match r {
            Some(l) => json_tree(*v) == JsonTree::List(json_trees(l@)),
            None => !(json_tree(*v) is List),
        },
{
    v.as_array()
}

/// `Value::from` a text.
#[verifier::external_body]
pub(crate) fn text_value(s: &str) -> (v: serde_json::Value)
    ensures
        json_tree(v) == JsonTree::Text(s@),
{
    serde_json::Value::from(s)
}

/// `Value::from` an unsigned integer.
#[verifier::external_body]
pub(crate) fn number_value(n: u32) -> (v: serde_json::Value)
    ensures
        json_tree(v) == JsonTree::Number(Some(n as u64)),
{
    serde_json::Value::from(n)
}

/// `Value::from` a truth value.
#[verifier::external_body]
pub(crate) fn bool_value(b: bool) -> (v: serde_json::Value)
    ensures
        json_tree(v) == JsonTree::Bool(b),
{
    serde_json::Value::from(b)
}

/// `Value::from` a vector of values.
#[verifier::external_body]
pub(crate) fn list_value(items: Vec<serde_json::Value>) -> (v: serde_json::Value)
    ensures
        json_tree(v) == JsonTree::List(json_trees(items@)),
{
    serde_json::Value::from(items)
}

/// `Value::from` an empty `serde_json::Map`.
#[verifier::external_body]
pub(crate) fn empty_object() -> (v: serde_json::Value)
    ensures
        json_tree(v) == JsonTree::Object(Map::empty()),
{
    serde_json::Value::from(serde_json::Map::new())
}

/// Assignment to a member of an object by index: `v[key] = item`.
#[verifier::external_body]
pub(crate) fn set_member(v: &mut serde_json::Value, key: &str, item: serde_json::Value)
    requires
        json_tree(*old(v)) is Object,
    ensures
        json_tree(*final(v)) == JsonTree::Object(
            json_tree(*old(v))->Object_0.insert(key@, json_tree(item)),
        ),
{
    v[key] = item;
}

} // verus!
