//! The JSON documents exchanged with the analytics service and the cache,
//! seen through `serde_json::Value`.
use vstd::prelude::*;

verus! {

/// What a JSON value holds. Integers are kept exactly; a number with a
/// fraction or an exponent is `Float`, whose digits the library never reads.
pub enum JsonTree {
    Null,
    Bool(bool),
    Int(int),
    Float,
    Str(Seq<char>),
    Array(Seq<JsonTree>),
    Object(Map<Seq<char>, JsonTree>),
}

/// `serde_json::Value`, held opaquely; `json_tree` names what it holds.
#[verifier::external_type_specification]
#[verifier::external_body]
pub struct ExValue(serde_json::Value);

/// The tree of values held by a `serde_json::Value`.
pub uninterp spec fn json_tree(v: serde_json::Value) -> JsonTree;

/// The tree that `serde_json` reads from a text, if the text is JSON.
pub uninterp spec fn json_parse(s: Seq<char>) -> Option<JsonTree>;

/// The compact text that `serde_json` writes for a tree.
pub uninterp spec fn json_text(t: JsonTree) -> Seq<char>;

pub open spec fn is_i64(n: int) -> bool {
    i64::MIN <= n <= i64::MAX
}

pub open spec fn is_u64(n: int) -> bool {
    0 <= n <= u64::MAX
}

pub open spec fn tree_as_i64(t: JsonTree) -> Option<i64> {
    match t {
        JsonTree::Int(n) => if is_i64(n) { Some(n as i64) } else { None },
        _ => None,
    }
}

pub open spec fn tree_as_u64(t: JsonTree) -> Option<u64> {
    match t {
        JsonTree::Int(n) => if is_u64(n) { Some(n as u64) } else { None },
        _ => None,
    }
}

/// No number with a fraction anywhere in the tree.
pub open spec fn float_free(t: JsonTree) -> bool
    decreases t,
{
    match t {
        JsonTree::Float => false,
        JsonTree::Array(items) => forall|i: int|
            0 <= i < items.len() ==> float_free(#[trigger] items[i]),
        JsonTree::Object(m) => forall|k: Seq<char>|
            m.contains_key(k) ==> float_free(#[trigger] m[k]),
        _ => true,
    }
}

/// The keys of `s` are distinct.
pub open spec fn keys_distinct<V>(s: Seq<(String, V)>) -> bool {
    forall|i: int, j: int|
        0 <= i < s.len() && 0 <= j < s.len() && i != j ==> s[i].0@ != s[j].0@
}

/// `s` lists each entry of `m` once, with the values as trees.
pub open spec fn lists_object(s: Seq<(String, serde_json::Value)>, m: Map<Seq<char>, JsonTree>) -> bool {
    &&& keys_distinct(s)
    &&& forall|k: Seq<char>| #[trigger]
        m.contains_key(k) <==> exists|i: int| 0 <= i < s.len() && s[i].0@ == k
    &&& forall|i: int| 0 <= i < s.len() ==> m[#[trigger] s[i].0@] == json_tree(s[i].1)
}

pub open spec fn trees_of(s: Seq<serde_json::Value>) -> Seq<JsonTree> {
    s.map_values(|v: serde_json::Value| json_tree(v))
}

/// Relies on `serde_json::Value::as_i64`: an integer that fits `i64`, else `None`.
pub assume_specification[ serde_json::Value::as_i64 ](v: &serde_json::Value) -> (r: Option<i64>)
    ensures
        r == tree_as_i64(json_tree(*v)),
;

/// Relies on `serde_json::Value::as_u64`: a non-negative integer that fits `u64`, else `None`.
pub assume_specification[ serde_json::Value::as_u64 ](v: &serde_json::Value) -> (r: Option<u64>)
    ensures
        r == tree_as_u64(json_tree(*v)),
;

/// Relies on `serde_json::Value::is_null`.
pub assume_specification[ serde_json::Value::is_null ](v: &serde_json::Value) -> (r: bool)
    ensures
        r == (json_tree(*v) is Null),
;

/// Relies on `serde_json::Value::as_str`: the text of a string, else `None`.
pub assume_specification<'a>[ serde_json::Value::as_str ](v: &'a serde_json::Value) -> (r: Option<&'a str>)
    ensures
        match json_tree(*v) {
            JsonTree::Str(s) => r is Some && r->0@ == s,
            _ => r is None,
        },
;

/// Relies on `serde_json::Value::as_array`: the items of an array, else `None`.
pub assume_specification<'a>[ serde_json::Value::as_array ](v: &'a serde_json::Value) -> (r: Option<&'a Vec<serde_json::Value>>)
    ensures
        match json_tree(*v) {
            JsonTree::Array(items) => r is Some && trees_of(r->0@) == items,
            _ => r is None,
        },
;

/// Relies on `serde_json::Value::as_object` and on iterating a
/// `serde_json::Map`, which yields each key once with its value.
#[verifier::external_body]
pub(crate) fn object_entries(v: &serde_json::Value) -> (r: Option<Vec<(String, serde_json::Value)>>)
    ensures
        match json_tree(*v) {
            JsonTree::Object(m) => r is Some && lists_object(r->0@, m),
            _ => r is None,
        },
{
    v.as_object().map(|m| m.iter().map(|(k, x)| (k.clone(), x.clone())).collect())
}

/// Relies on `serde_json::from_str`, read into a `serde_json::Value`.
#[verifier::external_body]
pub(crate) fn parse_text(s: &str) -> (r: Option<serde_json::Value>)
    ensures
        match json_parse(s@) {
            Some(t) => r is Some && json_tree(r->0) == t,
            None => r is None,
        },
{
    serde_json::from_str::<serde_json::Value>(s).ok()
}

/// Relies on the `Display` of `serde_json::Value`, which writes compact JSON.
#[verifier::external_body]
pub(crate) fn print_text(v: &serde_json::Value) -> (r: String)
    requires
        float_free(json_tree(*v)),
    ensures
        r@ == json_text(json_tree(*v)),
{
    v.to_string()
}

/// Relies on `serde_json::Value::Null`.
#[verifier::external_body]
pub(crate) fn json_null() -> (r: serde_json::Value)
    ensures
        json_tree(r) == JsonTree::Null,
{
    serde_json::Value::Null
}

/// Relies on `From<i64> for serde_json::Value`.
#[verifier::external_body]
pub(crate) fn json_i64(n: i64) -> (r: serde_json::Value)
    ensures
        json_tree(r) == JsonTree::Int(n as int),
{
    serde_json::Value::from(n)
}

/// Relies on `From<u64> for serde_json::Value`.
#[verifier::external_body]
pub(crate) fn json_u64(n: u64) -> (r: serde_json::Value)
    ensures
        json_tree(r) == JsonTree::Int(n as int),
{
    serde_json::Value::from(n)
}

/// Relies on `serde_json::Value::String`.
#[verifier::external_body]
pub(crate) fn json_str(s: String) -> (r: serde_json::Value)
    ensures
        json_tree(r) == JsonTree::Str(s@),
{
    serde_json::Value::String(s)
}

/// Relies on `serde_json::Value::Array`.
#[verifier::external_body]
pub(crate) fn json_array(items: Vec<serde_json::Value>) -> (r: serde_json::Value)
    ensures
        json_tree(r) == JsonTree::Array(trees_of(items@)),
{
    serde_json::Value::Array(items)
}

/// Relies on collecting distinct keys into a `serde_json::Map` and on
/// `serde_json::Value::Object`.
#[verifier::external_body]
pub(crate) fn json_object(entries: Vec<(String, serde_json::Value)>) -> (r: serde_json::Value)
    requires
        keys_distinct(entries@),
    ensures
        json_tree(r) is Object,
        lists_object(entries@, json_tree(r)->Object_0),
{
    serde_json::Value::Object(entries.into_iter().collect())
}

} // verus!
