//! JSON documents. The text and the tree of a document are `serde_json`'s; this
//! module says what its values hold and gives each operation on them that the
//! proxy uses its meaning over that.

use vstd::prelude::*;

verus! {

/// A JSON value.
#[verifier::external_type_specification]
#[verifier::external_body]
pub struct ExJsonValue(serde_json::Value);

/// What a JSON value holds. A number is a natural number of 64 bits, a negative
/// one, or the bit pattern of a floating-point number.
pub enum Tree {
    Null,
    Bool(bool),
    UInt(u64),
    Int(i64),
    Float(u64),
    Str(Seq<char>),
    Array(Seq<Tree>),
    Object(Map<Seq<char>, Tree>),
}

/// The contents of a JSON value.
pub uninterp spec fn contents(v: serde_json::Value) -> Tree;

/// The value that `serde_json` reads from a text, or what it says of a text
/// that is not JSON.
pub uninterp spec fn reading(text: Seq<u8>) -> Result<Tree, Seq<char>>;

/// The value that a text holds, if the text is JSON.
pub open spec fn document(text: Seq<u8>) -> Option<Tree> {
    match reading(text) {
        Ok(t) => Some(t),
        Err(_) => None,
    }
}

/// The text that `serde_json` writes for a value.
pub uninterp spec fn rendering(t: Tree) -> Seq<char>;

/// An object whose members are all numbers, strings, truth values or null, the
/// numbers whole, and none of them under a key that begins with `$`: `serde_json`
/// keeps some of these for itself and reads an object that starts with one as
/// something else.
pub open spec fn flat(t: Tree) -> bool {
    t matches Tree::Object(m) && forall|k: Seq<char>|
        m.contains_key(k) ==> {
            &&& !((#[trigger] m[k]) is Array)
            &&& !(m[k] is Object)
            &&& !(m[k] is Float)
            &&& !(m[k] is Int)
            &&& k.len() == 0 || k[0] != '$'
        }
}

/// `serde_json::from_slice` into a [`serde_json::Value`]: the value a text
/// holds, or what is wrong with the text. What is JSON, and what is said of the
/// rest, is left to the name.
#[verifier::external_body]
pub(crate) fn read(text: &[u8]) -> (r: Result<serde_json::Value, String>)
    ensures
        match r {
            Ok(v) => reading(text@) == Ok::<Tree, Seq<char>>(contents(v)),
            Err(e) => reading(text@) == Err::<Tree, Seq<char>>(e@),
        },
{
    match serde_json::from_slice(text) {
        Ok(v) => Ok(v),
        Err(e) => Err(e.to_string()),
    }
}

/// The value a text holds, or nothing if the text is not JSON.
pub(crate) fn parse(text: &[u8]) -> (r: Option<serde_json::Value>)
    ensures
        match r {
            Some(v) => document(text@) == Some(contents(v)),
            None => document(text@) is None,
        },
{
    match read(text) {
        Ok(v) => Some(v),
        Err(_) => None,
    }
}

/// `serde_json::Value::get` by key: the member of an object, if the value is
/// an object and has it.
#[verifier::external_body]
pub(crate) fn get<'a>(v: &'a serde_json::Value, key: &str) -> (r: Option<&'a serde_json::Value>)
    ensures
        match r {
            Some(x) => member(contents(*v), key@) == Some(contents(*x)),
            None => member(contents(*v), key@) is None,
        },
{
    v.get(key)
}

/// The member of an object under a key.
pub open spec fn member(t: Tree, key: Seq<char>) -> Option<Tree> {
    match t {
        Tree::Object(m) if m.contains_key(key) => Some(m[key]),
        _ => None,
    }
}

/// `serde_json::Value::as_u64`: the number, if the value is a natural number
/// of 64 bits.
#[verifier::external_body]
pub(crate) fn as_u64(v: &serde_json::Value) -> (r: Option<u64>)
    ensures
        r == whole(contents(*v)),
{
    v.as_u64()
}

/// The natural number that a value is.
pub open spec fn whole(t: Tree) -> Option<u64> {
    match t {
        Tree::UInt(n) => Some(n),
        _ => None,
    }
}

/// `serde_json::Value::as_str`: the text, if the value is a string.
#[verifier::external_body]
pub(crate) fn as_str(v: &serde_json::Value) -> (r: Option<&str>)
    ensures
        match r {
            Some(s) => string(contents(*v)) == Some(s@),
            None => string(contents(*v)) is None,
        },
{
    v.as_str()
}

/// The text that a value is.
pub open spec fn string(t: Tree) -> Option<Seq<char>> {
    match t {
        Tree::Str(s) => Some(s),
        _ => None,
    }
}

/// `serde_json::Value::as_bool`: the truth value, if the value is one.
#[verifier::external_body]
pub(crate) fn as_bool(v: &serde_json::Value) -> (r: Option<bool>)
    ensures
        r == truth(contents(*v)),
{
    v.as_bool()
}

/// The truth value that a value is.
pub open spec fn truth(t: Tree) -> Option<bool> {
    match t {
        Tree::Bool(b) => Some(b),
        _ => None,
    }
}

/// The elements of an array.
pub open spec fn elements(t: Tree) -> Option<Seq<Tree>> {
    match t {
        Tree::Array(s) => Some(s),
        _ => None,
    }
}

/// `serde_json::Value::as_array`: the elements in order, if the value is an
/// array.
#[verifier::external_body]
pub(crate) fn as_array(v: &serde_json::Value) -> (r: Option<&Vec<serde_json::Value>>)
    ensures
        match r {
            Some(a) => elements(contents(*v)) == Some(a@.map_values(|x: serde_json::Value| contents(x))),
            None => elements(contents(*v)) is None,
        },
{
    v.as_array()
}

/// `serde_json::Value::is_null`.
#[verifier::external_body]
pub(crate) fn is_null(v: &serde_json::Value) -> (r: bool)
    ensures
        r == (contents(*v) is Null),
{
    v.is_null()
}

/// `serde_json::Value::is_object`.
#[verifier::external_body]
pub(crate) fn is_object(v: &serde_json::Value) -> (r: bool)
    ensures
        r == (contents(*v) is Object),
{
    v.is_object()
}

/// `serde_json::Value::to_string`: the value on one line, in which no control
/// character stands. A flat object that is written out is read back as it was; of
/// other values that is not claimed, since floating-point numbers, deep nesting
/// and the keys that `serde_json` keeps for itself can make a difference.
#[verifier::external_body]
pub(crate) fn to_text(v: &serde_json::Value) -> (r: String)
    ensures
        r@ == rendering(contents(*v)),
        forall|i: int| 0 <= i < r@.len() ==> ' ' <= #[trigger] r@[i],
        flat(contents(*v)) ==> document(vstd::utf8::encode_utf8(r@)) == Some(contents(*v)),
{
    v.to_string()
}

/// `serde_json::Value::from` on a number.
#[verifier::external_body]
pub(crate) fn from_u64(n: u64) -> (r: serde_json::Value)
    ensures
        contents(r) == Tree::UInt(n),
{
    serde_json::Value::from(n)
}

/// `serde_json::Value::from` on a truth value.
#[verifier::external_body]
pub(crate) fn from_bool(b: bool) -> (r: serde_json::Value)
    ensures
        contents(r) == Tree::Bool(b),
{
    serde_json::Value::from(b)
}

/// `serde_json::Value::from` on a text.
#[verifier::external_body]
pub(crate) fn from_str(s: &str) -> (r: serde_json::Value)
    ensures
        contents(r) == Tree::Str(s@),
{
    serde_json::Value::from(s)
}

/// `serde_json::Value::from` on a row of values: the array of them.
#[verifier::external_body]
pub(crate) fn from_array(a: Vec<serde_json::Value>) -> (r: serde_json::Value)
    ensures
        contents(r) == Tree::Array(a@.map_values(|x: serde_json::Value| contents(x))),
{
    serde_json::Value::from(a)
}

/// `serde_json::Map::new`, as a value: the object without members.
#[verifier::external_body]
pub(crate) fn empty_object() -> (r: serde_json::Value)
    ensures
        contents(r) == Tree::Object(Map::empty()),
{
    serde_json::Value::Object(serde_json::Map::new())
}

/// Assignment through `serde_json::Value`'s index by key: the member is set,
/// whether or not it was there. Anything but an object would make it panic, or,
/// if null, become one; both are left out.
#[verifier::external_body]
pub(crate) fn set(v: &mut serde_json::Value, key: &str, x: serde_json::Value)
    requires
        contents(*old(v)) is Object,
    ensures
        contents(*final(v)) == with_member(contents(*old(v)), key@, contents(x)),
{
    v[key] = x;
}

/// The object with the member under `key` set to `x`.
pub open spec fn with_member(t: Tree, key: Seq<char>, x: Tree) -> Tree {
    match t {
        Tree::Object(m) => Tree::Object(m.insert(key, x)),
        _ => t,
    }
}

} // verus!
