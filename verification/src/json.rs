//! JSON values, as configurations and schemas hold them.
use vstd::prelude::*;
use crate::text::{chars_of, decimal, same_chars};

verus! {

/// A JSON number: a whole number, or another one by its text.
pub enum Num {
    Unsigned(u64),
    Negative(i64),
    Real(String),
}

/// A JSON value. The members of an object keep their order.
pub enum Json {
    Null,
    Bool(bool),
    Number(Num),
    Text(String),
    List(Vec<Json>),
    Object(Vec<(String, Json)>),
}

/// Where the first member called `key` stands; the length where there is none.
pub open spec fn member_index(o: Seq<(String, Json)>, key: Seq<char>) -> int
    decreases o.len(),
{
    if o.len() == 0 {
        0
    } else {
        let p = member_index(o.drop_last(), key);
        if p < o.len() - 1 || o.last().0@ == key {
            p
        } else {
            o.len() as int
        }
    }
}

pub proof fn lemma_member_index(o: Seq<(String, Json)>, key: Seq<char>)
    ensures
        0 <= member_index(o, key) <= o.len(),
        member_index(o, key) < o.len() ==> o[member_index(o, key)].0@ == key,
        forall|i: int| 0 <= i < member_index(o, key) ==> (#[trigger] o[i]).0@ != key,
    decreases o.len(),
{
    if o.len() > 0 {
        let t = o.drop_last();
        lemma_member_index(t, key);
        let p = member_index(t, key);
        assert forall|i: int| 0 <= i < p implies (#[trigger] o[i]).0@ != key by {
            assert(t[i].0@ != key);
        }
        if p == o.len() - 1 && o.last().0@ != key {
            assert forall|i: int| 0 <= i < o.len() implies (#[trigger] o[i]).0@ != key by {
                if i < t.len() {
                    assert(t[i].0@ != key);
                }
            }
        }
    }
}

/// The member of an object called `key`.
pub open spec fn member(v: Json, key: Seq<char>) -> Option<Json> {
    match v {
        Json::Object(o) => {
            let p = member_index(o@, key);
            if 0 <= p < o@.len() {
                Some(o@[p].1)
            } else {
                None
            }
        },
        _ => None,
    }
}

/// A value as a signed whole number.
pub open spec fn whole(v: Json) -> Option<i64> {
    match v {
        Json::Number(Num::Unsigned(n)) => if n <= i64::MAX {
            Some(n as i64)
        } else {
            None
        },
        Json::Number(Num::Negative(n)) => Some(n),
        _ => None,
    }
}

/// The member called `key` as a signed whole number.
pub open spec fn whole_at(v: Json, key: Seq<char>) -> Option<i64> {
    match member(v, key) {
        Some(x) => whole(x),
        None => None,
    }
}

/// The member called `key` as a number.
pub open spec fn num_at(v: Json, key: Seq<char>) -> Option<Num> {
    match member(v, key) {
        Some(Json::Number(n)) => Some(n),
        _ => None,
    }
}

/// Whether `n` is the number given, or the one that stands for it where none is.
pub open spec fn num_or(n: Num, given: Option<Num>, default: Seq<char>) -> bool {
    match given {
        Some(x) => n == x,
        None => n is Real && n->Real_0@ == default,
    }
}

/// The member called `key` as a truth value.
pub open spec fn bool_at(v: Json, key: Seq<char>) -> Option<bool> {
    match member(v, key) {
        Some(Json::Bool(b)) => Some(b),
        _ => None,
    }
}

/// The member called `key` as a text.
pub open spec fn text_at(v: Json, key: Seq<char>) -> Option<Seq<char>> {
    match member(v, key) {
        Some(Json::Text(t)) => Some(t@),
        _ => None,
    }
}

/// The member called `key` as a list.
pub open spec fn list_at(v: Json, key: Seq<char>) -> Option<Seq<Json>> {
    match member(v, key) {
        Some(Json::List(a)) => Some(a@),
        _ => None,
    }
}

/// The whole numbers among the values of a list, in order.
pub open spec fn wholes(a: Seq<Json>) -> Seq<i64>
    decreases a.len(),
{
    if a.len() == 0 {
        seq![]
    } else {
        match whole(a.last()) {
            Some(n) => wholes(a.drop_last()).push(n),
            None => wholes(a.drop_last()),
        }
    }
}

impl Json {
    /// The member of an object called `key`.
    pub fn get(&self, key: &str) -> (r: Option<&Json>)
        ensures
            match r {
                Some(v) => member(*self, key@) == Some(*v),
                None => member(*self, key@) is None,
            },
    {
        match self {
            Json::Object(o) => {
                let mut i: usize = 0;
                proof {
                    lemma_member_index(o@, key@);
                }
                while i < o.len()
                    invariant
                        i <= o@.len(),
                        *self == Json::Object(*o),
                        i <= member_index(o@, key@) <= o@.len(),
                        member_index(o@, key@) < o@.len() ==> o@[member_index(o@, key@)].0@ == key@,
                        forall|j: int| 0 <= j < member_index(o@, key@) ==> (#[trigger] o@[j]).0@ != key@,
                    decreases o@.len() - i,
                {
                    if same_text(o[i].0.as_str(), key) {
                        return Some(&o[i].1);
                    }
                    i = i + 1;
                }
                None
            },
            _ => None,
        }
    }

    /// The value as a signed whole number.
    pub fn as_i64(&self) -> (r: Option<i64>)
        ensures
            r == whole(*self),
    {
        match self {
            Json::Number(Num::Unsigned(n)) => if *n <= i64::MAX as u64 {
                Some(*n as i64)
            } else {
                None
            },
            Json::Number(Num::Negative(n)) => Some(*n),
            _ => None,
        }
    }
}

/// Whether two texts are the same.
pub fn same_text(a: &str, b: &str) -> (r: bool)
    ensures
        r == (a@ == b@),
{
    let x = chars_of(a);
    let y = chars_of(b);
    same_chars(&x, &y)
}

/// The member called `key` as a signed whole number.
pub fn get_i64(v: &Json, key: &str) -> (r: Option<i64>)
    ensures
        r == whole_at(*v, key@),
{
    match v.get(key) {
        Some(x) => x.as_i64(),
        None => None,
    }
}

/// A copy of a number.
pub fn copy_num(n: &Num) -> (r: Num)
    ensures
        r == *n,
{
    match n {
        Num::Unsigned(k) => Num::Unsigned(*k),
        Num::Negative(k) => Num::Negative(*k),
        Num::Real(t) => Num::Real(t.clone()),
    }
}

/// The member called `key` as a number.
pub fn get_num(v: &Json, key: &str) -> (r: Option<Num>)
    ensures
        r == num_at(*v, key@),
{
    match v.get(key) {
        Some(Json::Number(n)) => Some(copy_num(n)),
        _ => None,
    }
}

/// The number given, or the one that stands for it where none is.
pub fn number_or(given: Option<Num>, default: &str) -> (r: Num)
    ensures
        num_or(r, given, default@),
{
    match given {
        Some(n) => n,
        None => Num::Real(default.to_owned()),
    }
}

/// The member called `key` as a truth value.
pub fn get_bool(v: &Json, key: &str) -> (r: Option<bool>)
    ensures
        r == bool_at(*v, key@),
{
    match v.get(key) {
        Some(Json::Bool(b)) => Some(*b),
        _ => None,
    }
}

/// The member called `key` as a text.
pub fn get_str<'a>(v: &'a Json, key: &str) -> (r: Option<&'a str>)
    ensures
        match r {
            Some(t) => text_at(*v, key@) == Some(t@),
            None => text_at(*v, key@) is None,
        },
{
    match v.get(key) {
        Some(Json::Text(t)) => Some(t.as_str()),
        _ => None,
    }
}

/// The member called `key` as a list.
pub fn get_list<'a>(v: &'a Json, key: &str) -> (r: Option<&'a Vec<Json>>)
    ensures
        match r {
            Some(a) => list_at(*v, key@) == Some(a@),
            None => list_at(*v, key@) is None,
        },
{
    match v.get(key) {
        Some(Json::List(a)) => Some(a),
        _ => None,
    }
}

/// The whole numbers among the values of a list, in order.
pub fn collect_i64(a: &Vec<Json>) -> (r: Vec<i64>)
    ensures
        r@ == wholes(a@),
{
    let mut r: Vec<i64> = Vec::new();
    let mut i: usize = 0;
    assert(a@.take(0) =~= seq![]);
    while i < a.len()
        invariant
            i <= a@.len(),
            r@ == wholes(a@.take(i as int)),
        decreases a@.len() - i,
    {
        assert(a@.take(i + 1).drop_last() =~= a@.take(i as int));
        assert(a@.take(i + 1).last() == a@[i as int]);
        match a[i].as_i64() {
            Some(n) => {
                r.push(n);
            },
            None => {},
        }
        i = i + 1;
    }
    assert(a@.take(i as int) =~= a@);
    r
}

/// A hexadecimal digit.
pub open spec fn hex_digit(d: int) -> char {
    "0123456789abcdef"@[d]
}

/// A character as it stands inside a JSON string.
pub open spec fn json_char(c: char) -> Seq<char> {
    if c == '"' {
        "\\\""@
    } else if c == '\\' {
        "\\\\"@
    } else if c as u32 == 8 {
        "\\b"@
    } else if c as u32 == 9 {
        "\\t"@
    } else if c as u32 == 10 {
        "\\n"@
    } else if c as u32 == 12 {
        "\\f"@
    } else if c as u32 == 13 {
        "\\r"@
    } else if (c as u32) < 32 {
        "\\u00"@.push(hex_digit(c as u32 as int / 16)).push(hex_digit(c as u32 as int % 16))
    } else {
        seq![c]
    }
}

/// The characters of a text as they stand inside a JSON string.
pub open spec fn json_chars(s: Seq<char>) -> Seq<char>
    decreases s.len(),
{
    if s.len() == 0 {
        seq![]
    } else {
        json_chars(s.drop_last()) + json_char(s.last())
    }
}

/// A text as a JSON string.
pub open spec fn json_string(s: Seq<char>) -> Seq<char> {
    "\""@ + json_chars(s) + "\""@
}

/// `serde_json::to_string` of a text: the text in quotes, with the quote, the backslash and
/// the control characters below the space escaped, in the short form where JSON has one.
#[verifier::external_body]
pub(crate) fn quoted(s: &str) -> (r: String)
    ensures
        r@ == json_string(s@),
{
    serde_json::to_string(s).unwrap_or_default()
}

/// What `serde_json::to_string` writes of the value.
pub uninterp spec fn compact_text(v: Json) -> Seq<char>;

/// `serde_json::Value`, the crate's own tree of a JSON value.
#[verifier::external_type_specification]
#[verifier::external_body]
pub struct ExValue(serde_json::Value);

/// The value as a `serde_json::Value`, each part as the crate has it: a number that is not whole by
/// `serde_json::Number::from_f64` of what its text stands for, and by `Value::Null` where it stands
/// for none. Nothing is claimed of it.
#[verifier::external_body]
fn value_of(v: &Json) -> serde_json::Value {
    match v {
        Json::Null => serde_json::Value::Null,
        Json::Bool(b) => serde_json::Value::from(*b),
        Json::Number(Num::Unsigned(n)) => serde_json::Value::from(*n),
        Json::Number(Num::Negative(n)) => serde_json::Value::from(*n),
        Json::Number(Num::Real(t)) => serde_json::Value::from(t.parse().ok().and_then(serde_json::Number::from_f64)),
        Json::Text(t) => serde_json::Value::from(t.as_str()),
        Json::List(a) => a.iter().map(value_of).collect(),
        Json::Object(o) => o.iter().map(|(k, x)| (k.clone(), value_of(x))).collect(),
    }
}

/// `serde_json::to_string` of a value: its compact text, which is named. Of a text it is the text
/// as a JSON string; of the words of JSON the word itself; of an unsigned whole number its digits.
#[verifier::external_body]
fn written(v: &Json) -> (r: String)
    ensures
        r@ == compact_text(*v),
        v is Null ==> r@ == "null"@,
        v matches Json::Bool(b) ==> r@ == if *b {
            "true"@
        } else {
            "false"@
        },
        v matches Json::Number(Num::Unsigned(n)) ==> r@ == decimal(n as nat),
        v matches Json::Text(t) ==> r@ == json_string(t@),
{
    serde_json::to_string(&value_of(v)).unwrap_or_default()
}

/// The compact text of a value.
pub fn to_text(v: &Json) -> (r: String)
    ensures
        r@ == compact_text(*v),
        v is Null ==> r@ == "null"@,
        v matches Json::Bool(b) ==> r@ == if *b {
            "true"@
        } else {
            "false"@
        },
        v matches Json::Number(Num::Unsigned(n)) ==> r@ == decimal(n as nat),
        v matches Json::Text(t) ==> r@ == json_string(t@),
{
    written(v)
}

/// What `serde_json::from_slice` reads from bytes; none where they hold no JSON.
pub uninterp spec fn json_read(bytes: Seq<u8>) -> Option<Json>;

/// A `serde_json::Value` as the value of this module, each part as the crate has it: a number that
/// is neither a `u64` nor an `i64` by the text that the crate writes of it. Nothing is claimed of it.
#[verifier::external_body]
fn json_of(v: serde_json::Value) -> Json {
    match v {
        serde_json::Value::Null => Json::Null,
        serde_json::Value::Bool(b) => Json::Bool(b),
        serde_json::Value::Number(n) => Json::Number(match (n.as_u64(), n.as_i64()) {
            (Some(u), _) => Num::Unsigned(u),
            (None, Some(i)) => Num::Negative(i),
            (None, None) => Num::Real(n.to_string()),
        }),
        serde_json::Value::String(t) => Json::Text(t),
        serde_json::Value::Array(a) => Json::List(a.into_iter().map(json_of).collect()),
        serde_json::Value::Object(o) => Json::Object(o.into_iter().map(|(k, x)| (k, json_of(x))).collect()),
    }
}

/// `serde_json::from_slice` into a `serde_json::Value`: what it reads, which is named, as a value of
/// this module, and nothing where it returns an error. It depends on the bytes alone.
#[verifier::external_body]
fn parsed(bytes: &[u8]) -> (r: Option<Json>)
    ensures
        r == json_read(bytes@),
{
    serde_json::from_slice(bytes).ok().map(json_of)
}

/// The JSON value that bytes hold; none where they hold no JSON.
pub fn read_json(bytes: &[u8]) -> (r: Option<Json>)
    ensures
        r == json_read(bytes@),
{
    parsed(bytes)
}

} // verus!
