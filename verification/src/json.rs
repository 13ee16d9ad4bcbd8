//! The library's model of JSON documents.
//!
//! Bodies, SSE payloads and error envelopes are JSON. The logic that reads
//! and rewrites them is verified over this plain enum; only the two steps
//! that cross between bytes and values — parsing and serialization — are
//! done by `serde_json` behind the trusted items at the bottom of this file.
//!
//! Numbers that are not integers are carried as their literal text and never
//! interpreted; object entries keep their order, and an object built by the
//! parser has pairwise distinct keys.

use vstd::prelude::*;

verus! {

/// A JSON value.
#[derive(Debug, PartialEq)]
pub enum Json {
    Null,
    Bool(bool),
    /// An integer that fits in `u64`. The parser prefers this variant for
    /// every non-negative integer.
    UInt(u64),
    /// A negative integer.
    Int(i64),
    /// Any other number, kept as its literal text exactly as the serializer
    /// would emit it.
    Num(String),
    Str(String),
    Arr(Vec<Json>),
    Obj(Vec<(String, Json)>),
}

/// Look a key up among object entries: the first pair with that key wins.
pub open spec fn obj_get(entries: Seq<(String, Json)>, key: Seq<char>) -> Option<Json>
    decreases entries.len(),
{
    if entries.len() == 0 {
        None
    } else if entries[0].0@ == key {
        Some(entries[0].1)
    } else {
        obj_get(entries.drop_first(), key)
    }
}

/// The member of an object under a key; `None` on anything that is not an
/// object or has no such member.
pub open spec fn json_get(j: Json, key: Seq<char>) -> Option<Json> {
    match j {
        Json::Obj(entries) => obj_get(entries@, key),
        _ => None,
    }
}

/// The characters of a string value.
pub open spec fn json_as_str(j: Json) -> Option<Seq<char>> {
    match j {
        Json::Str(s) => Some(s@),
        _ => None,
    }
}

/// The value as an unsigned integer, when it is one.
pub open spec fn json_as_u64(j: Json) -> Option<u64> {
    match j {
        Json::UInt(u) => Some(u),
        _ => None,
    }
}

proof fn lemma_obj_get_skip(entries: Seq<(String, Json)>, key: Seq<char>, i: int)
    requires
        0 <= i <= entries.len(),
        forall|k: int| 0 <= k < i ==> (#[trigger] entries[k].0)@ != key,
    ensures
        obj_get(entries, key) == obj_get(entries.skip(i), key),
    decreases i,
{
    if i > 0 {
        assert(entries.len() > 0);
        assert(entries[0].0@ != key);
        assert(obj_get(entries, key) == obj_get(entries.drop_first(), key));
        assert(entries.drop_first() =~= entries.skip(1));
        assert forall|k: int| 0 <= k < i - 1 implies (#[trigger] entries.skip(1)[k].0)@ != key by {
            assert(entries.skip(1)[k] == entries[k + 1]);
        }
        lemma_obj_get_skip(entries.skip(1), key, i - 1);
        assert(entries.skip(1).skip(i - 1) =~= entries.skip(i));
    } else {
        assert(entries.skip(0) =~= entries);
    }
}

/// When an index holds the key and nothing before it does, the lookup
/// yields that entry's value.
pub proof fn lemma_obj_get_at_first(entries: Seq<(String, Json)>, key: Seq<char>, i: int)
    requires
        0 <= i < entries.len(),
        entries[i].0@ == key,
        forall|k: int| 0 <= k < i ==> (#[trigger] entries[k].0)@ != key,
    ensures
        obj_get(entries, key) == Some(entries[i].1),
{
    lemma_obj_get_skip(entries, key, i);
    assert(entries.skip(i).len() > 0);
    assert(entries.skip(i)[0] == entries[i]);
}

/// When no index holds the key, the lookup yields nothing.
pub proof fn lemma_obj_get_none(entries: Seq<(String, Json)>, key: Seq<char>)
    requires
        forall|k: int| 0 <= k < entries.len() ==> (#[trigger] entries[k]).0@ != key,
    ensures
        obj_get(entries, key) is None,
{
    assert forall|k: int| 0 <= k < entries.len() implies (#[trigger] entries[k].0)@ != key by {
        assert(entries[k].0 == (entries[k]).0);
    }
    lemma_obj_get_skip(entries, key, entries.len() as int);
    assert(entries.skip(entries.len() as int).len() == 0);
}

/// When every value of an object's entries is well formed, so is the one a
/// lookup yields.
pub proof fn lemma_obj_get_wf_entries(entries: Seq<(String, Json)>, key: Seq<char>)
    requires
        forall|i: int| 0 <= i < entries.len() ==> json_wf((#[trigger] entries[i]).1),
        obj_get(entries, key) is Some,
    ensures
        json_wf(obj_get(entries, key)->Some_0),
    decreases entries.len(),
{
    if entries.len() > 0 {
        if entries[0].0@ != key {
            assert forall|i: int| 0 <= i < entries.drop_first().len() implies json_wf((
            #[trigger] entries.drop_first()[i]).1) by {
                assert(entries.drop_first()[i] == entries[i + 1]);
            }
            lemma_obj_get_wf_entries(entries.drop_first(), key);
        }
    }
}

impl Json {
    /// The member under `key`, when this is an object that has one.
    pub fn get<'a>(&'a self, key: &str) -> (r: Option<&'a Json>)
        ensures
            match r {
                Some(x) => json_get(*self, key@) == Some(*x),
                None => json_get(*self, key@) is None,
            },
    {
        match self {
            Json::Obj(entries) => {
                proof {
                    assert(*self == Json::Obj(*entries));
                }
                let mut i: usize = 0;
                while i < entries.len()
                    invariant
                        *self == Json::Obj(*entries),
                        i <= entries@.len(),
                        forall|k: int| 0 <= k < i ==> (#[trigger] entries@[k].0)@ != key@,
                    decreases entries@.len() - i,
                {
                    if crate::strutil::str_eq(entries[i].0.as_str(), key) {
                        proof {
                            lemma_obj_get_skip(entries@, key@, i as int);
                            assert(entries@.skip(i as int).len() > 0);
                            assert(entries@.skip(i as int)[0] == entries@[i as int]);
                            assert(obj_get(entries@.skip(i as int), key@) == Some(
                                entries@[i as int].1,
                            ));
                            assert(json_get(*self, key@) == obj_get(entries@, key@));
                        }
                        return Some(&entries[i].1);
                    }
                    i = i + 1;
                }
                proof {
                    lemma_obj_get_skip(entries@, key@, entries@.len() as int);
                    assert(entries@.skip(entries@.len() as int).len() == 0);
                }
                None
            },
            _ => None,
        }
    }

    /// The string slice inside, when this is a string.
    pub fn as_str<'a>(&'a self) -> (r: Option<&'a str>)
        ensures
            match r {
                Some(s) => json_as_str(*self) == Some(s@),
                None => json_as_str(*self) is None,
            },
    {
        match self {
            Json::Str(s) => Some(s.as_str()),
            _ => None,
        }
    }

    /// The value as a `u64`, when it is a non-negative integer.
    pub fn as_u64(&self) -> (r: Option<u64>)
        ensures
            r == json_as_u64(*self),
    {
        match self {
            Json::UInt(u) => Some(*u),
            _ => None,
        }
    }

    /// The elements, when this is an array.
    pub fn as_array<'a>(&'a self) -> (r: Option<&'a Vec<Json>>)
        ensures
            match r {
                Some(a) => *self == Json::Arr(*a),
                None => !(*self is Arr),
            },
    {
        match self {
            Json::Arr(a) => Some(a),
            _ => None,
        }
    }

    /// Whether this is a string equal to `s`.
    pub fn is_str(&self, s: &str) -> (r: bool)
        ensures
            r == (json_as_str(*self) == Some(s@)),
    {
        match self.as_str() {
            Some(t) => crate::strutil::str_eq(t, s),
            None => false,
        }
    }

    /// The member under `key` when it is a string; `None` otherwise.
    pub fn get_str<'a>(&'a self, key: &str) -> (r: Option<&'a str>)
        ensures
            match r {
                Some(s) => exists|x: Json|
                    json_get(*self, key@) == Some(x) && json_as_str(x) == Some(s@),
                None => !(exists|x: Json|
                    #![auto]
                    json_get(*self, key@) == Some(x) && json_as_str(x) is Some),
            },
    {
        match self.get(key) {
            Some(x) => x.as_str(),
            None => None,
        }
    }
}

/// Whether the `type` member of `j` is the string `t`.
pub open spec fn type_is(j: Json, t: Seq<char>) -> bool {
    match json_get(j, "type"@) {
        Some(x) => json_as_str(x) == Some(t),
        None => false,
    }
}

/// Well-formed values round-trip through the serializer: objects have
/// pairwise distinct keys, non-negative integers use the unsigned variant,
/// and number texts are ones the serializer itself would emit.
pub open spec fn json_wf(j: Json) -> bool
    decreases j,
{
    match j {
        Json::Null => true,
        Json::Bool(_) => true,
        Json::UInt(_) => true,
        Json::Int(i) => i < 0,
        Json::Num(s) => wf_num_text(s@),
        Json::Str(_) => true,
        Json::Arr(a) => forall|i: int| 0 <= i < a@.len() ==> json_wf(#[trigger] a@[i]),
        Json::Obj(o) => {
            &&& forall|i: int| 0 <= i < o@.len() ==> json_wf((#[trigger] o@[i]).1)
            &&& forall|i: int, k: int|
                0 <= i < k < o@.len() ==> (#[trigger] o@[i]).0@ != (#[trigger] o@[k]).0@
        },
    }
}

/// Whether a value nests containers no deeper than `d` levels. The
/// parser refuses documents above its recursion limit, so only values
/// within that bound can be promised to parse back.
pub open spec fn json_within_depth(j: Json, d: int) -> bool
    decreases j,
{
    match j {
        Json::Arr(a) => d > 0 && forall|i: int|
            0 <= i < a@.len() ==> json_within_depth(#[trigger] a@[i], d - 1),
        Json::Obj(o) => d > 0 && forall|i: int|
            0 <= i < o@.len() ==> json_within_depth((#[trigger] o@[i]).1, d - 1),
        _ => true,
    }
}

/// The deepest nesting the parser accepts: its recursion budget starts at
/// 128 and entering the 128th container exhausts it.
pub open spec fn parse_depth_limit() -> int {
    127
}

/// The number literals that the serializer re-emits unchanged.
pub uninterp spec fn wf_num_text(s: Seq<char>) -> bool;

/// What `serde_json` parses the given bytes into, as a value of this
/// library's JSON model; `None` where the bytes are not a JSON document.
pub uninterp spec fn json_parse_spec(s: Seq<u8>) -> Option<Json>;

/// The bytes `serde_json` serializes the given value to.
pub uninterp spec fn json_dump_spec(j: Json) -> Seq<u8>;

/// What a `serde_json` value holds, as a value of this library's JSON model.
pub uninterp spec fn value_model(v: serde_json::Value) -> Json;

#[verifier::external_type_specification]
#[verifier::external_body]
pub struct ExValue(serde_json::Value);

/// Relies on serde_json::from_slice::<Value>: the parse is a function of the
/// bytes alone; a parsed document is well formed in the sense of `json_wf`
/// (its objects carry pairwise distinct keys, its numbers are canonical) and
/// nests within the deserializer's recursion limit.
#[verifier::external_body]
fn from_slice_value(bytes: &[u8]) -> (r: Option<serde_json::Value>)
    ensures
        r is Some <==> json_parse_spec(bytes@) is Some,
        r matches Some(v) ==> json_parse_spec(bytes@) == Some(value_model(v)) && json_wf(
            value_model(v),
        ) && json_within_depth(value_model(v), parse_depth_limit()),
        r matches Some(v) ==> (value_model(v) matches Json::Num(s) ==> wf_num_text(s@)),
{
    serde_json::from_slice::<serde_json::Value>(bytes).ok()
}

/// Relies on the accessors of serde_json::Value and serde_json::Number: each
/// variant of a value is mapped to the corresponding variant of the model,
/// member order kept, integers preferring the unsigned variant, and other
/// numbers kept as the text the serializer emits for them.
#[verifier::external_body]
fn value_to_json(v: serde_json::Value) -> (r: Json)
    ensures
        r == value_model(v),
{
    match v {
        serde_json::Value::Null => Json::Null,
        serde_json::Value::Bool(b) => Json::Bool(b),
        serde_json::Value::Number(n) => match (n.as_u64(), n.as_i64()) {
            (Some(u), _) => Json::UInt(u),
            (None, Some(i)) => Json::Int(i),
            (None, None) => Json::Num(n.to_string()),
        },
        serde_json::Value::String(s) => Json::Str(s),
        serde_json::Value::Array(a) => Json::Arr(a.into_iter().map(value_to_json).collect()),
        serde_json::Value::Object(m) => Json::Obj(
            m.into_iter().map(|(k, x)| (k, value_to_json(x))).collect(),
        ),
    }
}

/// Relies on the constructors of serde_json::Value and serde_json::Number:
/// the inverse of `value_to_json`, faithful on well-formed values.
#[verifier::external_body]
fn json_to_value(j: &Json) -> (r: serde_json::Value)
    ensures
        json_wf(*j) ==> value_model(r) == *j,
{
    match j {
        Json::Null => serde_json::Value::Null,
        Json::Bool(b) => serde_json::Value::Bool(*b),
        Json::UInt(u) => serde_json::Value::from(*u),
        Json::Int(i) => serde_json::Value::from(*i),
        Json::Num(s) => s.parse::<serde_json::Number>().map(serde_json::Value::Number).unwrap_or(
            serde_json::Value::Null,
        ),
        Json::Str(s) => serde_json::Value::String(s.clone()),
        Json::Arr(a) => serde_json::Value::Array(a.iter().map(json_to_value).collect()),
        Json::Obj(o) => serde_json::Value::Object(
            o.iter().map(|(k, x)| (k.clone(), json_to_value(x))).collect(),
        ),
    }
}

/// Relies on serde_json::to_vec: serialization is a function of the value
/// alone; its output is compact JSON — non-empty, free of control and
/// newline bytes, with no leading or trailing blank, never the literal
/// `[DONE]` marker — and parsing it back yields the value it came from,
/// when that value is well formed and within the parser's recursion
/// limit (the serializer itself has none).
#[verifier::external_body]
fn to_vec_value(v: &serde_json::Value) -> (r: Vec<u8>)
    ensures
        r@ == json_dump_spec(value_model(*v)),
        r@.len() > 0,
        forall|i: int| 0 <= i < r@.len() ==> r@[i] != 10 && r@[i] != 13 && r@[i] != 9,
        r@[0] != 32 && r@[r@.len() - 1] != 32,
        r@ != done_marker(),
        json_wf(value_model(*v)) && json_within_depth(value_model(*v), parse_depth_limit())
            ==> json_parse_spec(r@) == Some(value_model(*v)),
{
    serde_json::to_vec(v).unwrap_or_else(|_| b"null".to_vec())
}

/// The bytes of the `[DONE]` end-of-stream marker some providers send.
pub open spec fn done_marker() -> Seq<u8> {
    seq![91u8, 68u8, 79u8, 78u8, 69u8, 93u8]
}

/// Parse bytes into a JSON value: exactly the documents `serde_json`
/// accepts, and every parsed value is well formed and nests within the
/// parser's recursion limit.
pub fn parse_json(bytes: &[u8]) -> (r: Option<Json>)
    ensures
        r == json_parse_spec(bytes@),
        r matches Some(j) ==> json_wf(j) && json_within_depth(j, parse_depth_limit()),
{
    match from_slice_value(bytes) {
        Some(v) => Some(value_to_json(v)),
        None => None,
    }
}

/// Serialize a JSON value to compact bytes. The output is non-empty, has no
/// newline, tab or carriage-return byte, no leading or trailing space, and
/// is never the `[DONE]` marker; a well-formed value that nests within the
/// parser's recursion limit parses back to itself.
pub fn dump_json(j: &Json) -> (r: Vec<u8>)
    ensures
        json_wf(*j) ==> r@ == json_dump_spec(*j),
        json_wf(*j) && json_within_depth(*j, parse_depth_limit()) ==> json_parse_spec(r@)
            == Some(*j),
        r@.len() > 0,
        forall|i: int| 0 <= i < r@.len() ==> r@[i] != 10 && r@[i] != 13 && r@[i] != 9,
        r@[0] != 32 && r@[r@.len() - 1] != 32,
        r@ != done_marker(),
{
    let v = json_to_value(j);
    to_vec_value(&v)
}

} // verus!
