//! JSON values: the library's own form of them, and how a line of JSON text becomes one.

use crate::dict::{first_at, has_key, key_index, keys_differ, lemma_first_at, Dict};
use crate::plain::plain_object;
use serde_json::Value;
use vstd::prelude::*;
use vstd::slice::slice_to_vec;

verus! {

/// A JSON number. An integer is `PosInt` from zero up and `NegInt` below; any other number is
/// `Float`, held as the bits of its double-precision form.
#[derive(Clone, Copy, PartialEq, Eq, Debug, Structural)]
pub enum Number {
    PosInt(u64),
    NegInt(i64),
    Float(u64),
}

/// The bits of positive infinity, the largest double above zero.
pub const INFINITY_BITS: u64 = 0x7ff0_0000_0000_0000;

impl Number {
    /// The number is above zero. A double is above zero exactly when its sign bit is clear, it
    /// is not zero and it is not one of the patterns behind infinity, which are no numbers.
    pub open spec fn positive(self) -> bool {
        match self {
            Number::PosInt(n) => n > 0,
            Number::NegInt(n) => n > 0,
            Number::Float(bits) => 0 < bits <= INFINITY_BITS,
        }
    }

    /// The number that stands for an integer.
    pub open spec fn of_i64(n: i64) -> Number {
        if n < 0 {
            Number::NegInt(n)
        } else {
            Number::PosInt(n as u64)
        }
    }

    /// Whether the number is above zero.
    pub fn is_positive(&self) -> (result: bool)
        ensures
            result == self.positive(),
    {
        match *self {
            Number::PosInt(n) => n > 0,
            Number::NegInt(n) => n > 0,
            Number::Float(bits) => 0 < bits && bits <= INFINITY_BITS,
        }
    }

    /// The number that stands for an integer.
    pub fn from_i64(n: i64) -> (result: Number)
        ensures
            result == Number::of_i64(n),
    {
        if n < 0 {
            Number::NegInt(n)
        } else {
            Number::PosInt(n as u64)
        }
    }
}

/// What a JSON value is: the mathematical form of `JsonValue`.
pub enum Json {
    Null,
    Bool(bool),
    Number(Number),
    String(Seq<char>),
    Array(Seq<Json>),
    Object(Map<Seq<char>, Json>),
}

/// A JSON value.
#[derive(Debug, PartialEq)]
pub enum JsonValue {
    Null,
    Bool(bool),
    Number(Number),
    String(String),
    Array(Vec<JsonValue>),
    Object(Object),
}

/// A JSON object: a log record, or an object inside one.
#[derive(Debug, PartialEq)]
pub struct Object {
    fields: Dict<JsonValue>,
}

impl JsonValue {
    /// What the value is.
    pub open spec fn json(self) -> Json
        decreases self,
    {
        match self {
            JsonValue::Null => Json::Null,
            JsonValue::Bool(b) => Json::Bool(b),
            JsonValue::Number(n) => Json::Number(n),
            JsonValue::String(s) => Json::String(s@),
            JsonValue::Array(items) => Json::Array(array_json(items@)),
            JsonValue::Object(object) => Json::Object(object.json()),
        }
    }
}

impl Object {
    /// What the object holds under each key.
    pub closed spec fn json(self) -> Map<Seq<char>, Json>
        decreases self,
    {
        entries_json(self.fields.entries@)
    }
}

/// What the items of an array are.
pub closed spec fn array_json(items: Seq<JsonValue>) -> Seq<Json>
    decreases items,
{
    Seq::new(
        items.len(),
        |i: int|
            if 0 <= i < items.len() {
                items[i].json()
            } else {
                Json::Null
            },
    )
}

/// The items of an array are, one by one, what its values are.
pub proof fn lemma_array_json(items: Seq<JsonValue>)
    ensures
        array_json(items).len() == items.len(),
        forall|i: int| 0 <= i < items.len() ==> #[trigger] array_json(items)[i] == items[i]@,
{
}

/// What a list of entries holds under each key.
spec fn entries_json(entries: Seq<(String, JsonValue)>) -> Map<Seq<char>, Json>
    decreases entries,
{
    Map::new(
        |key: Seq<char>| has_key(entries, key),
        |key: Seq<char>|
            {
                let i = key_index(entries, key);
                if 0 <= i < entries.len() {
                    entries[i].1.json()
                } else {
                    Json::Null
                }
            },
    )
}

impl View for JsonValue {
    type V = Json;

    open spec fn view(&self) -> Json {
        self.json()
    }
}

impl View for Object {
    type V = Map<Seq<char>, Json>;

    open spec fn view(&self) -> Map<Seq<char>, Json> {
        self.json()
    }
}

/// An object holds what its fields hold.
proof fn lemma_object_json(object: Object)
    ensures
        forall|key: Seq<char>| #[trigger]
            object@.contains_key(key) == object.fields@.contains_key(key),
        forall|key: Seq<char>|
            object.fields@.contains_key(key) ==> #[trigger] object@[key] == object.fields@[key].json(),
{
    object.fields.lemma_listed();
    let entries = object.fields.entries@;
    assert(object.fields.listed() == entries) by {
        crate::dict::lemma_entries(object.fields);
    }
    assert forall|key: Seq<char>| object.fields@.contains_key(key) implies #[trigger] object@[key]
        == object.fields@[key].json() by {
        let i = key_index(entries, key);
        assert(first_at(entries, key, i));
    }
}

/// Two lists of entries that agree entry by entry hold the same.
proof fn lemma_same_entries(a: Seq<(String, JsonValue)>, b: Seq<(String, JsonValue)>)
    requires
        a.len() == b.len(),
        forall|i: int| 0 <= i < a.len() ==> (#[trigger] a[i]).0@ == b[i].0@ && a[i].1.json() == b[i].1.json(),
    ensures
        entries_json(a) == entries_json(b),
{
    assert forall|key: Seq<char>, i: int| first_at(a, key, i) implies #[trigger] first_at(b, key, i) by {
        assert(a[i].0@ == b[i].0@);
        assert forall|j: int| 0 <= j < i implies (#[trigger] b[j]).0@ != key by {
            assert(a[j].0@ != key);
        }
    }
    assert forall|key: Seq<char>, i: int| first_at(b, key, i) implies #[trigger] first_at(a, key, i) by {
        assert(a[i].0@ == b[i].0@);
        assert forall|j: int| 0 <= j < i implies (#[trigger] a[j]).0@ != key by {
            assert(b[j].0@ != key);
        }
    }
    assert forall|key: Seq<char>| has_key(a, key) == has_key(b, key) by {
        if has_key(a, key) {
            assert(first_at(b, key, key_index(a, key)));
        }
        if has_key(b, key) {
            assert(first_at(a, key, key_index(b, key)));
        }
    }
    assert forall|key: Seq<char>| #[trigger] entries_json(a).contains_key(key) implies entries_json(a)[key]
        == entries_json(b)[key] by {
        let i = key_index(a, key);
        assert(first_at(a, key, i));
        assert(first_at(b, key, i));
        lemma_first_at(b, key, i);
        assert(a[i].1.json() == b[i].1.json());
    }
    assert(entries_json(a) =~= entries_json(b));
}

impl Object {
    /// An object without fields.
    pub fn new() -> (result: Object)
        ensures
            result@ == Map::<Seq<char>, Json>::empty(),
    {
        let result = Object { fields: Dict::new() };
        proof {
            lemma_object_json(result);
            assert(result@ =~= Map::<Seq<char>, Json>::empty());
        }
        result
    }

    /// The value of a field.
    pub fn get(&self, key: &str) -> (result: Option<&JsonValue>)
        ensures
            match result {
                Some(value) => self@.contains_key(key@) && value@ == self@[key@],
                None => !self@.contains_key(key@),
            },
    {
        proof {
            lemma_object_json(*self);
        }
        self.fields.get(key)
    }

    /// Whether the object has a field.
    pub fn contains_key(&self, key: &str) -> (result: bool)
        ensures
            result == self@.contains_key(key@),
    {
        proof {
            lemma_object_json(*self);
        }
        self.fields.contains_key(key)
    }

    /// Whether the object has no field.
    pub fn is_empty(&self) -> (result: bool)
        ensures
            result == (self@ == Map::<Seq<char>, Json>::empty()),
    {
        proof {
            lemma_object_json(*self);
        }
        let result = self.fields.is_empty();
        proof {
            if result {
                assert(self@ =~= Map::<Seq<char>, Json>::empty());
            } else {
                let key = choose|key: Seq<char>| self.fields@.contains_key(key);
                assert(self@.contains_key(key));
            }
        }
        result
    }

    /// Sets a field.
    pub fn insert(&mut self, key: String, value: JsonValue)
        ensures
            final(self)@ == old(self)@.insert(key@, value@),
    {
        proof {
            lemma_object_json(*old(self));
        }
        self.fields.insert(key, value);
        proof {
            lemma_object_json(*self);
            assert(self@ =~= old(self)@.insert(key@, value@));
        }
    }

    /// The number of fields.
    pub fn len(&self) -> (result: usize)
        ensures
            self@.dom().finite(),
            result == self@.len(),
    {
        let result = self.fields.len();
        proof {
            lemma_object_json(*self);
            assert(self@.dom() =~= self.fields@.dom());
        }
        result
    }

    /// All fields, each with its value.
    pub fn into_entries(self) -> (result: Vec<(String, JsonValue)>)
        ensures
            keys_differ(result@),
            forall|i: int|
                0 <= i < result@.len() ==> self@.contains_key((#[trigger] result@[i]).0@)
                    && self@[result@[i].0@] == result@[i].1@,
            forall|key: Seq<char>|
                self@.contains_key(key) ==> exists|i: int|
                    0 <= i < result@.len() && (#[trigger] result@[i]).0@ == key,
    {
        proof {
            lemma_object_json(self);
        }
        self.fields.into_entries()
    }
}

impl Clone for Object {
    fn clone(&self) -> (result: Self)
        ensures
            result@ == self@,
        decreases self,
    {
        let mut entries: Vec<(String, JsonValue)> = Vec::new();
        let mut i: usize = 0;
        while i < self.fields.entries.len()
            invariant
                i <= self.fields.entries.len(),
                entries.len() == i,
                forall|j: int|
                    0 <= j < i ==> (#[trigger] entries@[j]).0@ == self.fields.entries@[j].0@
                        && entries@[j].1.json() == self.fields.entries@[j].1.json(),
            decreases self.fields.entries.len() - i,
        {
            let entry = &self.fields.entries[i];
            let value = entry.1.clone();
            entries.push((entry.0.clone(), value));
            i += 1;
        }
        proof {
            lemma_same_entries(entries@, self.fields.entries@);
            use_type_invariant(&self.fields);
            assert forall|i: int, j: int| 0 <= i < j < entries@.len() implies (#[trigger] entries@[i]).0@
                != (#[trigger] entries@[j]).0@ by {
                assert(self.fields.entries@[i].0@ != self.fields.entries@[j].0@);
            }
        }
        Object { fields: Dict::of_entries(entries) }
    }
}

impl Clone for JsonValue {
    fn clone(&self) -> (result: Self)
        ensures
            result@ == self@,
        decreases self,
    {
        match self {
            JsonValue::Null => JsonValue::Null,
            JsonValue::Bool(b) => JsonValue::Bool(*b),
            JsonValue::Number(n) => JsonValue::Number(*n),
            JsonValue::String(s) => JsonValue::String(s.clone()),
            JsonValue::Array(items) => {
                let mut copies: Vec<JsonValue> = Vec::new();
                let mut i: usize = 0;
                while i < items.len()
                    invariant
                        i <= items.len(),
                        copies.len() == i,
                        decreases_to!(self => items),
                        forall|j: int| 0 <= j < i ==> (#[trigger] copies@[j]).json() == items@[j].json(),
                    decreases items.len() - i,
                {
                    let copy = items[i].clone();
                    copies.push(copy);
                    i += 1;
                }
                assert(array_json(copies@) =~= array_json(items@));
                JsonValue::Array(copies)
            },
            JsonValue::Object(object) => JsonValue::Object(object.clone()),
        }
    }
}

impl JsonValue {
    /// The text of a string.
    pub fn as_str(&self) -> (result: Option<&str>)
        ensures
            match result {
                Some(text) => self@ == Json::String(text@),
                None => !(self@ is String),
            },
    {
        match self {
            JsonValue::String(s) => Some(s.as_str()),
            _ => None,
        }
    }

    /// The object that the value is.
    pub fn as_object(&self) -> (result: Option<&Object>)
        ensures
            match result {
                Some(object) => self@ == Json::Object(object@),
                None => !(self@ is Object),
            },
    {
        match self {
            JsonValue::Object(object) => Some(object),
            _ => None,
        }
    }

    /// Whether the value is null.
    pub fn is_null(&self) -> (result: bool)
        ensures
            result == (self@ == Json::Null),
    {
        match self {
            JsonValue::Null => true,
            _ => false,
        }
    }

    /// Whether the value is a string.
    pub fn is_string(&self) -> (result: bool)
        ensures
            result == (self@ is String),
    {
        match self {
            JsonValue::String(_) => true,
            _ => false,
        }
    }
}

/// A value of `serde_json`.
#[verifier::external_type_specification]
#[verifier::external_body]
pub struct ExSerdeValue(serde_json::Value);

/// What `serde_json` says of text that is no JSON.
#[verifier::external_type_specification]
#[verifier::external_body]
pub struct ExSerdeError(serde_json::Error);

/// What `simd_json` says of text that is no JSON.
#[verifier::external_type_specification]
#[verifier::external_body]
pub struct ExSimdError(simd_json::Error);

/// What a value of `serde_json` holds.
pub uninterp spec fn json_of(value: serde_json::Value) -> Json;

/// What `serde_json::from_slice` reads in a byte string, or what it says of one that is no JSON.
pub uninterp spec fn serde_reading(bytes: Seq<u8>) -> Result<Json, serde_json::Error>;

/// What `simd_json::serde::from_slice` reads in a byte string: nothing where it is no JSON.
pub uninterp spec fn simd_reading(bytes: Seq<u8>) -> Option<Json>;

/// Calls `serde_json::from_slice`. Believed of it: what it returns depends on the bytes alone, the
/// error included, and it reads an object that is written plainly as that object. Which other
/// byte strings are JSON, and what they hold, is left unsaid.
#[verifier::external_body]
fn serde_from_slice(bytes: &[u8]) -> (result: Result<serde_json::Value, serde_json::Error>)
    ensures
        result is Ok <==> serde_reading(bytes@) is Ok,
        result matches Ok(value) ==> serde_reading(bytes@)->Ok_0 == json_of(value),
        result matches Err(error) ==> serde_reading(bytes@)->Err_0 == error,
        result is Err ==> plain_object(bytes@) is None,
        result matches Ok(value) ==> (plain_object(bytes@) matches Some(form) ==> json_of(value)
            == Json::Object(form.object())),
{
    serde_json::from_slice(bytes)
}

/// Calls `simd_json::serde::from_slice`, which rewrites the bytes as it reads them. Believed of
/// it: what it returns depends on the bytes alone. Which byte strings are JSON, what they hold
/// and what is left in the buffer is left unsaid.
#[verifier::external_body]
fn simd_from_slice(bytes: &mut Vec<u8>) -> (result: Result<serde_json::Value, simd_json::Error>)
    ensures
        result is Ok <==> simd_reading(old(bytes)@) is Some,
        result matches Ok(value) ==> simd_reading(old(bytes)@) == Some(json_of(value)),
{
    simd_json::serde::from_slice(bytes)
}

/// Takes a value of `serde_json` apart, variant by variant, into the library's own form, a number
/// by `Number::as_u64`, `as_i64` and `as_f64`. Believed of it: the two hold the same, and a
/// `serde_json::Map` hands out each of its keys once.
#[verifier::external_body]
fn read_value(value: serde_json::Value) -> (result: JsonValue)
    ensures
        result@ == json_of(value),
{
    match value {
        Value::Null => JsonValue::Null,
        Value::Bool(b) => JsonValue::Bool(b),
        Value::Number(n) => JsonValue::Number(match (n.as_u64(), n.as_i64()) {
            (Some(u), _) => Number::PosInt(u),
            (_, Some(i)) => Number::NegInt(i),
            _ => Number::Float(n.as_f64().unwrap_or_default().to_bits()),
        }),
        Value::String(s) => JsonValue::String(s),
        Value::Array(a) => JsonValue::Array(a.into_iter().map(read_value).collect()),
        Value::Object(m) => JsonValue::Object(Object {
            fields: Dict { entries: m.into_iter().map(|(k, v)| (k, read_value(v))).collect() }
        }),
    }
}

/// Reads a metadata line as JSON.
pub fn parse_json(bytes: &[u8]) -> (result: Result<JsonValue, serde_json::Error>)
    ensures
        match result {
            Ok(value) => serde_reading(bytes@) matches Ok(json) && json == value@,
            Err(error) => serde_reading(bytes@) matches Err(said) && said == error,
        },
        plain_object(bytes@) matches Some(form) ==> serde_reading(bytes@) matches Ok(json) && json
            == Json::Object(form.object()),
{
    match serde_from_slice(bytes) {
        Ok(value) => Ok(read_value(value)),
        Err(error) => Err(error),
    }
}

/// Reads a data line as JSON; the line itself is left alone.
pub fn parse_json_fast(bytes: &[u8]) -> (result: Option<JsonValue>)
    ensures
        match result {
            Some(value) => simd_reading(bytes@) == Some(value@),
            None => simd_reading(bytes@) is None,
        },
{
    let mut buffer = slice_to_vec(bytes);
    match simd_from_slice(&mut buffer) {
        Ok(value) => Some(read_value(value)),
        Err(_) => None,
    }
}

} // verus!
