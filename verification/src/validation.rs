//! Which values satisfy a JSON Schema, by the keywords of the document itself.

use vstd::prelude::*;
use vstd::utf8;

use crate::json;
use crate::json::{JsonMember, JsonValue};
use crate::lexical;
use crate::location;
use crate::text;

verus! {

/// A JSON value as a mathematical value. A number is what is written.
pub enum Datum {
    Null,
    Bool(bool),
    Number(Seq<u8>),
    String(Seq<char>),
    Array(Seq<Datum>),
    Object(Seq<Entry>),
}

/// A member of an object.
pub struct Entry {
    pub key: Seq<char>,
    pub value: Datum,
}

/// A comma, if something stands before.
pub open spec fn comma(k: nat) -> Seq<u8> {
    if k == 0 {
        Seq::empty()
    } else {
        seq![44u8]
    }
}

/// The canonical text of a value: no spaces, and the members of an object as they come.
pub open spec fn written(d: Datum) -> Seq<u8>
    decreases d, 1nat, 0nat,
{
    match d {
        Datum::Null => utf8::encode_utf8("null"@),
        Datum::Bool(true) => utf8::encode_utf8("true"@),
        Datum::Bool(false) => utf8::encode_utf8("false"@),
        Datum::Number(digits) => digits,
        Datum::String(t) => utf8::encode_utf8(text::json_text(t)),
        Datum::Array(items) => seq![91u8] + items_from(d, 0) + seq![93u8],
        Datum::Object(entries) => seq![123u8] + entries_from(d, 0) + seq![125u8],
    }
}

/// The texts of the items of an array from the `k`th on, with a comma before each but the first.
pub open spec fn items_from(d: Datum, k: nat) -> Seq<u8>
    decreases
            d,
            0nat,
            match d {
                Datum::Array(items) => items.len() - k,
                _ => 0int,
            },
{
    match d {
        Datum::Array(items) => if k < items.len() {
            comma(k) + written(items[k as int]) + items_from(d, k + 1)
        } else {
            Seq::empty()
        },
        _ => Seq::empty(),
    }
}

/// The texts of the members of an object from the `k`th on, with a comma before each but the first.
pub open spec fn entries_from(d: Datum, k: nat) -> Seq<u8>
    decreases
            d,
            0nat,
            match d {
                Datum::Object(entries) => entries.len() - k,
                _ => 0int,
            },
{
    match d {
        Datum::Object(entries) => if k < entries.len() {
            comma(k) + utf8::encode_utf8(text::json_text(entries[k as int].key)) + seq![58u8]
                + written(entries[k as int].value) + entries_from(d, k + 1)
        } else {
            Seq::empty()
        },
        _ => Seq::empty(),
    }
}

/// Whether the members of every object come in ascending order of their keys, none twice.
pub open spec fn ordered(d: Datum) -> bool
    decreases d,
{
    match d {
        Datum::Array(items) => forall|i: int|
            0 <= i < items.len() ==> ordered(#[trigger] items[i]),
        Datum::Object(entries) => {
            &&& forall|i: int, j: int|
                0 <= i < j < entries.len() ==> text::text_before(
                    (#[trigger] entries[i]).key,
                    (#[trigger] entries[j]).key,
                )
            &&& forall|i: int| 0 <= i < entries.len() ==> ordered((#[trigger] entries[i]).value)
        },
        _ => true,
    }
}

/// Whether a value can be written within the texts of the scalars: no string holds a control
/// character, and every number is written as a JSON number with a sign in its exponent.
pub open spec fn plain(d: Datum) -> bool
    decreases d,
{
    match d {
        Datum::Number(digits) => lexical::number(digits),
        Datum::String(t) => lexical::all_clean(t),
        Datum::Array(items) => forall|i: int| 0 <= i < items.len() ==> plain(#[trigger] items[i]),
        Datum::Object(entries) => forall|i: int|
            0 <= i < entries.len() ==> plain((#[trigger] entries[i]).value),
        _ => true,
    }
}

/// The value that a document holds.
pub open spec fn datum_of(value: JsonValue) -> Datum
    decreases value, 1nat, 0nat,
{
    match value {
        JsonValue::Null => Datum::Null,
        JsonValue::Bool(b) => Datum::Bool(b),
        JsonValue::Number(number) => Datum::Number(utf8::encode_utf8(number.text@)),
        JsonValue::String(t) => Datum::String(t@),
        JsonValue::Array(values) => Datum::Array(data_of(value, values@.len())),
        JsonValue::Object(members) => Datum::Object(entries_of(value, members@.len())),
    }
}

/// The first `n` items of an array.
pub open spec fn data_of(value: JsonValue, n: nat) -> Seq<Datum>
    decreases value, 0nat, n,
{
    match value {
        JsonValue::Array(values) => if n == 0 || n > values@.len() {
            Seq::empty()
        } else {
            data_of(value, (n - 1) as nat).push(datum_of(values@[n - 1]))
        },
        _ => Seq::empty(),
    }
}

/// The first `n` members of an object.
pub open spec fn entries_of(value: JsonValue, n: nat) -> Seq<Entry>
    decreases value, 0nat, n,
{
    match value {
        JsonValue::Object(members) => if n == 0 || n > members@.len() {
            Seq::empty()
        } else {
            entries_of(value, (n - 1) as nat).push(
                Entry { key: members@[n - 1].key@, value: datum_of(members@[n - 1].value) },
            )
        },
        _ => Seq::empty(),
    }
}

/// Whether the numbers of a document that are whole are just those that are written as such.
pub open spec fn numbers_read(value: JsonValue) -> bool
    decreases value,
{
    match value {
        JsonValue::Number(number) => (number.unsigned is Some || number.signed is Some)
            <==> lexical::integer(utf8::encode_utf8(number.text@)),
        JsonValue::Array(values) => forall|i: int|
            0 <= i < values@.len() ==> numbers_read(#[trigger] values@[i]),
        JsonValue::Object(members) => forall|i: int|
            0 <= i < members@.len() ==> numbers_read((#[trigger] members@[i]).value),
        _ => true,
    }
}

/// Whether a value is of a type. A whole number is a number, too.
pub open spec fn is_of(d: Datum, name: Seq<char>) -> bool {
    ||| name == "null"@ && d is Null
    ||| name == "boolean"@ && d is Bool
    ||| name == "string"@ && d is String
    ||| name == "number"@ && d is Number
    ||| name == "integer"@ && (d matches Datum::Number(digits) && lexical::integer(digits))
    ||| name == "array"@ && d is Array
    ||| name == "object"@ && d is Object
}

/// Whether a keyword says nothing of values.
pub open spec fn silent(keyword: Seq<char>) -> bool {
    ||| keyword == "$schema"@ || keyword == "$id"@ || keyword == "$defs"@ || keyword == "$comment"@
    ||| keyword == "title"@ || keyword == "description"@ || keyword == "default"@
    ||| keyword == "examples"@ || keyword == "deprecated"@ || keyword == "readOnly"@ || keyword
        == "writeOnly"@
}

/// Whether it is stated here what a keyword asks.
pub open spec fn stated(keyword: Seq<char>) -> bool {
    ||| silent(keyword)
    ||| keyword == "$ref"@ || keyword == "type"@ || keyword == "const"@ || keyword == "enum"@
    ||| keyword == "properties"@ || keyword == "required"@ || keyword == "additionalProperties"@
    ||| keyword == "items"@ || keyword == "prefixItems"@ || keyword == "minItems"@ || keyword
        == "maxItems"@
    ||| keyword == "minLength"@ || keyword == "maxLength"@ || keyword == "allOf"@ || keyword
        == "anyOf"@
}

/// Whether there are at least as many as a keyword asks for.
pub open spec fn enough(members: Seq<JsonMember>, keyword: Seq<char>, count: nat) -> bool {
    match json::find(members, keyword) {
        None => true,
        Some(JsonValue::Number(number)) => number.unsigned matches Some(least) && least <= count,
        Some(_) => false,
    }
}

/// Whether there are at most as many as a keyword allows.
pub open spec fn few(members: Seq<JsonMember>, keyword: Seq<char>, count: nat) -> bool {
    match json::find(members, keyword) {
        None => true,
        Some(JsonValue::Number(number)) => number.unsigned matches Some(most) && count <= most,
        Some(_) => false,
    }
}

/// Whether a type, a constant and an enumeration admit a value.
pub open spec fn admits_value(members: Seq<JsonMember>, d: Datum) -> bool {
    &&& match json::find(members, "type"@) {
        None => true,
        Some(JsonValue::String(name)) => is_of(d, name@),
        Some(_) => false,
    }
    &&& match json::find(members, "const"@) {
        None => true,
        Some(value) => d == datum_of(value),
    }
    &&& match json::find(members, "enum"@) {
        None => true,
        Some(JsonValue::Array(values)) => exists|v: int|
            0 <= v < values@.len() && d == datum_of(#[trigger] values@[v]),
        Some(_) => false,
    }
}

/// Whether the bounds of lengths admit a value: they speak of strings and of arrays.
pub open spec fn admits_length(members: Seq<JsonMember>, d: Datum) -> bool {
    match d {
        Datum::String(t) => enough(members, "minLength"@, t.len()) && few(
            members,
            "maxLength"@,
            t.len(),
        ),
        Datum::Array(items) => enough(members, "minItems"@, items.len()) && few(
            members,
            "maxItems"@,
            items.len(),
        ),
        _ => true,
    }
}

/// Whether a key is that of a member.
pub open spec fn has_key(entries: Seq<Entry>, key: Seq<char>) -> bool {
    exists|e: int| 0 <= e < entries.len() && (#[trigger] entries[e]).key == key
}

/// Whether the names that are required are there: this speaks of objects.
pub open spec fn admits_names(members: Seq<JsonMember>, d: Datum) -> bool {
    match d {
        Datum::Object(entries) => match json::find(members, "required"@) {
            None => true,
            Some(JsonValue::Array(values)) => forall|r: int|
                0 <= r < values@.len() ==> (#[trigger] values@[r] matches JsonValue::String(name)
                    && has_key(entries, name@)),
            Some(_) => false,
        },
        _ => true,
    }
}

/// The schema of the item at a place, if the schema of the array names one.
pub open spec fn item_schema(members: Seq<JsonMember>, k: int) -> Option<JsonValue> {
    match json::find(members, "prefixItems"@) {
        Some(JsonValue::Array(values)) if k < values@.len() => Some(values@[k]),
        _ => json::find(members, "items"@),
    }
}

/// The schema of the member with a key: that of the property, or that of all others.
pub open spec fn member_schema(members: Seq<JsonMember>, key: Seq<char>) -> Option<JsonValue> {
    match json::find(members, "properties"@) {
        Some(JsonValue::Object(named)) => match json::find(named@, key) {
            Some(schema) => Some(schema),
            None => json::find(members, "additionalProperties"@),
        },
        _ => json::find(members, "additionalProperties"@),
    }
}

/// Whether a value satisfies a schema of a document, by at most `n` nested schemas. A schema with a
/// keyword of which nothing is stated here is satisfied by nothing.
pub open spec fn satisfies(root: JsonValue, n: nat, schema: JsonValue, d: Datum) -> bool
    decreases n,
{
    n > 0 && match schema {
        JsonValue::Bool(all) => all,
        JsonValue::Object(members) => {
            &&& forall|i: int| 0 <= i < members@.len() ==> stated((#[trigger] members@[i]).key@)
            &&& admits_value(members@, d)
            &&& admits_length(members@, d)
            &&& admits_names(members@, d)
            &&& d matches Datum::Array(items) ==> forall|k: int|
                0 <= k < items.len() ==> match item_schema(members@, k) {
                    Some(inner) => satisfies(root, (n - 1) as nat, inner, #[trigger] items[k]),
                    None => true,
                }
            &&& d matches Datum::Object(entries) ==> forall|k: int|
                0 <= k < entries.len() ==> match member_schema(
                    members@,
                    (#[trigger] entries[k]).key,
                ) {
                    Some(inner) => satisfies(root, (n - 1) as nat, inner, entries[k].value),
                    None => true,
                }
            &&& match json::find(members@, "anyOf"@) {
                None => true,
                Some(JsonValue::Array(branches)) => exists|b: int|
                    0 <= b < branches@.len() && satisfies(
                        root,
                        (n - 1) as nat,
                        #[trigger] branches@[b],
                        d,
                    ),
                Some(_) => false,
            }
            &&& match json::find(members@, "allOf"@) {
                None => true,
                Some(JsonValue::Array(branches)) => forall|b: int|
                    0 <= b < branches@.len() ==> satisfies(
                        root,
                        (n - 1) as nat,
                        #[trigger] branches@[b],
                        d,
                    ),
                Some(_) => false,
            }
            &&& match json::find(members@, "$ref"@) {
                None => true,
                Some(JsonValue::String(reference)) => exists|target: JsonValue|
                    #[trigger] location::names(root, reference@, target) && satisfies(
                        root,
                        (n - 1) as nat,
                        target,
                        d,
                    ),
                Some(_) => false,
            }
        },
        _ => false,
    }
}

/// Whether a value satisfies a schema of a document.
pub open spec fn valid(root: JsonValue, schema: JsonValue, d: Datum) -> bool {
    exists|n: nat| #[trigger] satisfies(root, n, schema, d)
}

} // verus!
