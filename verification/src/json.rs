//! JSON values and their canonical texts.

use vstd::prelude::*;

use crate::error::CompileError;
use crate::schema::CanonicalValue;
use crate::text;

verus! {

/// A JSON number: its text, and its value where it is a whole number in range.
#[derive(Debug)]
pub struct JsonNumber {
    pub text: String,
    pub unsigned: Option<u64>,
    pub signed: Option<i64>,
}

/// A member of a JSON object.
#[derive(Debug)]
pub struct JsonMember {
    pub key: String,
    pub value: JsonValue,
}

/// A JSON value. A document is [`sorted`] where the members of its objects come in ascending order of
/// their keys.
#[derive(Debug)]
pub enum JsonValue {
    Null,
    Bool(bool),
    Number(JsonNumber),
    String(String),
    Array(Vec<JsonValue>),
    Object(Vec<JsonMember>),
}

/// The keys of members.
pub open spec fn keys(members: Seq<JsonMember>) -> Seq<Seq<char>> {
    members.map_values(|member: JsonMember| member.key@)
}

/// Whether the members of every object come in ascending order of their keys, none twice.
pub open spec fn sorted(value: JsonValue) -> bool
    decreases value,
{
    match value {
        JsonValue::Array(values) => forall|i: int|
            0 <= i < values@.len() ==> sorted(#[trigger] values@[i]),
        JsonValue::Object(members) => text::ascending(keys(members@)) && forall|i: int|
            0 <= i < members@.len() ==> sorted((#[trigger] members@[i]).value),
        _ => true,
    }
}

/// The value of a key: that of the first member with it.
pub open spec fn find(members: Seq<JsonMember>, key: Seq<char>) -> Option<JsonValue>
    decreases members.len(),
{
    if members.len() == 0 {
        None
    } else if members[0].key@ == key {
        Some(members[0].value)
    } else {
        find(members.skip(1), key)
    }
}

/// Whether a key is there.
pub open spec fn has(members: Seq<JsonMember>, key: Seq<char>) -> bool {
    find(members, key) is Some
}

/// Whether a value is a boolean or an object.
pub open spec fn spec_is_schema(value: JsonValue) -> bool {
    value is Bool || value is Object
}

/// The canonical text of a value: no spaces, and the members of an object in the order of their
/// keys.
pub open spec fn canonical(value: JsonValue) -> Seq<char>
    decreases value, 1nat, 0nat,
{
    match value {
        JsonValue::Null => "null"@,
        JsonValue::Bool(true) => "true"@,
        JsonValue::Bool(false) => "false"@,
        JsonValue::Number(number) => number.text@,
        JsonValue::String(text) => text::json_text(text@),
        JsonValue::Array(values) => "["@ + items_text(value, values@.len()) + "]"@,
        JsonValue::Object(members) => "{"@ + members_text(value, members@.len()) + "}"@,
    }
}

/// The canonical texts of the first `n` items of an array, with commas between them.
pub open spec fn items_text(value: JsonValue, n: nat) -> Seq<char>
    decreases value, 0nat, n,
{
    match value {
        JsonValue::Array(values) => if n == 0 || n > values@.len() {
            Seq::empty()
        } else {
            items_text(value, (n - 1) as nat) + (if n == 1 {
                Seq::empty()
            } else {
                ","@
            }) + canonical(values@[n - 1])
        },
        _ => Seq::empty(),
    }
}

/// The canonical texts of the first `n` members of an object, with commas between them.
pub open spec fn members_text(value: JsonValue, n: nat) -> Seq<char>
    decreases value, 0nat, n,
{
    match value {
        JsonValue::Object(members) => if n == 0 || n > members@.len() {
            Seq::empty()
        } else {
            members_text(value, (n - 1) as nat) + (if n == 1 {
                Seq::empty()
            } else {
                ","@
            }) + text::json_text(members@[n - 1].key@) + ":"@ + canonical(members@[n - 1].value)
        },
        _ => Seq::empty(),
    }
}

/// Finds the value of a key.
pub fn get<'a>(members: &'a Vec<JsonMember>, key: &str) -> (value: Option<&'a JsonValue>)
    ensures
        value is Some == has(members@, key@),
        value matches Some(found) ==> find(members@, key@) == Some(*found),
{
    let mut index: usize = 0;
    assert(members@.skip(0) =~= members@);
    while index < members.len()
        invariant
            index <= members@.len(),
            find(members@, key@) == find(members@.skip(index as int), key@),
        decreases members@.len() - index,
    {
        let ghost rest = members@.skip(index as int);
        assert(rest[0] == members@[index as int]);
        if text::same_text(members[index].key.as_str(), key) {
            return Some(&members[index].value);
        }
        assert(rest.skip(1) =~= members@.skip(index + 1));
        index += 1;
    }
    None
}

/// Whether a key is there.
pub fn contains(members: &Vec<JsonMember>, key: &str) -> (found: bool)
    ensures
        found == has(members@, key@),
{
    get(members, key).is_some()
}

/// Whether a value is a boolean or an object.
pub fn is_schema(value: &JsonValue) -> (schema: bool)
    ensures
        schema == spec_is_schema(*value),
{
    matches!(value, JsonValue::Bool(_) | JsonValue::Object(_))
}

/// Appends the canonical text of a value.
fn write_canonical(value: &JsonValue, output: &mut String) -> (result: Result<(), CompileError>)
    ensures
        result is Ok,
        final(output)@ == old(output)@ + canonical(*value),
    decreases value,
{
    let ghost before = output@;
    match value {
        JsonValue::Null => output.append("null"),
        JsonValue::Bool(true) => output.append("true"),
        JsonValue::Bool(false) => output.append("false"),
        JsonValue::Number(number) => output.append(number.text.as_str()),
        JsonValue::String(content) => match text::encode_json(content.as_str()) {
            Ok(json) => output.append(json.as_str()),
            Err(message) => {
                return Err(CompileError::InvalidJson { message });
            },
        },
        JsonValue::Array(values) => {
            output.append("[");
            let mut index: usize = 0;
            while index < values.len()
                invariant
                    index <= values@.len(),
                    *value == JsonValue::Array(*values),
                    output@ =~= before + "["@ + items_text(*value, index as nat),
                decreases values@.len() - index,
            {
                if index != 0 {
                    output.append(",");
                }
                match write_canonical(&values[index], output) {
                    Ok(()) => {},
                    Err(error) => {
                        return Err(error);
                    },
                }
                index += 1;
            }
            output.append("]");
        },
        JsonValue::Object(members) => {
            output.append("{");
            let mut index: usize = 0;
            while index < members.len()
                invariant
                    index <= members@.len(),
                    *value == JsonValue::Object(*members),
                    output@ =~= before + "{"@ + members_text(*value, index as nat),
                decreases members@.len() - index,
            {
                if index != 0 {
                    output.append(",");
                }
                match text::encode_json(members[index].key.as_str()) {
                    Ok(json) => output.append(json.as_str()),
                    Err(message) => {
                        return Err(CompileError::InvalidJson { message });
                    },
                }
                output.append(":");
                match write_canonical(&members[index].value, output) {
                    Ok(()) => {},
                    Err(error) => {
                        return Err(error);
                    },
                }
                index += 1;
            }
            output.append("}");
        },
    }
    assert(output@ =~= before + canonical(*value));
    Ok(())
}

/// The canonical form of a value.
pub fn canonical_value(value: &JsonValue) -> (result: Result<CanonicalValue, CompileError>)
    ensures
        result is Ok,
        result matches Ok(form) ==> form.json@ == canonical(*value),
{
    let mut output = String::new();
    match write_canonical(value, &mut output) {
        Ok(()) => {},
        Err(error) => {
            return Err(error);
        },
    }
    assert(output@ =~= canonical(*value));
    Ok(CanonicalValue { json: output })
}

/// Whether the `j`th member has the key of one before it.
pub open spec fn repeats(members: Seq<JsonMember>, j: int) -> bool {
    exists|i: int| 0 <= i < j && (#[trigger] members[i]).key@ == members[j].key@
}

/// Whether a list holds the first `n` members, in ascending order of their keys.
spec fn gathers(list: Seq<JsonMember>, members: Seq<JsonMember>, n: int) -> bool {
    &&& text::ascending(keys(list))
    &&& list.len() == n
    &&& list.to_multiset() == members.take(n).to_multiset()
}

/// Finds where a key stands among ascending keys, or would stand.
fn key_position(list: &Vec<JsonMember>, key: &str) -> (position: usize)
    requires
        text::ascending(keys(list@)),
    ensures
        position <= list@.len(),
        forall|i: int| 0 <= i < position ==> text::text_before((#[trigger] list@[i]).key@, key@),
        forall|i: int|
            position <= i < list@.len() ==> !text::text_before((#[trigger] list@[i]).key@, key@),
{
    let mut low: usize = 0;
    let mut high: usize = list.len();
    while low < high
        invariant
            low <= high <= list@.len(),
            text::ascending(keys(list@)),
            forall|i: int| 0 <= i < low ==> text::text_before((#[trigger] list@[i]).key@, key@),
            forall|i: int|
                high <= i < list@.len() ==> !text::text_before((#[trigger] list@[i]).key@, key@),
        decreases high - low,
    {
        let middle: usize = low + (high - low) / 2;
        let ghost at = list@[middle as int].key@;
        let ghost all = keys(list@);
        if text::is_text_before(list[middle].key.as_str(), key) {
            proof {
                assert forall|i: int| 0 <= i < middle + 1 implies text::text_before(
                    (#[trigger] list@[i]).key@,
                    key@,
                ) by {
                    if i < middle {
                        assert(text::text_before(all[i], all[middle as int]));
                        text::lemma_text_transitive(list@[i].key@, at, key@);
                    }
                }
            }
            low = middle + 1;
        } else {
            proof {
                assert forall|i: int| middle <= i < list@.len() implies !text::text_before(
                    (#[trigger] list@[i]).key@,
                    key@,
                ) by {
                    if i > middle && text::text_before(list@[i].key@, key@) {
                        assert(text::text_before(all[middle as int], all[i]));
                        text::lemma_text_transitive(at, list@[i].key@, key@);
                    }
                }
            }
            high = middle;
        }
    }
    low
}

/// Keys stay ascending where one is put in its place.
proof fn lemma_gathers(
    list: Seq<JsonMember>,
    members: Seq<JsonMember>,
    n: int,
    position: int,
)
    requires
        gathers(list, members, n),
        0 <= n < members.len(),
        0 <= position <= list.len(),
        forall|i: int|
            0 <= i < position ==> text::text_before((#[trigger] list[i]).key@, members[n].key@),
        forall|i: int|
            position <= i < list.len() ==> text::text_before(
                members[n].key@,
                (#[trigger] list[i]).key@,
            ),
    ensures
        gathers(list.insert(position, members[n]), members, n + 1),
{
    let added = list.insert(position, members[n]);
    let before = keys(list);
    let after = keys(added);
    assert forall|i: int, j: int| 0 <= i < j < after.len() implies text::text_before(
        #[trigger] after[i],
        #[trigger] after[j],
    ) by {
        let a = if i < position {
            i
        } else {
            i - 1
        };
        let b = if j < position {
            j
        } else {
            j - 1
        };
        if i != position {
            assert(after[i] == list[a].key@);
        }
        if j != position {
            assert(after[j] == list[b].key@);
        }
        if i != position && j != position {
            assert(text::text_before(before[a], before[b]));
        }
    }
    assert(members.take(n + 1) =~= members.take(n).push(members[n]));
    vstd::seq_lib::to_multiset_insert(list, position, members[n]);
    vstd::seq_lib::to_multiset_build(members.take(n), members[n]);
}

impl JsonValue {
    /// An object with the given members, or the first key that comes twice.
    pub fn object(members: Vec<JsonMember>) -> (result: Result<JsonValue, String>)
        ensures
            result matches Ok(value) ==> {
                &&& value matches JsonValue::Object(list) && text::ascending(keys(list@))
                    && list@.to_multiset() == members@.to_multiset()
                &&& forall|j: int| 0 <= j < members@.len() ==> !#[trigger] repeats(members@, j)
                &&& (forall|j: int|
                    0 <= j < members@.len() ==> sorted((#[trigger] members@[j]).value)) ==> sorted(
                    value,
                )
            },
            result matches Err(key) ==> exists|j: int|
                0 <= j < members@.len() && #[trigger] repeats(members@, j) && key@
                    == members@[j].key@ && forall|k: int|
                    0 <= k < j ==> !#[trigger] repeats(members@, k),
    {
        let ghost given = members@;
        let mut rest = members;
        let mut list: Vec<JsonMember> = Vec::new();
        let mut index: usize = 0;
        proof {
            assert(list@.to_multiset() =~= given.take(0).to_multiset()) by {
                assert(given.take(0) =~= list@);
            }
        }
        while index < rest.len()
            invariant
                given == members@,
                rest@.len() == given.len(),
                index <= given.len(),
                forall|i: int| index <= i < given.len() ==> #[trigger] rest@[i] == given[i],
                gathers(list@, given, index as int),
                forall|k: int| 0 <= k < index ==> !#[trigger] repeats(given, k),
            decreases given.len() - index,
        {
            let mut taken = JsonMember { key: String::new(), value: JsonValue::Null };
            std::mem::swap(&mut rest[index], &mut taken);
            let position: usize = key_position(&list, taken.key.as_str());
            let ghost n = index as int;
            assert(taken == given[n]);
            if position < list.len() && text::same_text(
                list[position].key.as_str(),
                taken.key.as_str(),
            ) {
                proof {
                    let there = list@[position as int];
                    lemma_gathered(list@, given, n, position as int);
                    assert(repeats(given, n));
                }
                return Err(taken.key);
            }
            proof {
                assert forall|i: int| position <= i < list@.len() implies text::text_before(
                    given[n].key@,
                    (#[trigger] list@[i]).key@,
                ) by {
                    text::lemma_text_total(given[n].key@, list@[i].key@);
                    if i > position {
                        let all = keys(list@);
                        assert(text::text_before(all[position as int], all[i]));
                        text::lemma_text_total(list@[position as int].key@, list@[i].key@);
                    }
                }
                if repeats(given, n) {
                    let i = choose|i: int|
                        0 <= i < n && (#[trigger] given[i]).key@ == given[n].key@;
                    let k = lemma_gathered_from(list@, given, n, i);
                    text::lemma_text_total(given[n].key@, given[n].key@);
                    assert(list@[k].key@ == given[n].key@);
                }
                lemma_gathers(list@, given, n, position as int);
            }
            list.insert(position, taken);
            index += 1;
        }
        assert(given.take(given.len() as int) =~= given);
        proof {
            if forall|j: int| 0 <= j < given.len() ==> sorted((#[trigger] given[j]).value) {
                assert forall|i: int| 0 <= i < list@.len() implies sorted(
                    (#[trigger] list@[i]).value,
                ) by {
                    broadcast use vstd::seq_lib::group_to_multiset_ensures;

                    assert(list@.to_multiset().count(list@[i]) > 0) by {
                        assert(list@.contains(list@[i]));
                    }
                    assert(given.contains(list@[i]));
                }
            }
        }
        Ok(JsonValue::Object(list))
    }
}

/// What was gathered is one of the members.
proof fn lemma_gathered(list: Seq<JsonMember>, members: Seq<JsonMember>, n: int, position: int)
    requires
        gathers(list, members, n),
        0 <= n < members.len(),
        0 <= position < list.len(),
        list[position].key@ == members[n].key@,
    ensures
        repeats(members, n),
{
    vstd::seq_lib::to_multiset_contains(list, list[position]);
    vstd::seq_lib::to_multiset_contains(members.take(n), list[position]);
    assert(list.contains(list[position]));
    assert(members.take(n).contains(list[position]));
    let i = choose|i: int| 0 <= i < n && members.take(n)[i] == list[position];
    assert(members[i].key@ == members[n].key@);
}

/// A member was gathered.
proof fn lemma_gathered_from(
    list: Seq<JsonMember>,
    members: Seq<JsonMember>,
    n: int,
    i: int,
) -> (k: int)
    requires
        gathers(list, members, n),
        0 <= i < n <= members.len(),
    ensures
        0 <= k < list.len(),
        list[k] == members[i],
{
    vstd::seq_lib::to_multiset_contains(list, members[i]);
    vstd::seq_lib::to_multiset_contains(members.take(n), members[i]);
    assert(members.take(n)[i] == members[i]);
    assert(members.take(n).contains(members[i]));
    assert(list.contains(members[i]));
    choose|k: int| 0 <= k < list.len() && list[k] == members[i]
}

} // verus!
