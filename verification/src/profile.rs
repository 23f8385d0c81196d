//! Which documents have a normal form, and a grammar: those of the profile that is supported.

use vstd::prelude::*;

use crate::fault::Fault;
use crate::json;
use crate::json::{JsonMember, JsonValue};
use crate::keywords;
use crate::language;
use crate::location;
use crate::normalize;
use crate::order;
use crate::places;
use crate::places::Place;
use crate::pointer;
use crate::satisfaction;
use crate::satisfaction::{listed, shaped};
use crate::schema;
use crate::schema::{CompileLimits, JsonType, NormalizedSchema, SchemaArena};
use crate::text;
use crate::validation;

verus! {

/// What is put in stays, and so does all else.
proof fn lemma_put_holds(list: Seq<Place>, place: Place, k: int)
    requires
        0 <= k < list.len(),
    ensures
        places::put(list, place).contains(list[k]),
    decreases list.len(),
{
    let all = places::put(list, place);
    if list.len() == 0 || !text::text_before(place.pointer, list.last().pointer) {
        assert(all[k] == list[k]);
    } else {
        let front = places::put(list.drop_last(), place);
        if k < list.len() - 1 {
            lemma_put_holds(list.drop_last(), place, k);
            let i = choose|i: int| 0 <= i < front.len() && front[i] == list.drop_last()[k];
            assert(all[i] == list[k]);
        } else {
            assert(all[front.len() as int] == list[k]);
        }
    }
}

/// A place that is put among others is there.
proof fn lemma_put_there(list: Seq<Place>, place: Place)
    ensures
        places::put(list, place).contains(place),
    decreases list.len(),
{
    let all = places::put(list, place);
    if list.len() == 0 || !text::text_before(place.pointer, list.last().pointer) {
        assert(all[list.len() as int] == place);
    } else {
        lemma_put_there(list.drop_last(), place);
        let front = places::put(list.drop_last(), place);
        let i = choose|i: int| 0 <= i < front.len() && front[i] == place;
        assert(all[i] == place);
    }
}

/// Ordering loses no place.
proof fn lemma_ordered_holds(list: Seq<Place>, k: int)
    requires
        0 <= k < list.len(),
    ensures
        places::ordered(list).contains(list[k]),
    decreases list.len(),
{
    let front = places::ordered(list.drop_last());
    if k == list.len() - 1 {
        lemma_put_there(front, list.last());
    } else {
        lemma_ordered_holds(list.drop_last(), k);
        let i = choose|i: int| 0 <= i < front.len() && front[i] == list.drop_last()[k];
        lemma_put_holds(front, list.last(), i);
    }
}

/// A schema directly below a place.
pub open spec fn child(place: Place, k: int) -> Place {
    places::children(place)[k]
}

/// Whether the schemas directly below places stand at pointers of others.
pub open spec fn closed_within(found: Seq<Place>, pointers: Set<Seq<char>>) -> bool {
    forall|i: int, k: int|
        0 <= i < found.len() && 0 <= k < places::children(found[i]).len() ==> pointers.contains(
            (#[trigger] child(found[i], k)).pointer,
        )
}

/// The pointers of places as a set.
pub open spec fn pointer_set(list: Seq<Place>) -> Set<Seq<char>> {
    places::pointers(list).to_set()
}

/// A place is among places.
proof fn lemma_pointer_set(list: Seq<Place>, place: Place)
    requires
        list.contains(place),
    ensures
        pointer_set(list).contains(place.pointer),
{
    let i = choose|i: int| 0 <= i < list.len() && list[i] == place;
    assert(places::pointers(list)[i] == place.pointer);
}

/// Every schema below one that is found is found.
proof fn lemma_walk_closed(work: Seq<Place>, found: Seq<Place>, limit: nat)
    requires
        closed_within(found, pointer_set(found).union(pointer_set(work))),
    ensures
        places::walk(work, found, limit) matches Ok(list) ==> closed_within(
            list,
            pointer_set(list),
        ),
    decreases limit - found.len(), work.len(),
{
    let known = pointer_set(found).union(pointer_set(work));
    if work.len() == 0 {
        assert(places::pointers(work) =~= Seq::empty());
        assert(known =~= pointer_set(found));
    } else {
        let last = work.last();
        let rest = work.drop_last();
        assert forall|q: Seq<char>| #[trigger] pointer_set(work).contains(q) implies q
            == last.pointer || pointer_set(rest).contains(q) by {
            let i = choose|i: int|
                0 <= i < places::pointers(work).len() && places::pointers(work)[i] == q;
            if i < rest.len() {
                assert(places::pointers(rest)[i] == q);
            }
        }
        if places::pointers(found).contains(last.pointer) {
            assert(closed_within(found, pointer_set(found).union(pointer_set(rest)))) by {
                assert forall|i: int, k: int|
                    0 <= i < found.len() && 0 <= k < places::children(
                        found[i],
                    ).len() implies pointer_set(found).union(pointer_set(rest)).contains(
                    (#[trigger] child(found[i], k)).pointer,
                ) by {
                    assert(known.contains(child(found[i], k).pointer));
                }
            }
            lemma_walk_closed(rest, found, limit);
        } else if found.len() < limit {
            let below = places::ordered(places::children(last));
            let more = rest + below.reverse();
            let longer = found.push(last);
            let then = pointer_set(longer).union(pointer_set(more));
            assert forall|i: int, k: int|
                0 <= i < longer.len() && 0 <= k < places::children(longer[i]).len() implies then.contains(
                (#[trigger] child(longer[i], k)).pointer,
            ) by {
                let q = child(longer[i], k).pointer;
                if i < found.len() {
                    assert(longer[i] == found[i]);
                    assert(known.contains(child(found[i], k).pointer));
                    if pointer_set(found).contains(q) {
                        let j = choose|j: int|
                            0 <= j < places::pointers(found).len() && places::pointers(found)[j]
                                == q;
                        assert(places::pointers(longer)[j] == q);
                    } else if pointer_set(rest).contains(q) {
                        let j = choose|j: int|
                            0 <= j < places::pointers(rest).len() && places::pointers(rest)[j] == q;
                        assert(places::pointers(more)[j] == q);
                    } else {
                        assert(places::pointers(longer)[found.len() as int] == q);
                    }
                } else {
                    lemma_ordered_holds(places::children(last), k);
                    let j = choose|j: int|
                        0 <= j < below.len() && below[j] == places::children(last)[k];
                    let at = rest.len() + (below.len() - 1 - j);
                    assert(more[at] == below[j]);
                    assert(places::pointers(more)[at] == q);
                }
            }
            lemma_walk_closed(more, longer, limit);
        }
    }
}

/// The schema of a named entry is among those below.
proof fn lemma_named_there(below: Seq<char>, entries: Seq<JsonMember>, n: nat, i: int)
    requires
        n <= entries.len(),
        0 <= i < n,
        json::spec_is_schema(entries[i].value),
    ensures
        pointer_set(places::named_places(below, entries, n)).contains(
            pointer::joined(below, entries[i].key@),
        ),
    decreases n,
{
    let all = places::named_places(below, entries, n);
    let before = places::named_places(below, entries, (n - 1) as nat);
    let place = Place {
        pointer: pointer::joined(below, entries[i].key@),
        value: entries[i].value,
    };
    if i == n - 1 {
        assert(all[before.len() as int] == place);
        lemma_pointer_set(all, place);
    } else {
        lemma_named_there(below, entries, (n - 1) as nat, i);
        let j = choose|j: int|
            0 <= j < places::pointers(before).len() && places::pointers(before)[j] == place.pointer;
        assert(all[j] == before[j]);
        lemma_pointer_set(all, all[j]);
    }
}

/// The schema of a listed entry is among those below.
proof fn lemma_listed_there(below: Seq<char>, entries: Seq<JsonValue>, n: nat, i: int)
    requires
        n <= entries.len(),
        0 <= i < n,
        json::spec_is_schema(entries[i]),
    ensures
        pointer_set(places::listed_places(below, entries, n)).contains(
            pointer::joined(below, text::digits(i as nat)),
        ),
    decreases n,
{
    let all = places::listed_places(below, entries, n);
    let before = places::listed_places(below, entries, (n - 1) as nat);
    let place = Place {
        pointer: pointer::joined(below, text::digits(i as nat)),
        value: entries[i],
    };
    if i == n - 1 {
        assert(all[before.len() as int] == place);
        lemma_pointer_set(all, place);
    } else {
        lemma_listed_there(below, entries, (n - 1) as nat, i);
        let j = choose|j: int|
            0 <= j < places::pointers(before).len() && places::pointers(before)[j] == place.pointer;
        assert(all[j] == before[j]);
        lemma_pointer_set(all, all[j]);
    }
}

/// Where a part of the schemas below a place is among places, so is each of them.
proof fn lemma_part(list: Seq<Place>, id: int, part: Seq<Place>, from: int, q: Seq<char>)
    requires
        closed_within(list, pointer_set(list)),
        0 <= id < list.len(),
        0 <= from,
        from + part.len() <= places::children(list[id]).len(),
        places::children(list[id]).subrange(from, from + part.len()) == part,
        pointer_set(part).contains(q),
    ensures
        places::located(places::pointers(list), q) is Some,
{
    let k = choose|k: int| 0 <= k < places::pointers(part).len() && places::pointers(part)[k] == q;
    let all = places::children(list[id]);
    assert(all.subrange(from, from + part.len())[k] == all[from + k]);
    assert(child(list[id], from + k).pointer == q);
}

/// Every schema that a keyword of a schema holds has a place.
proof fn lemma_held(list: Seq<Place>, id: int, members: Vec<JsonMember>)
    requires
        closed_within(list, pointer_set(list)),
        0 <= id < list.len(),
        list[id].value == JsonValue::Object(members),
    ensures
        forall|q: Seq<char>|
            pointer_set(
                places::named_children(list[id].pointer, members@, "properties"@),
            ).contains(q) ==> #[trigger] places::located(places::pointers(list), q) is Some,
        forall|q: Seq<char>|
            pointer_set(
                places::single_child(list[id].pointer, members@, "additionalProperties"@),
            ).contains(q) ==> #[trigger] places::located(places::pointers(list), q) is Some,
        forall|q: Seq<char>|
            pointer_set(places::single_child(list[id].pointer, members@, "items"@)).contains(q)
                ==> #[trigger] places::located(places::pointers(list), q) is Some,
        forall|q: Seq<char>|
            pointer_set(
                places::listed_children(list[id].pointer, members@, "prefixItems"@),
            ).contains(q) ==> #[trigger] places::located(places::pointers(list), q) is Some,
        forall|q: Seq<char>|
            pointer_set(places::listed_children(list[id].pointer, members@, "allOf"@)).contains(q)
                ==> #[trigger] places::located(places::pointers(list), q) is Some,
        forall|q: Seq<char>|
            pointer_set(places::listed_children(list[id].pointer, members@, "anyOf"@)).contains(q)
                ==> #[trigger] places::located(places::pointers(list), q) is Some,
{
    let at = list[id].pointer;
    let all = members@;
    let whole = places::children(list[id]);
    let a = places::named_children(at, all, "$defs"@);
    let b = places::named_children(at, all, "properties"@);
    let c = places::single_child(at, all, "additionalProperties"@);
    let d = places::single_child(at, all, "items"@);
    let e = places::listed_children(at, all, "prefixItems"@);
    let f = places::listed_children(at, all, "allOf"@);
    let g = places::listed_children(at, all, "anyOf"@);
    let n1 = a.len() as int;
    let n2 = n1 + b.len();
    let n3 = n2 + c.len();
    let n4 = n3 + d.len();
    let n5 = n4 + e.len();
    let n6 = n5 + f.len();
    assert(whole.subrange(n1, n1 + b.len()) =~= b);
    assert(whole.subrange(n2, n2 + c.len()) =~= c);
    assert(whole.subrange(n3, n3 + d.len()) =~= d);
    assert(whole.subrange(n4, n4 + e.len()) =~= e);
    assert(whole.subrange(n5, n5 + f.len()) =~= f);
    assert(whole.subrange(n6, n6 + g.len()) =~= g);
    assert forall|q: Seq<char>|
        pointer_set(b).contains(q) implies #[trigger] places::located(
        places::pointers(list),
        q,
    ) is Some by {
        lemma_part(list, id, b, n1, q);
    }
    assert forall|q: Seq<char>|
        pointer_set(c).contains(q) implies #[trigger] places::located(
        places::pointers(list),
        q,
    ) is Some by {
        lemma_part(list, id, c, n2, q);
    }
    assert forall|q: Seq<char>|
        pointer_set(d).contains(q) implies #[trigger] places::located(
        places::pointers(list),
        q,
    ) is Some by {
        lemma_part(list, id, d, n3, q);
    }
    assert forall|q: Seq<char>|
        pointer_set(e).contains(q) implies #[trigger] places::located(
        places::pointers(list),
        q,
    ) is Some by {
        lemma_part(list, id, e, n4, q);
    }
    assert forall|q: Seq<char>|
        pointer_set(f).contains(q) implies #[trigger] places::located(
        places::pointers(list),
        q,
    ) is Some by {
        lemma_part(list, id, f, n5, q);
    }
    assert forall|q: Seq<char>|
        pointer_set(g).contains(q) implies #[trigger] places::located(
        places::pointers(list),
        q,
    ) is Some by {
        lemma_part(list, id, g, n6, q);
    }
}

/// How long a word is, and its first and third letter.
pub open spec fn looks(word: Seq<char>) -> (nat, char, char) {
    (word.len(), word[0], word[2])
}

/// The keywords that say something of values look different from one another and from the others.
proof fn lemma_words_look()
    ensures
        looks("$ref"@) == (4nat, '$', 'e'),
        looks("type"@) == (4nat, 't', 'p'),
        looks("const"@) == (5nat, 'c', 'n'),
        looks("enum"@) == (4nat, 'e', 'u'),
        looks("allOf"@) == (5nat, 'a', 'l'),
        looks("anyOf"@) == (5nat, 'a', 'y'),
        looks("oneOf"@) == (5nat, 'o', 'e'),
        looks("properties"@) == (10nat, 'p', 'o'),
        looks("required"@) == (8nat, 'r', 'q'),
        looks("additionalProperties"@) == (20nat, 'a', 'd'),
        looks("items"@) == (5nat, 'i', 'e'),
        looks("prefixItems"@) == (11nat, 'p', 'e'),
        looks("minItems"@) == (8nat, 'm', 'n'),
        looks("maxItems"@) == (8nat, 'm', 'x'),
        looks("minLength"@) == (9nat, 'm', 'n'),
        looks("maxLength"@) == (9nat, 'm', 'x'),
        looks("$schema"@) == (7nat, '$', 'c'),
        looks("$id"@) == (3nat, '$', 'd'),
        looks("$defs"@) == (5nat, '$', 'e'),
        looks("$comment"@) == (8nat, '$', 'o'),
        looks("title"@) == (5nat, 't', 't'),
        looks("description"@) == (11nat, 'd', 's'),
        looks("default"@) == (7nat, 'd', 'f'),
        looks("examples"@) == (8nat, 'e', 'a'),
        looks("deprecated"@) == (10nat, 'd', 'p'),
        looks("readOnly"@) == (8nat, 'r', 'a'),
        looks("writeOnly"@) == (9nat, 'w', 'i'),
{
    reveal_strlit("$ref");
    reveal_strlit("type");
    reveal_strlit("const");
    reveal_strlit("enum");
    reveal_strlit("allOf");
    reveal_strlit("anyOf");
    reveal_strlit("oneOf");
    reveal_strlit("properties");
    reveal_strlit("required");
    reveal_strlit("additionalProperties");
    reveal_strlit("items");
    reveal_strlit("prefixItems");
    reveal_strlit("minItems");
    reveal_strlit("maxItems");
    reveal_strlit("minLength");
    reveal_strlit("maxLength");
    reveal_strlit("$schema");
    reveal_strlit("$id");
    reveal_strlit("$defs");
    reveal_strlit("$comment");
    reveal_strlit("title");
    reveal_strlit("description");
    reveal_strlit("default");
    reveal_strlit("examples");
    reveal_strlit("deprecated");
    reveal_strlit("readOnly");
    reveal_strlit("writeOnly");
}

/// Whether the keywords of a schema that say something of values are among words.
pub open spec fn within(members: Seq<JsonMember>, words: Set<Seq<char>>) -> bool {
    forall|i: int|
        0 <= i < members.len() ==> validation::silent((#[trigger] members[i]).key@)
            || words.contains(members[i].key@)
}

/// A keyword that is not among the words is not there.
proof fn lemma_without(members: Seq<JsonMember>, words: Set<Seq<char>>, keyword: Seq<char>)
    requires
        within(members, words),
        !validation::silent(keyword),
    ensures
        !words.contains(keyword) ==> !json::has(members, keyword),
{
    if json::has(members, keyword) {
        let i = location::lemma_found(members, keyword);
    }
}

/// None of the keywords that are not among the words is there.
proof fn lemma_none_of(members: Seq<JsonMember>, words: Set<Seq<char>>)
    requires
        within(members, words),
    ensures
        !words.contains("$ref"@) ==> !json::has(members, "$ref"@),
        !words.contains("type"@) ==> !json::has(members, "type"@),
        !words.contains("const"@) ==> !json::has(members, "const"@),
        !words.contains("enum"@) ==> !json::has(members, "enum"@),
        !words.contains("allOf"@) ==> !json::has(members, "allOf"@),
        !words.contains("anyOf"@) ==> !json::has(members, "anyOf"@),
        !words.contains("oneOf"@) ==> !json::has(members, "oneOf"@),
        !words.contains("properties"@) ==> !json::has(members, "properties"@),
        !words.contains("required"@) ==> !json::has(members, "required"@),
        !words.contains("additionalProperties"@) ==> !json::has(members, "additionalProperties"@),
        !words.contains("items"@) ==> !json::has(members, "items"@),
        !words.contains("prefixItems"@) ==> !json::has(members, "prefixItems"@),
        !words.contains("minItems"@) ==> !json::has(members, "minItems"@),
        !words.contains("maxItems"@) ==> !json::has(members, "maxItems"@),
        !words.contains("minLength"@) ==> !json::has(members, "minLength"@),
        !words.contains("maxLength"@) ==> !json::has(members, "maxLength"@),
{
    lemma_words_look();
    lemma_without(members, words, "$ref"@);
    lemma_without(members, words, "type"@);
    lemma_without(members, words, "const"@);
    lemma_without(members, words, "enum"@);
    lemma_without(members, words, "allOf"@);
    lemma_without(members, words, "anyOf"@);
    lemma_without(members, words, "oneOf"@);
    lemma_without(members, words, "properties"@);
    lemma_without(members, words, "required"@);
    lemma_without(members, words, "additionalProperties"@);
    lemma_without(members, words, "items"@);
    lemma_without(members, words, "prefixItems"@);
    lemma_without(members, words, "minItems"@);
    lemma_without(members, words, "maxItems"@);
    lemma_without(members, words, "minLength"@);
    lemma_without(members, words, "maxLength"@);
}

/// Whether a schema declares a type, and which.
pub open spec fn declares(members: Seq<JsonMember>, name: Seq<char>) -> bool {
    json::find(members, "type"@) matches Some(JsonValue::String(found)) && found@ == name
}

/// Whether a schema declares no type, or one that there is.
pub open spec fn types_known(members: Seq<JsonMember>) -> bool {
    !json::has(members, "type"@) || exists|kind: JsonType|
        declares(members, #[trigger] satisfaction::kind_name(kind))
}

/// Whether a keyword is absent, or a count that fits the machine.
pub open spec fn counts(members: Seq<JsonMember>, keyword: Seq<char>) -> bool {
    match json::find(members, keyword) {
        None => true,
        Some(JsonValue::Number(number)) => number.unsigned matches Some(value) && value
            <= usize::MAX,
        Some(_) => false,
    }
}

/// Whether a keyword is absent, or an object of schemas.
pub open spec fn names_schemas(members: Seq<JsonMember>, keyword: Seq<char>) -> bool {
    match json::find(members, keyword) {
        None => true,
        Some(JsonValue::Object(named)) => forall|i: int|
            0 <= i < named@.len() ==> ((#[trigger] named@[i]).value is Bool
                || named@[i].value is Object),
        Some(_) => false,
    }
}

/// Whether a keyword is absent, or an array of schemas.
pub open spec fn lists_schemas(members: Seq<JsonMember>, keyword: Seq<char>) -> bool {
    match json::find(members, keyword) {
        None => true,
        Some(JsonValue::Array(values)) => forall|i: int|
            0 <= i < values@.len() ==> (#[trigger] values@[i] is Bool || values@[i] is Object),
        Some(_) => false,
    }
}

/// Whether a keyword is absent, or a schema.
pub open spec fn is_schema(members: Seq<JsonMember>, keyword: Seq<char>) -> bool {
    match json::find(members, keyword) {
        None => true,
        Some(value) => value is Bool || value is Object,
    }
}

/// Whether a keyword is absent, or an array that holds something.
pub open spec fn is_filled(members: Seq<JsonMember>, keyword: Seq<char>) -> bool {
    match json::find(members, keyword) {
        None => true,
        Some(JsonValue::Array(values)) => values@.len() > 0,
        Some(_) => false,
    }
}

/// Whether the keywords that hold schemas do so, and the dialect is the one that is read.
pub open spec fn well_made(members: Seq<JsonMember>) -> bool {
    &&& names_schemas(members, "$defs"@)
    &&& names_schemas(members, "properties"@)
    &&& is_schema(members, "additionalProperties"@)
    &&& is_schema(members, "items"@)
    &&& lists_schemas(members, "prefixItems"@)
    &&& lists_schemas(members, "allOf"@) && is_filled(members, "allOf"@)
    &&& lists_schemas(members, "anyOf"@) && is_filled(members, "anyOf"@)
    &&& match json::find(members, "$schema"@) {
        None => true,
        Some(JsonValue::String(found)) => found@ == schema::DRAFT_2020_12@ || found@
            == schema::DRAFT_2020_12@ + "#"@,
        Some(_) => false,
    }
}

/// Whether a schema has a constant and no more, or a type and no more.
pub open spec fn is_simple(value: JsonValue, constant: bool) -> bool {
    value matches JsonValue::Object(members) && if constant {
        within(members@, set!["const"@]) && json::has(members@, "const"@)
    } else {
        within(members@, set!["type"@]) && json::has(members@, "type"@) && types_known(members@)
    }
}

/// Whether a conjunction is that of one constant with types.
pub open spec fn one_constant(members: Seq<JsonMember>, c: int) -> bool {
    json::find(members, "allOf"@) matches Some(JsonValue::Array(branches)) && 0 <= c
        < branches@.len() && forall|b: int|
        0 <= b < branches@.len() ==> is_simple(#[trigger] branches@[b], b == c)
}

/// Whether required names are given, each once.
pub open spec fn names_once(members: Seq<JsonMember>) -> bool {
    match json::find(members, "required"@) {
        None => true,
        Some(JsonValue::Array(values)) => {
            &&& forall|i: int| 0 <= i < values@.len() ==> #[trigger] values@[i] is String
            &&& forall|i: int, j: int|
                0 <= i < j < values@.len() ==> ((#[trigger] values@[i])->String_0)@ != (
                (#[trigger] values@[j])->String_0)@
        },
        Some(_) => false,
    }
}

/// Whether a reference leads to one of the places.
pub open spec fn leads_to_one(list: Seq<Place>, reference: Seq<char>) -> bool {
    exists|p: int, path: Seq<Seq<char>>|
        0 <= p < list.len() && (#[trigger] list[p]).pointer == location::pointer_of(path)
            && #[trigger] location::leads_to(reference, path)
}

/// Whether the keywords of a schema stand together in one of the ways that are supported.
pub open spec fn goes_together(list: Seq<Place>, members: Seq<JsonMember>) -> bool {
    ||| within(members, set!["anyOf"@]) && json::has(members, "anyOf"@)
    ||| within(members, set!["allOf"@]) && exists|c: int| one_constant(members, c)
    ||| within(members, set!["$ref"@]) && (json::find(members, "$ref"@) matches Some(
        JsonValue::String(reference),
    ) && leads_to_one(list, reference@))
    ||| within(members, set!["type"@, "const"@]) && types_known(members)
    ||| within(members, set!["type"@, "enum"@]) && types_known(members) && is_filled(
        members,
        "enum"@,
    )
    ||| within(members, set!["type"@, "minLength"@, "maxLength"@]) && declares(
        members,
        "string"@,
    ) && counts(members, "minLength"@) && counts(members, "maxLength"@)
    ||| within(members, set!["type"@, "items"@, "prefixItems"@, "minItems"@, "maxItems"@])
        && declares(members, "array"@) && counts(members, "minItems"@) && counts(
        members,
        "maxItems"@,
    )
    ||| within(members, set!["type"@, "properties"@, "required"@, "additionalProperties"@])
        && declares(members, "object"@) && names_once(members)
}

/// Whether a schema is one of the profile.
pub open spec fn in_profile(list: Seq<Place>, value: JsonValue) -> bool {
    match value {
        JsonValue::Bool(_) => true,
        JsonValue::Object(members) => well_made(members@) && goes_together(list, members@),
        _ => false,
    }
}

/// Keywords that are all supported have no fault.
proof fn lemma_keywords_pass(at: Seq<char>, members: Seq<JsonMember>)
    requires
        forall|i: int|
            0 <= i < members.len() ==> normalize::spec_supported((#[trigger] members[i]).key@),
    ensures
        normalize::keyword_fault(at, members) is None,
    decreases members.len(),
{
    if members.len() > 0 {
        let rest = members.skip(1);
        assert forall|i: int| 0 <= i < rest.len() implies normalize::spec_supported(
            (#[trigger] rest[i]).key@,
        ) by {
            assert(rest[i] == members[i + 1]);
        }
        lemma_keywords_pass(at, rest);
    }
}

/// Entries that are all schemas have no fault.
proof fn lemma_entries_pass(
    below: Seq<char>,
    keyword: Seq<char>,
    reason: Seq<char>,
    members: Seq<JsonMember>,
)
    requires
        forall|i: int|
            0 <= i < members.len() ==> json::spec_is_schema((#[trigger] members[i]).value),
    ensures
        normalize::entry_fault(below, keyword, reason, members) is None,
    decreases members.len(),
{
    if members.len() > 0 {
        let rest = members.skip(1);
        assert forall|i: int| 0 <= i < rest.len() implies json::spec_is_schema(
            (#[trigger] rest[i]).value,
        ) by {
            assert(rest[i] == members[i + 1]);
        }
        lemma_entries_pass(below, keyword, reason, rest);
    }
}

/// An object of schemas has no fault.
proof fn lemma_named_pass(
    at: Seq<char>,
    members: Seq<JsonMember>,
    keyword: Seq<char>,
    first: Seq<char>,
    second: Seq<char>,
)
    requires
        names_schemas(members, keyword),
    ensures
        normalize::named_fault(at, members, keyword, first, second) is None,
{
    if let Some(JsonValue::Object(named)) = json::find(members, keyword) {
        lemma_entries_pass(pointer::joined(at, keyword), keyword, second, named@);
    }
}

/// A schema whose keywords are among words that are supported, and well made, has no fault.
proof fn lemma_passes(at: Seq<char>, members: Seq<JsonMember>, words: Set<Seq<char>>)
    requires
        within(members, words),
        well_made(members),
        forall|word: Seq<char>| #[trigger]
            words.contains(word) ==> normalize::spec_supported(word) && word != "oneOf"@,
    ensures
        normalize::keyword_fault(at, members) is None,
        normalize::container_fault(at, members) is None,
        normalize::dialect_fault(at, members) is None,
{
    assert forall|i: int| 0 <= i < members.len() implies normalize::spec_supported(
        (#[trigger] members[i]).key@,
    ) by {
        if !validation::silent(members[i].key@) {
            assert(words.contains(members[i].key@));
        }
    }
    lemma_keywords_pass(at, members);
    lemma_named_pass(
        at,
        members,
        "$defs"@,
        "$defs must be an object"@,
        "definition must be a boolean or object schema"@,
    );
    lemma_named_pass(
        at,
        members,
        "properties"@,
        "properties must be an object"@,
        "property value must be a boolean or object schema"@,
    );
    lemma_none_of(members, words);
}

/// Where each schema of an array has a place, so have all.
proof fn lemma_items_found(list: Seq<Seq<char>>, below: Seq<char>, n: nat)
    requires
        forall|k: int|
            0 <= k < n ==> places::located(
                list,
                pointer::joined(below, #[trigger] text::digits(k as nat)),
            ) is Some,
    ensures
        normalize::item_positions(list, below, n) is Some,
    decreases n,
{
    if n > 0 {
        lemma_items_found(list, below, (n - 1) as nat);
        assert(places::located(list, pointer::joined(below, text::digits((n - 1) as nat)))
            is Some);
    }
}

/// Where each schema of an object has a place, so have all.
proof fn lemma_properties_found(
    list: Seq<Seq<char>>,
    below: Seq<char>,
    members: Seq<JsonMember>,
    n: nat,
)
    requires
        n <= members.len(),
        forall|k: int|
            0 <= k < n ==> places::located(
                list,
                pointer::joined(below, (#[trigger] members[k]).key@),
            ) is Some,
    ensures
        normalize::property_positions(list, below, members, n) is Some,
    decreases n,
{
    if n > 0 {
        lemma_properties_found(list, below, members, (n - 1) as nat);
        assert(places::located(list, pointer::joined(below, members[n - 1].key@)) is Some);
    }
}

/// Names that are given once are taken.
proof fn lemma_names_taken(at: Seq<char>, values: Seq<JsonValue>, n: nat)
    requires
        n <= values.len(),
        forall|i: int| 0 <= i < values.len() ==> #[trigger] values[i] is String,
        forall|i: int, j: int|
            0 <= i < j < values.len() ==> ((#[trigger] values[i])->String_0)@ != (
            (#[trigger] values[j])->String_0)@,
    ensures
        normalize::required_names(at, values, n) is Ok,
        (normalize::required_names(at, values, n)->Ok_0).len() == n,
        forall|i: int|
            0 <= i < n ==> #[trigger] (normalize::required_names(at, values, n)->Ok_0)[i] == (
            values[i]->String_0)@,
    decreases n,
{
    if n > 0 {
        lemma_names_taken(at, values, (n - 1) as nat);
        let before = normalize::required_names(at, values, (n - 1) as nat)->Ok_0;
        let name = (values[n - 1]->String_0)@;
        if before.contains(name) {
            let i = choose|i: int| 0 <= i < before.len() && before[i] == name;
            assert((values[i]->String_0)@ != (values[n - 1]->String_0)@);
        }
    }
}

/// The schemas in the array of a keyword have places.
proof fn lemma_list_found(list: Seq<Place>, id: int, members: Vec<JsonMember>, keyword: Seq<char>)
    requires
        closed_within(list, pointer_set(list)),
        0 <= id < list.len(),
        list[id].value == JsonValue::Object(members),
        keyword == "prefixItems"@ || keyword == "allOf"@ || keyword == "anyOf"@,
        lists_schemas(members@, keyword),
        json::has(members@, keyword),
    ensures
        normalize::list_positions(
            list[id].pointer,
            keyword,
            json::find(members@, keyword)->0,
            places::pointers(list),
        ) is Ok,
{
    lemma_held(list, id, members);
    let values = (json::find(members@, keyword)->0->Array_0)@;
    let below = pointer::joined(list[id].pointer, keyword);
    assert forall|k: int| 0 <= k < values.len() implies places::located(
        places::pointers(list),
        pointer::joined(below, #[trigger] text::digits(k as nat)),
    ) is Some by {
        assert(values[k] is Bool || values[k] is Object);
        lemma_listed_there(below, values, values.len(), k);
    }
    lemma_items_found(places::pointers(list), below, values.len());
}

/// A type that there is can be read.
proof fn lemma_type_read(at: Seq<char>, members: Seq<JsonMember>)
    requires
        types_known(members),
    ensures
        normalize::declared_type(at, members) is Ok,
        json::has(members, "type"@) ==> normalize::declared_type(at, members)->Ok_0 is Some,
{
}

/// A conjunction of one constant with types has a normal form.
proof fn lemma_constant_taken(
    at: Seq<char>,
    list: Seq<Place>,
    ids: Seq<int>,
    c: int,
    k: nat,
    constant: Option<JsonValue>,
    kind: Option<JsonType>,
)
    requires
        0 <= c < ids.len(),
        k <= ids.len(),
        forall|b: int|
            0 <= b < ids.len() ==> is_simple(list[#[trigger] ids[b]].value, b == c),
        constant is Some <==> c < k,
    ensures
        normalize::intersection(at, list, ids, k, constant, kind) is Ok,
    decreases ids.len() - k,
{
    if k < ids.len() {
        let place = list[ids[k as int]];
        let branch = (place.value->Object_0)@;
        assert(is_simple(list[ids[k as int]].value, k == c));
        lemma_words_look();
        if k == c {
            lemma_constant_taken(
                at,
                list,
                ids,
                c,
                k + 1,
                Some(json::find(branch, "const"@)->0),
                kind,
            );
            assert(normalize::only_with(branch, "const"@));
        } else {
            lemma_none_of(branch, set!["type"@]);
            lemma_type_read(place.pointer, branch);
            assert(normalize::only_with(branch, "type"@));
            let found = normalize::declared_type(place.pointer, branch)->Ok_0->0;
            if let Some(both) = normalize::meet(kind, found) {
                lemma_constant_taken(at, list, ids, c, k + 1, constant, Some(both));
            }
        }
    }
}

/// A disjunction of schemas has a normal form.
proof fn lemma_any_of_taken(
    list: Seq<Place>,
    id: int,
    members: Vec<JsonMember>,
    edges: nat,
    limits: CompileLimits,
)
    requires
        closed_within(list, pointer_set(list)),
        0 <= id < list.len(),
        list[id].value == JsonValue::Object(members),
        well_made(members@),
        within(members@, set!["anyOf"@]) && json::has(members@, "anyOf"@),
    ensures
        normalize::node_shape(list[id], list, edges, limits) matches Ok(shape) && !(shape is Ref),
        !json::has(members@, "$ref"@),
{
    lemma_words_look();
    lemma_none_of(members@, set!["anyOf"@]);
    lemma_passes(list[id].pointer, members@, set!["anyOf"@]);
    lemma_list_found(list, id, members, "anyOf"@);
}

/// A conjunction of one constant with types has a normal form.
proof fn lemma_all_of_taken(
    root: JsonValue,
    list: Seq<Place>,
    id: int,
    members: Vec<JsonMember>,
    edges: nat,
    limits: CompileLimits,
)
    requires
        location::all_placed(root, list),
        closed_within(list, pointer_set(list)),
        0 <= id < list.len(),
        list[id].value == JsonValue::Object(members),
        well_made(members@),
        within(members@, set!["allOf"@]) && exists|c: int| one_constant(members@, c),
    ensures
        normalize::node_shape(list[id], list, edges, limits) matches Ok(shape) && !(shape is Ref),
        !json::has(members@, "$ref"@),
{
    lemma_words_look();
    lemma_none_of(members@, set!["allOf"@]);
    lemma_passes(list[id].pointer, members@, set!["allOf"@]);
    lemma_list_found(list, id, members, "allOf"@);
    let c = choose|c: int| one_constant(members@, c);
    let branches = (json::find(members@, "allOf"@)->0->Array_0)@;
    let below = pointer::joined(list[id].pointer, "allOf"@);
    let ids = normalize::item_positions(places::pointers(list), below, branches.len())->0;
    satisfaction::lemma_item_count(places::pointers(list), below, branches.len());
    assert forall|b: int| 0 <= b < ids.len() implies is_simple(
        list[#[trigger] ids[b]].value,
        b == c,
    ) by {
        satisfaction::lemma_branch(root, list, id, members@, "allOf"@, branches, ids, b);
        assert(is_simple(branches[b], b == c));
    }
    lemma_constant_taken(list[id].pointer, list, ids, c, 0, None, None);
    order::lemma_intersection(list[id].pointer, list, ids, 0, None, None);
    lemma_no_ref(list[id].pointer, list, ids, 0, None, None);
}

/// A conjunction is no reference.
proof fn lemma_no_ref(
    at: Seq<char>,
    list: Seq<Place>,
    ids: Seq<int>,
    n: nat,
    constant: Option<JsonValue>,
    kind: Option<JsonType>,
)
    ensures
        normalize::intersection(at, list, ids, n, constant, kind) matches Ok(shape) ==> !(
        shape is Ref),
    decreases ids.len() - n,
{
    if n < ids.len() {
        if let JsonValue::Object(branch) = list[ids[n as int]].value {
            match json::find(branch@, "const"@) {
                Some(value) => {
                    lemma_no_ref(at, list, ids, n + 1, Some(value), kind);
                },
                None => {
                    if let Ok(Some(found)) = normalize::declared_type(
                        list[ids[n as int]].pointer,
                        branch@,
                    ) {
                        if let Some(both) = normalize::meet(kind, found) {
                            lemma_no_ref(at, list, ids, n + 1, constant, Some(both));
                        }
                    }
                },
            }
        }
    }
}

/// A reference that leads to a place has a normal form.
proof fn lemma_ref_taken(
    list: Seq<Place>,
    id: int,
    members: Vec<JsonMember>,
    edges: nat,
    limits: CompileLimits,
)
    requires
        0 <= id < list.len(),
        list[id].value == JsonValue::Object(members),
        well_made(members@),
        within(members@, set!["$ref"@]),
        json::find(members@, "$ref"@) matches Some(JsonValue::String(reference)) && leads_to_one(
            list,
            reference@,
        ),
        edges < limits.max_ref_edges,
    ensures
        normalize::node_shape(list[id], list, edges, limits) matches Ok(shape) && shape is Ref,
{
    lemma_words_look();
    lemma_none_of(members@, set!["$ref"@]);
    lemma_passes(list[id].pointer, members@, set!["$ref"@]);
    let reference = (json::find(members@, "$ref"@)->0->String_0)@;
    let (p, path) = choose|p: int, path: Seq<Seq<char>>|
        0 <= p < list.len() && (#[trigger] list[p]).pointer == location::pointer_of(path)
            && #[trigger] location::leads_to(reference, path);
    location::law_reference_is_resolved(list[id].pointer, reference, path);
    assert(places::pointers(list)[p] == location::pointer_of(path));
    assert(places::pointers(list).contains(location::pointer_of(path)));
}

/// Values that are listed have a normal form.
proof fn lemma_listing_taken(
    list: Seq<Place>,
    id: int,
    members: Vec<JsonMember>,
    edges: nat,
    limits: CompileLimits,
    words: Set<Seq<char>>,
)
    requires
        0 <= id < list.len(),
        list[id].value == JsonValue::Object(members),
        well_made(members@),
        types_known(members@),
        words == set!["type"@, "const"@] || words == set!["type"@, "enum"@],
        within(members@, words),
        is_filled(members@, "enum"@),
    ensures
        normalize::node_shape(list[id], list, edges, limits) matches Ok(shape) && !(shape is Ref),
        !json::has(members@, "$ref"@),
{
    lemma_words_look();
    lemma_none_of(members@, words);
    lemma_passes(list[id].pointer, members@, words);
    lemma_type_read(list[id].pointer, members@);
}

/// Strings with bounds have a normal form.
proof fn lemma_strings_taken(
    list: Seq<Place>,
    id: int,
    members: Vec<JsonMember>,
    edges: nat,
    limits: CompileLimits,
)
    requires
        0 <= id < list.len(),
        list[id].value == JsonValue::Object(members),
        well_made(members@),
        within(members@, set!["type"@, "minLength"@, "maxLength"@]),
        declares(members@, "string"@),
        counts(members@, "minLength"@),
        counts(members@, "maxLength"@),
    ensures
        normalize::node_shape(list[id], list, edges, limits) matches Ok(shape) && !(shape is Ref),
        !json::has(members@, "$ref"@),
{
    let words = set!["type"@, "minLength"@, "maxLength"@];
    lemma_words_look();
    lemma_none_of(members@, words);
    lemma_passes(list[id].pointer, members@, words);
    satisfaction::lemma_types_apart();
}

/// Arrays have a normal form.
proof fn lemma_arrays_taken(
    list: Seq<Place>,
    id: int,
    members: Vec<JsonMember>,
    edges: nat,
    limits: CompileLimits,
)
    requires
        closed_within(list, pointer_set(list)),
        0 <= id < list.len(),
        list[id].value == JsonValue::Object(members),
        well_made(members@),
        within(members@, set!["type"@, "items"@, "prefixItems"@, "minItems"@, "maxItems"@]),
        declares(members@, "array"@),
        counts(members@, "minItems"@),
        counts(members@, "maxItems"@),
    ensures
        normalize::node_shape(list[id], list, edges, limits) matches Ok(shape) && !(shape is Ref),
        !json::has(members@, "$ref"@),
{
    let words = set!["type"@, "items"@, "prefixItems"@, "minItems"@, "maxItems"@];
    lemma_words_look();
    lemma_none_of(members@, words);
    lemma_passes(list[id].pointer, members@, words);
    satisfaction::lemma_types_apart();
    if json::has(members@, "prefixItems"@) {
        lemma_list_found(list, id, members, "prefixItems"@);
    }
    if json::has(members@, "items"@) {
        lemma_held(list, id, members);
        let q = pointer::joined(list[id].pointer, "items"@);
        let part = places::single_child(list[id].pointer, members@, "items"@);
        lemma_pointer_set(part, part[0]);
        assert(places::located(places::pointers(list), q) is Some);
    }
}

/// Objects have a normal form.
proof fn lemma_objects_taken(
    list: Seq<Place>,
    id: int,
    members: Vec<JsonMember>,
    edges: nat,
    limits: CompileLimits,
)
    requires
        closed_within(list, pointer_set(list)),
        0 <= id < list.len(),
        list[id].value == JsonValue::Object(members),
        well_made(members@),
        within(members@, set!["type"@, "properties"@, "required"@, "additionalProperties"@]),
        declares(members@, "object"@),
        names_once(members@),
    ensures
        normalize::node_shape(list[id], list, edges, limits) matches Ok(shape) && !(shape is Ref),
        !json::has(members@, "$ref"@),
{
    let words = set!["type"@, "properties"@, "required"@, "additionalProperties"@];
    lemma_words_look();
    lemma_none_of(members@, words);
    lemma_passes(list[id].pointer, members@, words);
    satisfaction::lemma_types_apart();
    lemma_held(list, id, members);
    let at = list[id].pointer;
    let pointers = places::pointers(list);
    if let Some(JsonValue::Object(named)) = json::find(members@, "properties"@) {
        let below = pointer::joined(at, "properties"@);
        assert forall|k: int| 0 <= k < named@.len() implies places::located(
            pointers,
            pointer::joined(below, (#[trigger] named@[k]).key@),
        ) is Some by {
            lemma_named_there(below, named@, named@.len(), k);
        }
        lemma_properties_found(pointers, below, named@, named@.len());
    }
    if let Some(JsonValue::Array(values)) = json::find(members@, "required"@) {
        lemma_names_taken(at, values@, values@.len());
    }
    if json::has(members@, "additionalProperties"@) {
        let q = pointer::joined(at, "additionalProperties"@);
        let part = places::single_child(at, members@, "additionalProperties"@);
        lemma_pointer_set(part, part[0]);
        assert(places::located(pointers, q) is Some);
    }
}

/// Whether a schema is a reference.
pub open spec fn refers(value: JsonValue) -> bool {
    value matches JsonValue::Object(members) && json::has(members@, "$ref"@)
}

/// A schema of the profile has a normal form.
pub proof fn law_profile_is_taken(
    root: JsonValue,
    list: Seq<Place>,
    id: int,
    edges: nat,
    limits: CompileLimits,
)
    requires
        location::all_placed(root, list),
        closed_within(list, pointer_set(list)),
        0 <= id < list.len(),
        in_profile(list, list[id].value),
        refers(list[id].value) ==> edges < limits.max_ref_edges,
    ensures
        normalize::node_shape(list[id], list, edges, limits) is Ok,
        normalize::node_shape(list[id], list, edges, limits)->Ok_0 is Ref <==> refers(
            list[id].value,
        ),
{
    if let JsonValue::Object(members) = list[id].value {
        let all = members@;
        if within(all, set!["anyOf"@]) && json::has(all, "anyOf"@) {
            lemma_any_of_taken(list, id, members, edges, limits);
        } else if within(all, set!["allOf"@]) && exists|c: int| one_constant(all, c) {
            lemma_all_of_taken(root, list, id, members, edges, limits);
        } else if within(all, set!["$ref"@]) && (json::find(all, "$ref"@) matches Some(
            JsonValue::String(reference),
        ) && leads_to_one(list, reference@)) {
            lemma_ref_taken(list, id, members, edges, limits);
        } else if within(all, set!["type"@, "const"@]) && types_known(all) {
            lemma_words_look();
            lemma_none_of(all, set!["type"@, "const"@]);
            lemma_listing_taken(list, id, members, edges, limits, set!["type"@, "const"@]);
        } else if within(all, set!["type"@, "enum"@]) && types_known(all) && is_filled(
            all,
            "enum"@,
        ) {
            lemma_listing_taken(list, id, members, edges, limits, set!["type"@, "enum"@]);
        } else if within(all, set!["type"@, "minLength"@, "maxLength"@]) && declares(
            all,
            "string"@,
        ) && counts(all, "minLength"@) && counts(all, "maxLength"@) {
            lemma_strings_taken(list, id, members, edges, limits);
        } else if within(all, set!["type"@, "items"@, "prefixItems"@, "minItems"@, "maxItems"@])
            && declares(all, "array"@) && counts(all, "minItems"@) && counts(all, "maxItems"@) {
            lemma_arrays_taken(list, id, members, edges, limits);
        } else {
            lemma_objects_taken(list, id, members, edges, limits);
        }
    }
}

/// The number of references among the first `n` places.
pub open spec fn references(list: Seq<Place>, n: nat) -> nat
    decreases n,
{
    if n == 0 {
        0
    } else {
        references(list, (n - 1) as nat) + if refers(list[n - 1].value) {
            1nat
        } else {
            0nat
        }
    }
}

/// References are counted up.
proof fn lemma_references(list: Seq<Place>, n: nat, m: nat)
    requires
        n <= m,
    ensures
        references(list, n) <= references(list, m),
    decreases m,
{
    if n < m {
        lemma_references(list, n, (m - 1) as nat);
    }
}

/// Schemas of the profile have normal forms.
proof fn lemma_shapes_taken(root: JsonValue, list: Seq<Place>, n: nat, limits: CompileLimits)
    requires
        location::all_placed(root, list),
        closed_within(list, pointer_set(list)),
        n <= list.len(),
        forall|i: int| 0 <= i < list.len() ==> in_profile(list, (#[trigger] list[i]).value),
        references(list, list.len()) <= limits.max_ref_edges,
    ensures
        normalize::shapes_of(list, n, limits) is Ok,
        normalize::ref_count(normalize::shapes_of(list, n, limits)->Ok_0) == references(list, n),
    decreases n,
{
    if n > 0 {
        let m = (n - 1) as nat;
        lemma_shapes_taken(root, list, m, limits);
        let before = normalize::shapes_of(list, m, limits)->Ok_0;
        lemma_references(list, n, list.len());
        assert(in_profile(list, list[n - 1].value));
        law_profile_is_taken(root, list, n - 1, references(list, m), limits);
        let shape = normalize::node_shape(list[n - 1], list, references(list, m), limits)->Ok_0;
        assert(before.push(shape).drop_last() =~= before);
        assert(before.push(shape).last() == shape);
    }
}

/// A document has a normal form where all its schemas are of the profile, and there are no more of
/// them, and of references, than the limits say.
pub proof fn law_profile_has_normal_form(root: JsonValue, limits: CompileLimits, list: Seq<Place>)
    requires
        json::sorted(root),
        root is Bool || root is Object,
        places::schema_places(root, limits.max_schema_nodes as nat) == Ok::<Seq<Place>, Fault>(
            list,
        ),
        list.len() <= u32::MAX + 1,
        forall|i: int| 0 <= i < list.len() ==> in_profile(list, (#[trigger] list[i]).value),
        references(list, list.len()) <= limits.max_ref_edges,
    ensures
        normalize::normal_form(root, limits) is Ok,
{
    let first = Place { pointer: Seq::empty(), value: root };
    location::lemma_places(root, limits.max_schema_nodes as nat);
    lemma_walk_closed(seq![first], Seq::empty(), limits.max_schema_nodes as nat);
    lemma_shapes_taken(root, list, list.len(), limits);
}

/// A smaller limit on the number of schemas matters just where there are more.
proof fn lemma_walk_limit(work: Seq<Place>, found: Seq<Place>, limit: nat, wide: nat)
    requires
        limit <= wide,
        places::walk(work, found, wide) is Ok,
        found.len() <= limit,
    ensures
        (places::walk(work, found, wide)->Ok_0).len() >= found.len(),
        places::walk(work, found, limit) is Ok <==> (places::walk(work, found, wide)->Ok_0).len()
            <= limit,
        places::walk(work, found, limit) is Ok ==> places::walk(work, found, limit)
            == places::walk(work, found, wide),
    decreases wide - found.len(), work.len(),
{
    if work.len() > 0 {
        let last = work.last();
        let rest = work.drop_last();
        if places::pointers(found).contains(last.pointer) {
            lemma_walk_limit(rest, found, limit, wide);
        } else {
            let more = rest + places::ordered(places::children(last)).reverse();
            let longer = found.push(last);
            if found.len() < limit {
                lemma_walk_limit(more, longer, limit, wide);
            } else {
                lemma_walk_grows(more, longer, wide);
            }
        }
    }
}

/// What is found stays found.
proof fn lemma_walk_grows(work: Seq<Place>, found: Seq<Place>, limit: nat)
    ensures
        places::walk(work, found, limit) matches Ok(list) ==> list.len() >= found.len(),
    decreases limit - found.len(), work.len(),
{
    if work.len() > 0 {
        let last = work.last();
        let rest = work.drop_last();
        if places::pointers(found).contains(last.pointer) {
            lemma_walk_grows(rest, found, limit);
        } else if found.len() < limit {
            let more = rest + places::ordered(places::children(last)).reverse();
            lemma_walk_grows(more, found.push(last), limit);
        }
    }
}

/// The limit on the number of schemas refuses a document just where it has more.
pub proof fn law_schema_limit_is_exact(root: JsonValue, limit: nat, wide: nat, list: Seq<Place>)
    requires
        limit <= wide,
        places::schema_places(root, wide) == Ok::<Seq<Place>, Fault>(list),
    ensures
        places::schema_places(root, limit) is Ok <==> list.len() <= limit,
        places::schema_places(root, limit) matches Ok(found) ==> found == list,
{
    let first = Place { pointer: Seq::empty(), value: root };
    lemma_walk_limit(seq![first], Seq::empty(), limit, wide);
}

/// The number of items of an array with a schema of their own.
pub open spec fn prefix_count(members: Seq<JsonMember>) -> nat {
    match json::find(members, "prefixItems"@) {
        Some(JsonValue::Array(values)) => values@.len(),
        _ => 0,
    }
}

/// Whether an array has at most so many items.
pub open spec fn at_most(members: Seq<JsonMember>, most: nat) -> bool {
    json::find(members, "maxItems"@) matches Some(JsonValue::Number(number))
        && number.unsigned matches Some(value) && value <= most
}

/// Whether a schema of the profile is one of which a grammar is had: it is no schema of all values,
/// bounds no string, closes its objects, and says what every item of its arrays is.
pub open spec fn told(value: JsonValue) -> bool {
    match value {
        JsonValue::Bool(all) => !all,
        JsonValue::Object(members) => {
            ||| json::has(members@, "anyOf"@) || json::has(members@, "allOf"@) || json::has(
                members@,
                "$ref"@,
            )
            ||| json::has(members@, "const"@) || json::has(members@, "enum"@)
            ||| declares(members@, "null"@) || declares(members@, "boolean"@) || declares(
                members@,
                "number"@,
            ) || declares(members@, "integer"@)
            ||| declares(members@, "string"@) && validation::enough(members@, "minLength"@, 0)
                && !json::has(members@, "maxLength"@)
            ||| declares(members@, "object"@) && json::find(members@, "additionalProperties"@)
                == Some(JsonValue::Bool(false))
            ||| declares(members@, "array"@) && json::has(members@, "items"@)
            ||| declares(members@, "array"@) && json::has(members@, "maxItems"@) && exists|most: nat|
                most <= prefix_count(members@) && #[trigger] at_most(members@, most)
        },
        _ => false,
    }
}

/// A grammar is had of every such schema.
pub proof fn law_told_is_supported(
    root: JsonValue,
    limits: CompileLimits,
    arena: SchemaArena,
    id: int,
)
    requires
        satisfaction::normalized(root, limits, arena),
        0 <= id < arena.nodes@.len(),
        told(listed(root, limits)[id].value),
    ensures
        language::unsupported(arena.nodes@, id) is None,
{
    let list = listed(root, limits);
    let shape = shaped(root, limits)[id];
    let edges = satisfaction::lemma_place(root, limits, arena, id);
    satisfaction::lemma_opened(list[id], list, edges, limits, shape);
    satisfaction::lemma_types_apart();
    if let JsonValue::Object(members) = list[id].value {
        if json::has(members@, "allOf"@) {
            let c = keywords::lemma_all_of(root, limits, arena, id, 2, validation::Datum::Null);
        }
        if let NormalizedSchema::Array(array) = arena.nodes@[id].kind {
            keywords::lemma_array(root, limits, arena, id);
            let below = pointer::joined(list[id].pointer, "prefixItems"@);
            if let Some(JsonValue::Array(values)) = json::find(members@, "prefixItems"@) {
                satisfaction::lemma_item_count(places::pointers(list), below, values@.len());
            }
            assert(normalize::numbers(array.prefix_items@).len() == array.prefix_items@.len());
            assert(array.prefix_items@.len() == prefix_count(members@));
        }
    }
}

/// Entries without a fault are all schemas.
proof fn lemma_entries_passed(
    below: Seq<char>,
    keyword: Seq<char>,
    reason: Seq<char>,
    members: Seq<JsonMember>,
    i: int,
)
    requires
        normalize::entry_fault(below, keyword, reason, members) is None,
        0 <= i < members.len(),
    ensures
        json::spec_is_schema(members[i].value),
    decreases members.len(),
{
    if i > 0 {
        lemma_entries_passed(below, keyword, reason, members.skip(1), i - 1);
        assert(members.skip(1)[i - 1] == members[i]);
    }
}

/// An object without a fault is one of schemas.
proof fn lemma_named_passed(
    at: Seq<char>,
    members: Seq<JsonMember>,
    keyword: Seq<char>,
    first: Seq<char>,
    second: Seq<char>,
)
    requires
        normalize::named_fault(at, members, keyword, first, second) is None,
    ensures
        names_schemas(members, keyword),
{
    if let Some(JsonValue::Object(named)) = json::find(members, keyword) {
        assert forall|i: int| 0 <= i < named@.len() implies ((#[trigger] named@[i]).value is Bool
            || named@[i].value is Object) by {
            lemma_entries_passed(pointer::joined(at, keyword), keyword, second, named@, i);
        }
    }
}

/// A schema with a normal form has only keywords of which it is stated what they ask, is well made,
/// and refers to a schema of the document if it is a reference.
pub proof fn law_normal_form_is_well_made(
    root: JsonValue,
    list: Seq<Place>,
    id: int,
    edges: nat,
    limits: CompileLimits,
)
    requires
        location::all_placed(root, list),
        0 <= id < list.len(),
        json::sorted(list[id].value),
        normalize::node_shape(list[id], list, edges, limits) is Ok,
    ensures
        match list[id].value {
            JsonValue::Bool(_) => true,
            JsonValue::Object(members) => {
                &&& satisfaction::all_stated(members@)
                &&& well_made(members@)
                &&& json::find(members@, "$ref"@) matches Some(value) ==> (
                value matches JsonValue::String(reference) && leads_to_one(list, reference@))
            },
            _ => false,
        },
        normalize::node_shape(list[id], list, edges, limits)->Ok_0 is Ref <==> refers(
            list[id].value,
        ),
        refers(list[id].value) ==> edges < limits.max_ref_edges || limits.max_ref_edges
            == usize::MAX,
{
    let shape = normalize::node_shape(list[id], list, edges, limits)->Ok_0;
    satisfaction::lemma_opened(list[id], list, edges, limits, shape);
    let at = list[id].pointer;
    if let JsonValue::Object(members) = list[id].value {
        let all = members@;
        lemma_named_passed(
            at,
            all,
            "$defs"@,
            "$defs must be an object"@,
            "definition must be a boolean or object schema"@,
        );
        lemma_named_passed(
            at,
            all,
            "properties"@,
            "properties must be an object"@,
            "property value must be a boolean or object schema"@,
        );
        assert(lists_schemas(all, "prefixItems"@));
        assert(lists_schemas(all, "allOf"@) && is_filled(all, "allOf"@));
        assert(lists_schemas(all, "anyOf"@) && is_filled(all, "anyOf"@));
        assert(well_made(all));
        if json::has(all, "$ref"@) {
            let reference = (json::find(all, "$ref"@)->0->String_0)@;
            let aim = pointer::resolved(at, reference)->Ok_0;
            satisfaction::lemma_located(list, aim);
            let p = places::located(places::pointers(list), aim)->0;
            assert(location::placed(root, list[p]));
            let path = choose|path: Seq<Seq<char>>| #[trigger]
                location::stands(root, list[p], path);
            location::lemma_reference_leads(at, reference, path);
            assert(list[p].pointer == location::pointer_of(path));
            assert(leads_to_one(list, reference));
        }
        if json::has(all, "allOf"@) {
            let branches = json::find(all, "allOf"@)->0;
            let ids = normalize::list_positions(at, "allOf"@, branches, places::pointers(list))->Ok_0;
            lemma_no_ref(at, list, ids, 0, None, None);
        }
    }
}

/// The references among schemas with normal forms are as many as those that are counted.
proof fn lemma_references_counted(
    root: JsonValue,
    list: Seq<Place>,
    n: nat,
    limits: CompileLimits,
)
    requires
        location::all_placed(root, list),
        order::all_sorted(list),
        n <= list.len(),
        normalize::shapes_of(list, n, limits) is Ok,
    ensures
        normalize::ref_count(normalize::shapes_of(list, n, limits)->Ok_0) == references(list, n),
        references(list, n) <= limits.max_ref_edges || limits.max_ref_edges == usize::MAX,
    decreases n,
{
    if n > 0 {
        let m = (n - 1) as nat;
        lemma_references_counted(root, list, m, limits);
        let before = normalize::shapes_of(list, m, limits)->Ok_0;
        assert(json::sorted(list[n - 1].value));
        law_normal_form_is_well_made(root, list, n - 1, references(list, m), limits);
        let shape = normalize::node_shape(list[n - 1], list, references(list, m), limits)->Ok_0;
        assert(before.push(shape).drop_last() =~= before);
        assert(before.push(shape).last() == shape);
    }
}

/// A document with a normal form has no more schemas, and no more references, than the limits say.
pub proof fn law_normal_form_is_within(root: JsonValue, limits: CompileLimits)
    requires
        json::sorted(root),
        normalize::normal_form(root, limits) is Ok,
    ensures
        listed(root, limits).len() <= limits.max_schema_nodes,
        references(listed(root, limits), listed(root, limits).len()) <= limits.max_ref_edges
            || limits.max_ref_edges == usize::MAX,
{
    let list = listed(root, limits);
    let limit = limits.max_schema_nodes as nat;
    let first = Place { pointer: Seq::empty(), value: root };
    location::lemma_places(root, limit);
    order::lemma_walk_sorted(seq![first], Seq::empty(), limit);
    lemma_references_counted(root, list, list.len(), limits);
    lemma_walk_within(seq![first], Seq::empty(), limit);
}

/// No more is found than the limit says.
proof fn lemma_walk_within(work: Seq<Place>, found: Seq<Place>, limit: nat)
    requires
        found.len() <= limit,
    ensures
        places::walk(work, found, limit) matches Ok(list) ==> list.len() <= limit,
    decreases limit - found.len(), work.len(),
{
    if work.len() > 0 {
        let last = work.last();
        let rest = work.drop_last();
        if places::pointers(found).contains(last.pointer) {
            lemma_walk_within(rest, found, limit);
        } else if found.len() < limit {
            let more = rest + places::ordered(places::children(last)).reverse();
            lemma_walk_within(more, found.push(last), limit);
        }
    }
}

} // verus!
