//! The order of members and of properties.

use vstd::prelude::*;

use crate::fault::Fault;
use crate::json;
use crate::json::{JsonMember, JsonValue};
use crate::normalize;
use crate::normalize::Shape;
use crate::places;
use crate::places::Place;
use crate::pointer;
use crate::schema::{CompileLimits, JsonType, NormalizedSchema, SchemaArena};
use crate::text;

verus! {

/// Whether the values of places are sorted.
pub open spec fn all_sorted(list: Seq<Place>) -> bool {
    forall|i: int| 0 <= i < list.len() ==> json::sorted((#[trigger] list[i]).value)
}

/// The value of a key in a sorted object is sorted.
pub proof fn lemma_find_sorted(members: Seq<JsonMember>, key: Seq<char>)
    requires
        forall|i: int| 0 <= i < members.len() ==> json::sorted((#[trigger] members[i]).value),
    ensures
        json::find(members, key) matches Some(value) ==> json::sorted(value),
    decreases members.len(),
{
    if members.len() > 0 && members[0].key@ != key {
        let rest = members.skip(1);
        assert forall|i: int| 0 <= i < rest.len() implies json::sorted(
            (#[trigger] rest[i]).value,
        ) by {
            assert(rest[i] == members[i + 1]);
        }
        lemma_find_sorted(rest, key);
    }
}

proof fn lemma_named_sorted(below: Seq<char>, entries: Seq<JsonMember>, n: nat)
    requires
        forall|i: int| 0 <= i < entries.len() ==> json::sorted((#[trigger] entries[i]).value),
    ensures
        all_sorted(places::named_places(below, entries, n)),
    decreases n,
{
    if 0 < n <= entries.len() {
        lemma_named_sorted(below, entries, (n - 1) as nat);
        assert(json::sorted(entries[n - 1].value));
    }
}

proof fn lemma_listed_sorted(below: Seq<char>, entries: Seq<JsonValue>, n: nat)
    requires
        forall|i: int| 0 <= i < entries.len() ==> json::sorted(#[trigger] entries[i]),
    ensures
        all_sorted(places::listed_places(below, entries, n)),
    decreases n,
{
    if 0 < n <= entries.len() {
        lemma_listed_sorted(below, entries, (n - 1) as nat);
        assert(json::sorted(entries[n - 1]));
    }
}

/// The schemas of a keyword in a sorted object are sorted.
proof fn lemma_keyword_sorted(at: Seq<char>, members: Seq<JsonMember>, keyword: Seq<char>)
    requires
        forall|i: int| 0 <= i < members.len() ==> json::sorted((#[trigger] members[i]).value),
    ensures
        all_sorted(places::named_children(at, members, keyword)),
        all_sorted(places::single_child(at, members, keyword)),
        all_sorted(places::listed_children(at, members, keyword)),
{
    lemma_find_sorted(members, keyword);
    match json::find(members, keyword) {
        Some(JsonValue::Object(entries)) => {
            lemma_named_sorted(pointer::joined(at, keyword), entries@, entries@.len());
        },
        Some(JsonValue::Array(entries)) => {
            lemma_listed_sorted(pointer::joined(at, keyword), entries@, entries@.len());
        },
        _ => {},
    }
}

/// The schemas directly below a sorted one are sorted.
pub proof fn lemma_children_sorted(place: Place)
    requires
        json::sorted(place.value),
    ensures
        all_sorted(places::children(place)),
{
    if let JsonValue::Object(members) = place.value {
        let at = place.pointer;
        let all = members@;
        lemma_keyword_sorted(at, all, "$defs"@);
        lemma_keyword_sorted(at, all, "properties"@);
        lemma_keyword_sorted(at, all, "additionalProperties"@);
        lemma_keyword_sorted(at, all, "items"@);
        lemma_keyword_sorted(at, all, "prefixItems"@);
        lemma_keyword_sorted(at, all, "allOf"@);
        lemma_keyword_sorted(at, all, "anyOf"@);
        lemma_keyword_sorted(at, all, "oneOf"@);
    }
}

proof fn lemma_put_sorted(list: Seq<Place>, place: Place)
    requires
        all_sorted(list),
        json::sorted(place.value),
    ensures
        all_sorted(places::put(list, place)),
    decreases list.len(),
{
    if list.len() > 0 && text::text_before(place.pointer, list.last().pointer) {
        lemma_put_sorted(list.drop_last(), place);
        assert(json::sorted(list[list.len() - 1].value));
    }
}

pub proof fn lemma_ordered_sorted(list: Seq<Place>)
    requires
        all_sorted(list),
    ensures
        all_sorted(places::ordered(list)),
    decreases list.len(),
{
    if list.len() > 0 {
        lemma_ordered_sorted(list.drop_last());
        assert(json::sorted(list[list.len() - 1].value));
        lemma_put_sorted(places::ordered(list.drop_last()), list.last());
    }
}

/// What is found from sorted places is sorted.
pub proof fn lemma_walk_sorted(work: Seq<Place>, found: Seq<Place>, limit: nat)
    requires
        all_sorted(work),
        all_sorted(found),
    ensures
        places::walk(work, found, limit) matches Ok(list) ==> all_sorted(list),
    decreases limit - found.len(), work.len(),
{
    if work.len() > 0 {
        let last = work.last();
        assert(json::sorted(work[work.len() - 1].value));
        let rest = work.drop_last();
        if places::pointers(found).contains(last.pointer) {
            lemma_walk_sorted(rest, found, limit);
        } else if found.len() < limit {
            lemma_children_sorted(last);
            let below = places::ordered(places::children(last));
            lemma_ordered_sorted(places::children(last));
            let more = rest + below.reverse();
            assert forall|i: int| 0 <= i < more.len() implies json::sorted(
                (#[trigger] more[i]).value,
            ) by {
                if i < rest.len() {
                    assert(more[i] == work[i]);
                } else {
                    let j = below.len() - 1 - (i - rest.len());
                    assert(more[i] == below[j]);
                }
            }
            lemma_walk_sorted(more, found.push(last), limit);
        }
    }
}

/// The names of properties come as the members do.
pub proof fn lemma_names(
    list: Seq<Seq<char>>,
    below: Seq<char>,
    members: Seq<JsonMember>,
    n: nat,
)
    requires
        n <= members.len(),
    ensures
        normalize::property_positions(list, below, members, n) matches Some(found) ==> found.len()
            == n && forall|i: int| 0 <= i < n ==> (#[trigger] found[i]).0 == members[i].key@,
    decreases n,
{
    if n > 0 {
        lemma_names(list, below, members, (n - 1) as nat);
    }
}

/// An intersection of constants and types is no object.
pub proof fn lemma_intersection(
    at: Seq<char>,
    list: Seq<Place>,
    ids: Seq<int>,
    n: nat,
    constant: Option<JsonValue>,
    required: Option<JsonType>,
)
    ensures
        normalize::intersection(at, list, ids, n, constant, required) matches Ok(shape) ==> !(
        shape is Object),
    decreases ids.len() - n,
{
    if n < ids.len() {
        if let JsonValue::Object(branch) = list[ids[n as int]].value {
            match json::find(branch@, "const"@) {
                Some(value) => {
                    lemma_intersection(at, list, ids, n + 1, Some(value), required);
                },
                None => {
                    if let Ok(Some(found)) = normalize::declared_type(
                        list[ids[n as int]].pointer,
                        branch@,
                    ) {
                        if let Some(both) = normalize::meet(required, found) {
                            lemma_intersection(at, list, ids, n + 1, constant, Some(both));
                        }
                    }
                },
            }
        }
    }
}

/// The properties of the normal form of an object are those that its schema lists.
pub proof fn lemma_object_shape(
    place: Place,
    list: Seq<Place>,
    edges: nat,
    limits: CompileLimits,
    shape: Shape,
)
    requires
        normalize::node_shape(place, list, edges, limits) == Ok::<Shape, Fault>(shape),
        shape is Object,
    ensures
        place.value matches JsonValue::Object(members) && (
        shape matches Shape::Object { properties, .. } && normalize::properties_of(
            place.pointer,
            members@,
            places::pointers(list),
        ) == Ok::<Seq<(Seq<char>, int)>, Fault>(properties)),
{
    if let JsonValue::Object(members) = place.value {
        let at = place.pointer;
        if json::has(members@, "allOf"@) {
            if let Ok(ids) = normalize::list_positions(
                at,
                "allOf"@,
                json::find(members@, "allOf"@)->0,
                places::pointers(list),
            ) {
                lemma_intersection(at, list, ids, 0, None, None);
            }
        }
    }
}

/// The shape at a position is that of the place there.
pub proof fn lemma_shape_at(list: Seq<Place>, n: nat, limits: CompileLimits, i: int) -> (edges: nat)
    requires
        n <= list.len(),
        normalize::shapes_of(list, n, limits) is Ok,
        0 <= i < n,
    ensures
        (normalize::shapes_of(list, n, limits)->Ok_0).len() == n,
        normalize::node_shape(list[i], list, edges, limits) == Ok::<Shape, Fault>(
            (normalize::shapes_of(list, n, limits)->Ok_0)[i],
        ),
    decreases n,
{
    let before = normalize::shapes_of(list, (n - 1) as nat, limits)->Ok_0;
    if n > 1 {
        let _ = lemma_shape_at(list, (n - 1) as nat, limits, if i < n - 1 { i } else { 0 });
    }
    if i < n - 1 {
        lemma_shape_at(list, (n - 1) as nat, limits, i)
    } else {
        normalize::ref_count(before)
    }
}

/// In the normal form of a sorted document the properties of every object come in ascending order of
/// their names, and so do the names that are required.
pub proof fn law_properties_ascend(root: JsonValue, limits: CompileLimits, arena: SchemaArena)
    requires
        json::sorted(root),
        normalize::normal_form(root, limits) matches Ok((list, shapes)) && normalize::arena_shows(
            arena,
            list,
            shapes,
        ),
    ensures
        arena.ascends(),
{
    if let Ok((list, shapes)) = normalize::normal_form(root, limits) {
        let start = seq![Place { pointer: Seq::empty(), value: root }];
        assert(all_sorted(start));
        lemma_walk_sorted(start, Seq::empty(), limits.max_schema_nodes as nat);
        assert forall|i: int| 0 <= i < arena.nodes@.len() implies (
        #[trigger] arena.nodes@[i].kind matches NormalizedSchema::Object(object)
            ==> object.ascends()) by {
            if let NormalizedSchema::Object(object) = arena.nodes@[i].kind {
                assert(normalize::node_shows(arena.nodes@[i], i, list[i], shapes[i]));
                let edges = lemma_shape_at(list, list.len(), limits, i);
                lemma_object_shape(list[i], list, edges, limits, shapes[i]);
                assert(json::sorted(list[i].value));
                if let JsonValue::Object(members) = list[i].value {
                    lemma_find_sorted(members@, "properties"@);
                    let names = object.names();
                    let found = normalize::entries(object.properties@);
                    assert(names.len() == found.len());
                    assert(normalize::properties_of(
                        list[i].pointer,
                        members@,
                        places::pointers(list),
                    ) == Ok::<Seq<(Seq<char>, int)>, Fault>(found));
                    assert forall|a: int, b: int| 0 <= a < b < names.len() implies text::text_before(
                        #[trigger] names[a],
                        #[trigger] names[b],
                    ) by {
                        if let Some(JsonValue::Object(named)) = json::find(
                            members@,
                            "properties"@,
                        ) {
                            lemma_names(
                                places::pointers(list),
                                pointer::joined(list[i].pointer, "properties"@),
                                named@,
                                named@.len(),
                            );
                            assert(found[a].0 == names[a] && found[b].0 == names[b]);
                            assert(found[a].0 == named@[a].key@);
                            assert(found[b].0 == named@[b].key@);
                            assert(json::keys(named@)[a] == names[a]);
                            assert(json::keys(named@)[b] == names[b]);
                        }
                    }
                }
            }
        }
    }
}

} // verus!
