//! A compiled schema accepts the canonical texts of the values that satisfy the document, and no
//! others.

use vstd::prelude::*;
use vstd::utf8;

use crate::engine;
use crate::engine::{BackendPolicy, CompiledSchema, PreparedCompilation};
use crate::fault::Fault;
use crate::json;
use crate::json::{JsonMember, JsonValue};
use crate::keywords;
use crate::language;
use crate::language::Role;
use crate::location;
use crate::meaning;
use crate::normalize;
use crate::order;
use crate::places;
use crate::pointer;
use crate::recognizer::RecognizerState;
use crate::satisfaction;
use crate::satisfaction::{listed, shaped};
use crate::schema::{ArrayConstraints, CompileLimits, JsonType, NormalizedSchema, ObjectConstraints, SchemaArena};
use crate::text;
use crate::validation;
use crate::validation::{Datum, Entry};
use crate::vocabulary::Vocabulary;

verus! {

/// Whether a value satisfies a schema, and is the one that a text stands for.
pub open spec fn fits(root: JsonValue, n: nat, schema: JsonValue, w: Seq<u8>, d: Datum) -> bool {
    &&& validation::satisfies(root, n, schema, d)
    &&& validation::written(d) == w
    &&& validation::ordered(d)
}

/// The items of an array as texts.
proof fn lemma_items_written(items: Seq<Datum>, parts: Seq<Seq<u8>>, k: nat)
    requires
        items.len() == parts.len(),
        forall|i: int| 0 <= i < items.len() ==> validation::written(#[trigger] items[i]) == parts[i],
        k <= parts.len(),
    ensures
        meaning::items_text(parts.skip(k as int), k as int) == validation::items_from(
            Datum::Array(items),
            k,
        ),
    decreases parts.len() - k,
{
    let rest = parts.skip(k as int);
    if k < parts.len() {
        lemma_items_written(items, parts, k + 1);
        assert(rest.skip(1) =~= parts.skip(k as int + 1));
        assert(validation::written(items[k as int]) == rest[0]);
        assert(language::item_head(k as int) =~= validation::comma(k));
    }
}

/// Every part of a text of an array is shorter.
proof fn lemma_part_shorter(parts: Seq<Seq<u8>>, c: int, k: int)
    requires
        0 <= k < parts.len(),
    ensures
        parts[k].len() <= meaning::items_text(parts, c).len(),
    decreases parts.len(),
{
    if k > 0 {
        lemma_part_shorter(parts.skip(1), c + 1, k - 1);
        assert(parts.skip(1)[k - 1] == parts[k]);
    }
}

/// Every value in a text of an object is shorter.
proof fn lemma_value_shorter(
    object: ObjectConstraints,
    values: Seq<Option<Seq<u8>>>,
    index: int,
    emitted: bool,
    p: int,
)
    requires
        0 <= index <= p < values.len(),
        values[p] is Some,
    ensures
        (values[p]->0).len() <= meaning::members_text(object, values, index, emitted).len(),
    decreases p - index,
{
    if index < p {
        lemma_value_shorter(object, values, index + 1, values[index] is Some || emitted, p);
    }
}

/// Members, with a comma before each but the first, or before each.
pub open spec fn run(entries: Seq<Entry>, emitted: bool) -> Seq<u8>
    decreases entries.len(),
{
    if entries.len() == 0 {
        Seq::empty()
    } else {
        (if emitted {
            seq![44u8]
        } else {
            Seq::empty()
        }) + utf8::encode_utf8(text::json_text(entries[0].key)) + seq![58u8] + validation::written(
            entries[0].value,
        ) + run(entries.skip(1), true)
    }
}

/// The members of an object as texts.
proof fn lemma_run(entries: Seq<Entry>, k: nat)
    requires
        k <= entries.len(),
    ensures
        run(entries.skip(k as int), k > 0) == validation::entries_from(Datum::Object(entries), k),
    decreases entries.len() - k,
{
    let rest = entries.skip(k as int);
    if k < entries.len() {
        lemma_run(entries, k + 1);
        assert(rest.skip(1) =~= entries.skip(k as int + 1));
        assert(rest[0] == entries[k as int]);
    }
}

/// A text of a schema is that of a value that satisfies it.
proof fn lemma_sound(
    root: JsonValue,
    limits: CompileLimits,
    arena: SchemaArena,
    n: nat,
    id: int,
    w: Seq<u8>,
) -> (found: (Datum, nat))
    requires
        satisfaction::compiled(root, limits, arena),
        language::speaks(arena.nodes@, n, Role::Schema(id), w, 0, w.len() as int),
    ensures
        fits(root, found.1, listed(root, limits)[id].value, w, found.0),
    decreases w.len(), n, 0nat,
{
    let nodes = arena.nodes@;
    let list = listed(root, limits);
    let shape = shaped(root, limits)[id];
    let schema = list[id].value;
    let edges = satisfaction::lemma_place(root, limits, arena, id);
    satisfaction::lemma_opened(list[id], list, edges, limits, shape);
    assert(language::conforms(nodes, id, w));
    satisfaction::lemma_texts(nodes, id, w);
    let members = (schema->Object_0)@;
    if json::has(members, "allOf"@) {
        let d = keywords::lemma_all_of_sound(root, limits, arena, id, w);
        (d, 2)
    } else if json::has(members, "anyOf"@) {
        let branches = nodes[id].kind->Union_0;
        let b = choose|b: int|
            #![trigger branches@[b]]
            0 <= b < branches@.len() && language::speaks(
                nodes,
                (n - 1) as nat,
                Role::Schema(branches@[b].0 as int),
                w,
                0,
                w.len() as int,
            );
        let (d, m) = lemma_sound(root, limits, arena, (n - 1) as nat, branches@[b].0 as int, w);
        let values = (json::find(members, "anyOf"@)->0->Array_0)@;
        let below = pointer::joined(list[id].pointer, "anyOf"@);
        let ids = normalize::numbers(branches@);
        satisfaction::lemma_item_count(places::pointers(list), below, values.len());
        assert(ids[b] == branches@[b].0);
        satisfaction::lemma_branch(root, list, id, members, "anyOf"@, values, ids, b);
        keywords::lemma_sole(root, m + 1, schema, d);
        assert(validation::satisfies(root, m, values[b], d));
        (d, m + 1)
    } else if json::has(members, "$ref"@) {
        let reference = (json::find(members, "$ref"@)->0->String_0)@;
        let p = nodes[id].kind->Ref_0.0 as int;
        let (d, m) = lemma_sound(root, limits, arena, (n - 1) as nat, p, w);
        let aim = pointer::resolved(list[id].pointer, reference)->Ok_0;
        satisfaction::lemma_located(list, aim);
        assert(location::placed(root, list[p]));
        location::law_reference_names_place(root, list[id].pointer, reference, list[p]);
        assert(location::names(root, reference, list[p].value));
        keywords::lemma_sole(root, m + 1, schema, d);
        (d, m + 1)
    } else if json::has(members, "const"@) || json::has(members, "enum"@) {
        satisfaction::law_listed_texts(root, limits, arena, id, w);
        let value = choose|value: JsonValue| #[trigger]
            satisfaction::lists(schema, value) && w == validation::written(
                validation::datum_of(value),
            );
        let d = validation::datum_of(value);
        satisfaction::lemma_listed_keeps(schema, value);
        satisfaction::lemma_form(value, w);
        satisfaction::lemma_listed_values(root, limits, arena, id, 1, d);
        (d, 1)
    } else {
        match nodes[id].kind {
            NormalizedSchema::Array(array) => {
                meaning::law_array_texts(nodes, id, array, w);
                let parts = choose|parts: Seq<Seq<u8>>| #[trigger]
                    meaning::items_conform(nodes, array, 0, parts) && w == language::one(91)
                        + meaning::items_text(parts, 0) + language::one(93);
                lemma_array_sound(root, limits, arena, n, id, array, parts, w)
            },
            NormalizedSchema::Object(object) => {
                meaning::law_object_texts(nodes, id, object, w);
                let values = choose|values: Seq<Option<Seq<u8>>>| #[trigger]
                    meaning::members_conform(nodes, object, values, 0) && w == language::one(123)
                        + meaning::members_text(object, values, 0, false) + language::one(125);
                lemma_object_sound(root, limits, arena, n, id, object, values, w)
            },
            _ => {
                let d = keywords::lemma_scalar_sound(root, limits, arena, id, w);
                (d, 1)
            },
        }
    }
}

/// A text of a schema of arrays is that of an array that satisfies it.
proof fn lemma_array_sound(
    root: JsonValue,
    limits: CompileLimits,
    arena: SchemaArena,
    n: nat,
    id: int,
    array: ArrayConstraints,
    parts: Seq<Seq<u8>>,
    w: Seq<u8>,
) -> (found: (Datum, nat))
    requires
        satisfaction::compiled(root, limits, arena),
        0 <= id < arena.nodes@.len(),
        arena.nodes@[id].kind == NormalizedSchema::Array(array),
        listed(root, limits)[id].value is Object,
        meaning::items_conform(arena.nodes@, array, 0, parts),
        w == language::one(91) + meaning::items_text(parts, 0) + language::one(93),
        n > 0,
    ensures
        fits(root, found.1, listed(root, limits)[id].value, w, found.0),
    decreases w.len(), 0nat, parts.len() + 1,
{
    let list = listed(root, limits);
    let schema = list[id].value;
    let members = (schema->Object_0)@;
    keywords::lemma_array(root, limits, arena, id);
    let (items, m) = lemma_items_sound(root, limits, arena, id, array, parts, w, parts.len());
    let d = Datum::Array(items);
    lemma_items_written(items, parts, 0);
    assert(parts.skip(0) =~= parts);
    assert(validation::enough(members, "minItems"@, items.len()));
    assert(validation::few(members, "maxItems"@, items.len()));
    (d, m + 1)
}

/// The first texts of an array are those of items that satisfy their schemas.
proof fn lemma_items_sound(
    root: JsonValue,
    limits: CompileLimits,
    arena: SchemaArena,
    id: int,
    array: ArrayConstraints,
    parts: Seq<Seq<u8>>,
    w: Seq<u8>,
    k: nat,
) -> (found: (Seq<Datum>, nat))
    requires
        satisfaction::compiled(root, limits, arena),
        0 <= id < arena.nodes@.len(),
        arena.nodes@[id].kind == NormalizedSchema::Array(array),
        listed(root, limits)[id].value is Object,
        meaning::items_conform(arena.nodes@, array, 0, parts),
        w == language::one(91) + meaning::items_text(parts, 0) + language::one(93),
        k <= parts.len(),
    ensures
        found.0.len() == k,
        forall|i: int|
            0 <= i < k ==> validation::written(#[trigger] found.0[i]) == parts[i]
                && validation::ordered(found.0[i]) && match validation::item_schema(
                (listed(root, limits)[id].value->Object_0)@,
                i,
            ) {
                Some(inner) => validation::satisfies(root, found.1, inner, found.0[i]),
                None => true,
            },
    decreases w.len(), 0nat, k,
{
    if k == 0 {
        (Seq::empty(), 0)
    } else {
        let nodes = arena.nodes@;
        let list = listed(root, limits);
        let members = (list[id].value->Object_0)@;
        let last = k - 1;
        let (before, m) = lemma_items_sound(
            root,
            limits,
            arena,
            id,
            array,
            parts,
            w,
            last as nat,
        );
        let edges = satisfaction::lemma_place(root, limits, arena, id);
        let path = choose|path: Seq<Seq<char>>| #[trigger]
            location::stands(root, list[id], path);
        assert(location::placed(root, list[id]));
        keywords::lemma_array_item(root, limits, arena, id, path, last);
        assert(meaning::item_conforms(nodes, array, 0 + last, parts[last]));
        let p = meaning::item_schema(array, last)->0;
        let part = parts[last];
        lemma_part_shorter(parts, 0, last);
        let n = choose|n: nat| #[trigger]
            language::speaks(nodes, n, Role::Schema(p), part, 0, part.len() as int);
        let (d, more) = lemma_sound(root, limits, arena, n, p, part);
        let all = before.push(d);
        let most = m + more;
        assert forall|i: int| 0 <= i < k implies validation::written(#[trigger] all[i]) == parts[i]
            && validation::ordered(all[i]) && match validation::item_schema(members, i) {
            Some(inner) => validation::satisfies(root, most, inner, all[i]),
            None => true,
        } by {
            if i < last {
                assert(all[i] == before[i]);
                if let Some(inner) = validation::item_schema(members, i) {
                    satisfaction::lemma_more(root, m, most, inner, all[i]);
                }
            } else {
                satisfaction::lemma_more(root, more, most, list[p].value, d);
            }
        }
        (all, most)
    }
}

/// Whether members are those of properties from one on, and satisfy their schemas.
pub open spec fn members_fit(
    root: JsonValue,
    limits: CompileLimits,
    id: int,
    object: ObjectConstraints,
    values: Seq<Option<Seq<u8>>>,
    index: int,
    entries: Seq<Entry>,
    m: nat,
) -> bool {
    &&& forall|e: int|
        0 <= e < entries.len() ==> exists|p: int|
            index <= p < values.len() && (#[trigger] object.properties@[p]).name@
                == (#[trigger] entries[e]).key
    &&& forall|e: int|
        0 <= e < entries.len() ==> validation::ordered((#[trigger] entries[e]).value)
            && match validation::member_schema(
            (listed(root, limits)[id].value->Object_0)@,
            entries[e].key,
        ) {
            Some(inner) => validation::satisfies(root, m, inner, entries[e].value),
            None => true,
        }
    &&& forall|i: int, j: int|
        0 <= i < j < entries.len() ==> text::text_before(
            (#[trigger] entries[i]).key,
            (#[trigger] entries[j]).key,
        )
    &&& forall|p: int|
        index <= p < values.len() && (#[trigger] values[p]) is Some ==> validation::has_key(
            entries,
            object.properties@[p].name@,
        )
}

/// A text of a schema of objects is that of an object that satisfies it.
proof fn lemma_object_sound(
    root: JsonValue,
    limits: CompileLimits,
    arena: SchemaArena,
    n: nat,
    id: int,
    object: ObjectConstraints,
    values: Seq<Option<Seq<u8>>>,
    w: Seq<u8>,
) -> (found: (Datum, nat))
    requires
        satisfaction::compiled(root, limits, arena),
        0 <= id < arena.nodes@.len(),
        arena.nodes@[id].kind == NormalizedSchema::Object(object),
        language::all_known(object),
        meaning::members_conform(arena.nodes@, object, values, 0),
        w == language::one(123) + meaning::members_text(object, values, 0, false) + language::one(
            125,
        ),
        n > 0,
    ensures
        fits(root, found.1, listed(root, limits)[id].value, w, found.0),
    decreases w.len(), 0nat, values.len() + 1,
{
    let list = listed(root, limits);
    let schema = list[id].value;
    let members = (schema->Object_0)@;
    keywords::lemma_object(root, limits, arena, id);
    let (entries, m) = lemma_members_sound(root, limits, arena, id, object, values, w, 0, false);
    let d = Datum::Object(entries);
    lemma_run(entries, 0);
    assert(entries.skip(0) =~= entries);
    assert(satisfaction::typed(members, d));
    assert(validation::admits_names(members, d)) by {
        keywords::lemma_required(root, limits, arena, id, object, Seq::empty());
        if let Some(JsonValue::Array(required)) = json::find(members, "required"@) {
            assert forall|r: int| 0 <= r < required@.len() implies (
            #[trigger] required@[r] matches JsonValue::String(name) && validation::has_key(
                entries,
                name@,
            )) by {
                let name = (required@[r]->String_0)@;
                keywords::lemma_required(root, limits, arena, id, object, name);
                assert(language::holds_name(object, name));
                let q = choose|q: int|
                    0 <= q < object.required@.len() && (#[trigger] object.required@[q])@ == name;
                assert(language::has_property(object, object.required@[q]@));
                let p = choose|p: int|
                    0 <= p < object.properties@.len() && (#[trigger] object.properties@[p]).name@
                        == name;
                assert(language::is_required(object, p));
                assert(values[p] is Some);
            }
        }
    }
    assert(validation::satisfies(root, m + 1, schema, d));
    assert(validation::ordered(d));
    (d, m + 1)
}

/// The texts of the members from one property on are those of members that satisfy their schemas.
proof fn lemma_members_sound(
    root: JsonValue,
    limits: CompileLimits,
    arena: SchemaArena,
    id: int,
    object: ObjectConstraints,
    values: Seq<Option<Seq<u8>>>,
    w: Seq<u8>,
    index: int,
    emitted: bool,
) -> (found: (Seq<Entry>, nat))
    requires
        satisfaction::compiled(root, limits, arena),
        0 <= id < arena.nodes@.len(),
        arena.nodes@[id].kind == NormalizedSchema::Object(object),
        meaning::members_conform(arena.nodes@, object, values, 0),
        w == language::one(123) + meaning::members_text(object, values, 0, false) + language::one(
            125,
        ),
        0 <= index <= values.len(),
    ensures
        members_fit(root, limits, id, object, values, index, found.0, found.1),
        run(found.0, emitted) == meaning::members_text(object, values, index, emitted),
    decreases w.len(), 0nat, values.len() - index,
{
    let nodes = arena.nodes@;
    let list = listed(root, limits);
    let members = (list[id].value->Object_0)@;
    if index == values.len() {
        (Seq::empty(), 0)
    } else {
        let (rest, m) = lemma_members_sound(
            root,
            limits,
            arena,
            id,
            object,
            values,
            w,
            index + 1,
            values[index] is Some || emitted,
        );
        match values[index] {
            None => {
                assert(members_fit(root, limits, id, object, values, index, rest, m)) by {
                    assert forall|e: int| 0 <= e < rest.len() implies exists|p: int|
                        index <= p < values.len() && (#[trigger] object.properties@[p]).name@
                            == (#[trigger] rest[e]).key by {
                        let p = choose|p: int|
                            index + 1 <= p < values.len() && (
                            #[trigger] object.properties@[p]).name@ == rest[e].key;
                        assert(object.properties@[p].name@ == rest[e].key);
                    }
                }
                (rest, m)
            },
            Some(part) => {
                keywords::lemma_property(root, limits, arena, id, object, index);
                let q = object.properties@[index].schema.0 as int;
                lemma_value_shorter(object, values, 0, false, index);
                assert(language::conforms(nodes, q, part));
                let n = choose|n: nat| #[trigger]
                    language::speaks(nodes, n, Role::Schema(q), part, 0, part.len() as int);
                let (d, more) = lemma_sound(root, limits, arena, n, q, part);
                let name = object.properties@[index].name@;
                let first = Entry { key: name, value: d };
                let all = seq![first] + rest;
                let most = m + more;
                assert(all.skip(1) =~= rest);
                lemma_ascending(root, limits, arena, id, object);
                assert(members_fit(root, limits, id, object, values, index, all, most)) by {
                    assert forall|e: int| 0 <= e < all.len() implies exists|p: int|
                        index <= p < values.len() && (#[trigger] object.properties@[p]).name@
                            == (#[trigger] all[e]).key by {
                        if e == 0 {
                            assert(object.properties@[index].name@ == all[0].key);
                        } else {
                            assert(all[e] == rest[e - 1]);
                            let p = choose|p: int|
                                index + 1 <= p < values.len() && (
                                #[trigger] object.properties@[p]).name@ == rest[e - 1].key;
                            assert(object.properties@[p].name@ == all[e].key);
                        }
                    }
                    assert forall|e: int| 0 <= e < all.len() implies validation::ordered(
                        (#[trigger] all[e]).value,
                    ) && match validation::member_schema(members, all[e].key) {
                        Some(inner) => validation::satisfies(root, most, inner, all[e].value),
                        None => true,
                    } by {
                        if e == 0 {
                            satisfaction::lemma_more(root, more, most, list[q].value, d);
                        } else {
                            assert(all[e] == rest[e - 1]);
                            if let Some(inner) = validation::member_schema(members, all[e].key) {
                                satisfaction::lemma_more(root, m, most, inner, all[e].value);
                            }
                        }
                    }
                    assert forall|i: int, j: int| 0 <= i < j < all.len() implies text::text_before(
                        (#[trigger] all[i]).key,
                        (#[trigger] all[j]).key,
                    ) by {
                        assert(all[j] == rest[j - 1]);
                        if i == 0 {
                            let p = choose|p: int|
                                index + 1 <= p < values.len() && (
                                #[trigger] object.properties@[p]).name@ == rest[j - 1].key;
                            assert(object.properties@[p].name@ == all[j].key);
                        } else {
                            assert(all[i] == rest[i - 1]);
                        }
                    }
                    assert forall|p: int|
                        index <= p < values.len() && (
                        #[trigger] values[p]) is Some implies validation::has_key(
                        all,
                        object.properties@[p].name@,
                    ) by {
                        if p == index {
                            assert(all[0].key == name);
                        } else {
                            assert(validation::has_key(rest, object.properties@[p].name@));
                            let e = choose|e: int|
                                0 <= e < rest.len() && (#[trigger] rest[e]).key
                                    == object.properties@[p].name@;
                            assert(all[e + 1] == rest[e]);
                        }
                    }
                }
                assert(run(all, emitted) =~= meaning::members_text(object, values, index, emitted));
                (all, most)
            },
        }
    }
}

/// The names of properties come in ascending order.
proof fn lemma_ascending(
    root: JsonValue,
    limits: CompileLimits,
    arena: SchemaArena,
    id: int,
    object: ObjectConstraints,
)
    requires
        satisfaction::normalized(root, limits, arena),
        0 <= id < arena.nodes@.len(),
        arena.nodes@[id].kind == NormalizedSchema::Object(object),
    ensures
        forall|i: int, j: int|
            0 <= i < j < object.properties@.len() ==> text::text_before(
                (#[trigger] object.properties@[i]).name@,
                (#[trigger] object.properties@[j]).name@,
            ),
{
    order::law_properties_ascend(root, limits, arena);
    let names = object.names();
    assert(object.ascends());
    assert forall|i: int, j: int| 0 <= i < j < object.properties@.len() implies text::text_before(
        (#[trigger] object.properties@[i]).name@,
        (#[trigger] object.properties@[j]).name@,
    ) by {
        assert(text::text_before(names[i], names[j]));
    }
}

/// The text of a value that satisfies a schema is one of its texts.
proof fn lemma_complete(
    root: JsonValue,
    limits: CompileLimits,
    arena: SchemaArena,
    n: nat,
    id: int,
    d: Datum,
)
    requires
        satisfaction::compiled(root, limits, arena),
        0 <= id < arena.nodes@.len(),
        validation::satisfies(root, n, listed(root, limits)[id].value, d),
        validation::plain(d),
        validation::ordered(d),
    ensures
        language::conforms(arena.nodes@, id, validation::written(d)),
    decreases n, 1nat,
{
    let nodes = arena.nodes@;
    let list = listed(root, limits);
    let shape = shaped(root, limits)[id];
    let schema = list[id].value;
    let edges = satisfaction::lemma_place(root, limits, arena, id);
    satisfaction::lemma_opened(list[id], list, edges, limits, shape);
    assert(language::unsupported(nodes, id) is None);
    let w = validation::written(d);
    let members = (schema->Object_0)@;
    let m = (n - 1) as nat;
    if json::has(members, "allOf"@) {
        keywords::lemma_all_of_complete(root, limits, arena, id, n, d);
    } else if json::has(members, "anyOf"@) {
        keywords::lemma_sole(root, n, schema, d);
        let values = (json::find(members, "anyOf"@)->0->Array_0)@;
        let b = choose|b: int|
            0 <= b < values.len() && validation::satisfies(root, m, #[trigger] values[b], d);
        let branches = nodes[id].kind->Union_0;
        let below = pointer::joined(list[id].pointer, "anyOf"@);
        let ids = normalize::numbers(branches@);
        satisfaction::lemma_item_count(places::pointers(list), below, values.len());
        satisfaction::lemma_branch(root, list, id, members, "anyOf"@, values, ids, b);
        assert(ids[b] == branches@[b].0);
        lemma_complete(root, limits, arena, m, ids[b], d);
        satisfaction::lemma_union_texts(nodes, id, b, w);
    } else if json::has(members, "$ref"@) {
        keywords::lemma_sole(root, n, schema, d);
        let reference = (json::find(members, "$ref"@)->0->String_0)@;
        let target = choose|target: JsonValue| #[trigger]
            location::names(root, reference, target) && validation::satisfies(root, m, target, d);
        let p = nodes[id].kind->Ref_0.0 as int;
        let aim = pointer::resolved(list[id].pointer, reference)->Ok_0;
        satisfaction::lemma_located(list, aim);
        assert(location::placed(root, list[p]));
        location::law_reference_names_place(root, list[id].pointer, reference, list[p]);
        assert(target == list[p].value);
        lemma_complete(root, limits, arena, m, p, d);
        satisfaction::lemma_ref_texts(nodes, id, w);
    } else if json::has(members, "const"@) || json::has(members, "enum"@) {
        satisfaction::lemma_listed_values(root, limits, arena, id, n, d);
        let value = choose|value: JsonValue| #[trigger]
            satisfaction::lists(schema, value) && d == validation::datum_of(value);
        satisfaction::law_listed_texts(root, limits, arena, id, w);
    } else {
        assert(satisfaction::typed(members, d));
        match d {
            Datum::Array(items) => {
                lemma_array_complete(root, limits, arena, n, id, items);
            },
            Datum::Object(entries) => {
                lemma_object_complete(root, limits, arena, n, id, entries);
            },
            _ => {
                keywords::lemma_scalar_complete(root, limits, arena, id, n, d);
            },
        }
    }
}

/// The text of an array that satisfies a schema is one of its texts.
proof fn lemma_array_complete(
    root: JsonValue,
    limits: CompileLimits,
    arena: SchemaArena,
    n: nat,
    id: int,
    items: Seq<Datum>,
)
    requires
        satisfaction::compiled(root, limits, arena),
        0 <= id < arena.nodes@.len(),
        listed(root, limits)[id].value matches JsonValue::Object(members) && keywords::has_type(
            members@,
        ),
        validation::satisfies(root, n, listed(root, limits)[id].value, Datum::Array(items)),
        validation::plain(Datum::Array(items)),
        validation::ordered(Datum::Array(items)),
    ensures
        language::conforms(arena.nodes@, id, validation::written(Datum::Array(items))),
    decreases n, 0nat,
{
    let nodes = arena.nodes@;
    let list = listed(root, limits);
    let shape = shaped(root, limits)[id];
    let schema = list[id].value;
    let members = (schema->Object_0)@;
    let d = Datum::Array(items);
    let edges = satisfaction::lemma_place(root, limits, arena, id);
    satisfaction::lemma_opened(list[id], list, edges, limits, shape);
    assert(language::unsupported(nodes, id) is None);
    assert(satisfaction::typed(members, d));
    assert(json::has(members, "type"@)) by {
        if !json::has(members, "type"@) {
            assert(normalize::declared_type(list[id].pointer, members) == Ok::<
                Option<JsonType>,
                Fault,
            >(None));
        }
    }
    assert(keywords::of_arrays(members));
    keywords::lemma_array(root, limits, arena, id);
    assert(validation::enough(members, "minItems"@, items.len()));
    assert(validation::few(members, "maxItems"@, items.len()));
    let array = nodes[id].kind->Array_0;
    let parts = Seq::new(items.len(), |k: int| validation::written(items[k]));
    let path = choose|path: Seq<Seq<char>>| #[trigger] location::stands(root, list[id], path);
    assert(location::placed(root, list[id]));
    assert forall|k: int| 0 <= k < parts.len() implies meaning::item_conforms(
        nodes,
        array,
        0 + k,
        #[trigger] parts[k],
    ) by {
        keywords::lemma_array_item(root, limits, arena, id, path, k);
        match meaning::item_schema(array, k) {
            Some(p) => {
                assert(validation::satisfies(root, (n - 1) as nat, list[p].value, items[k]));
                assert(validation::plain(items[k]) && validation::ordered(items[k]));
                lemma_complete(root, limits, arena, (n - 1) as nat, p, items[k]);
            },
            None => {
                assert(array.items is None);
                assert(!language::doomed(nodes, array));
            },
        }
    }
    assert(meaning::items_conform(nodes, array, 0, parts));
    lemma_items_written(items, parts, 0);
    assert(parts.skip(0) =~= parts);
    let w = validation::written(d);
    assert(w == language::one(91) + meaning::items_text(parts, 0) + language::one(93));
    meaning::law_array_texts(nodes, id, array, w);
}

/// The text of the value of a member with a name, if there is one.
pub open spec fn member_text(entries: Seq<Entry>, name: Seq<char>) -> Option<Seq<u8>> {
    if validation::has_key(entries, name) {
        let e = choose|e: int| 0 <= e < entries.len() && (#[trigger] entries[e]).key == name;
        Some(validation::written(entries[e].value))
    } else {
        None
    }
}

/// The members of an object, property by property.
proof fn lemma_members_aligned(
    object: ObjectConstraints,
    values: Seq<Option<Seq<u8>>>,
    entries: Seq<Entry>,
    index: int,
    e: int,
    emitted: bool,
)
    requires
        values.len() == object.properties@.len(),
        forall|p: int|
            0 <= p < values.len() ==> #[trigger] values[p] == member_text(
                entries,
                object.properties@[p].name@,
            ),
        forall|i: int, j: int|
            0 <= i < j < object.properties@.len() ==> text::text_before(
                (#[trigger] object.properties@[i]).name@,
                (#[trigger] object.properties@[j]).name@,
            ),
        forall|i: int, j: int|
            0 <= i < j < entries.len() ==> text::text_before(
                (#[trigger] entries[i]).key,
                (#[trigger] entries[j]).key,
            ),
        0 <= index <= values.len(),
        0 <= e <= entries.len(),
        forall|i: int|
            e <= i < entries.len() ==> exists|p: int|
                index <= p < values.len() && (#[trigger] object.properties@[p]).name@
                    == (#[trigger] entries[i]).key,
        forall|i: int, p: int|
            0 <= i < e && index <= p < values.len() ==> (#[trigger] object.properties@[p]).name@ != (
            #[trigger] entries[i]).key,
    ensures
        meaning::members_text(object, values, index, emitted) == run(entries.skip(e), emitted),
    decreases values.len() - index,
{
    let rest = entries.skip(e);
    if index == values.len() {
        if e < entries.len() {
            let p = choose|p: int|
                index <= p < values.len() && (#[trigger] object.properties@[p]).name@
                    == entries[e].key;
            assert(entries[e] == entries[e]);
        }
        assert(rest.len() == 0);
    } else {
        let name = object.properties@[index].name@;
        assert(values[index] == member_text(entries, name));
        if validation::has_key(entries, name) {
            let i = choose|i: int| 0 <= i < entries.len() && (#[trigger] entries[i]).key == name;
            assert(i >= e);
            if i > e {
                assert(text::text_before(entries[e].key, entries[i].key));
                let p = choose|p: int|
                    index <= p < values.len() && (#[trigger] object.properties@[p]).name@
                        == entries[e].key;
                text::lemma_text_total(entries[e].key, name);
                if p > index {
                    assert(text::text_before(
                        object.properties@[index].name@,
                        object.properties@[p].name@,
                    ));
                }
            }
            assert(i == e);
            assert forall|j: int| e + 1 <= j < entries.len() implies exists|p: int|
                index + 1 <= p < values.len() && (#[trigger] object.properties@[p]).name@
                    == (#[trigger] entries[j]).key by {
                let p = choose|p: int|
                    index <= p < values.len() && (#[trigger] object.properties@[p]).name@
                        == entries[j].key;
                assert(text::text_before(entries[e].key, entries[j].key));
                text::lemma_text_total(name, name);
                assert(p != index);
                assert(object.properties@[p].name@ == entries[j].key);
            }
            assert forall|j: int, p: int| 0 <= j < e + 1 && index + 1 <= p < values.len() implies (
            #[trigger] object.properties@[p]).name@ != (#[trigger] entries[j]).key by {
                if j == e {
                    assert(text::text_before(
                        object.properties@[index].name@,
                        object.properties@[p].name@,
                    ));
                    text::lemma_text_total(name, name);
                }
            }
            lemma_members_aligned(object, values, entries, index + 1, e + 1, true);
            assert(rest.skip(1) =~= entries.skip(e + 1));
            assert(rest[0] == entries[e]);
            assert(values[index] == Some(validation::written(entries[e].value)));
            assert(meaning::members_text(object, values, index, emitted) =~= run(rest, emitted));
        } else {
            assert forall|j: int| e <= j < entries.len() implies exists|p: int|
                index + 1 <= p < values.len() && (#[trigger] object.properties@[p]).name@
                    == (#[trigger] entries[j]).key by {
                let p = choose|p: int|
                    index <= p < values.len() && (#[trigger] object.properties@[p]).name@
                        == entries[j].key;
                assert(p != index);
                assert(object.properties@[p].name@ == entries[j].key);
            }
            lemma_members_aligned(object, values, entries, index + 1, e, emitted);
        }
    }
}

/// The text of an object that satisfies a schema is one of its texts.
proof fn lemma_object_complete(
    root: JsonValue,
    limits: CompileLimits,
    arena: SchemaArena,
    n: nat,
    id: int,
    entries: Seq<Entry>,
)
    requires
        satisfaction::compiled(root, limits, arena),
        0 <= id < arena.nodes@.len(),
        listed(root, limits)[id].value matches JsonValue::Object(members) && keywords::has_type(
            members@,
        ),
        validation::satisfies(root, n, listed(root, limits)[id].value, Datum::Object(entries)),
        validation::plain(Datum::Object(entries)),
        validation::ordered(Datum::Object(entries)),
    ensures
        language::conforms(arena.nodes@, id, validation::written(Datum::Object(entries))),
    decreases n, 0nat,
{
    let nodes = arena.nodes@;
    let list = listed(root, limits);
    let shape = shaped(root, limits)[id];
    let schema = list[id].value;
    let members = (schema->Object_0)@;
    let d = Datum::Object(entries);
    let edges = satisfaction::lemma_place(root, limits, arena, id);
    satisfaction::lemma_opened(list[id], list, edges, limits, shape);
    assert(language::unsupported(nodes, id) is None);
    assert(satisfaction::typed(members, d));
    satisfaction::lemma_types_apart();
    assert(nodes[id].kind is Object);
    let object = nodes[id].kind->Object_0;
    keywords::lemma_object(root, limits, arena, id);
    lemma_ascending(root, limits, arena, id, object);
    let m = (n - 1) as nat;
    assert forall|e: int| 0 <= e < entries.len() implies language::has_property(
        object,
        (#[trigger] entries[e]).key,
    ) by {
        if !language::has_property(object, entries[e].key) {
            keywords::lemma_other(root, limits, arena, id, object, entries[e].key);
            assert(validation::satisfies(root, m, JsonValue::Bool(false), entries[e].value));
        }
    }
    let values = Seq::new(
        object.properties@.len(),
        |p: int| member_text(entries, object.properties@[p].name@),
    );
    assert forall|name: Seq<char>| #[trigger]
        language::holds_name(object, name) implies validation::has_key(entries, name) by {
        keywords::lemma_required(root, limits, arena, id, object, name);
        assert(validation::admits_names(members, d));
        let required = (json::find(members, "required"@)->0->Array_0)@;
        let r = choose|r: int|
            0 <= r < required.len() && (#[trigger] required[r] matches JsonValue::String(s) && s@
                == name);
        assert(required[r] is String);
    }
    assert forall|p: int| 0 <= p < values.len() implies match #[trigger] values[p] {
        Some(value) => language::conforms(nodes, object.properties@[p].schema.0 as int, value),
        None => !language::is_required(object, p),
    } by {
        let name = object.properties@[p].name@;
        if validation::has_key(entries, name) {
            let e = choose|e: int| 0 <= e < entries.len() && (#[trigger] entries[e]).key == name;
            keywords::lemma_property(root, limits, arena, id, object, p);
            let q = object.properties@[p].schema.0 as int;
            assert(validation::satisfies(root, m, list[q].value, entries[e].value));
            lemma_complete(root, limits, arena, m, q, entries[e].value);
        }
    }
    assert(meaning::members_conform(nodes, object, values, 0));
    assert(language::all_known(object)) by {
        assert forall|r: int| 0 <= r < object.required@.len() implies language::has_property(
            object,
            (#[trigger] object.required@[r])@,
        ) by {
            let name = object.required@[r]@;
            assert(language::holds_name(object, name));
            let e = choose|e: int| 0 <= e < entries.len() && (#[trigger] entries[e]).key == name;
            assert(language::has_property(object, entries[e].key));
        }
    }
    assert forall|i: int| 0 <= i < entries.len() implies exists|p: int|
        0 <= p < values.len() && (#[trigger] object.properties@[p]).name@
            == (#[trigger] entries[i]).key by {
        assert(language::has_property(object, entries[i].key));
    }
    lemma_members_aligned(object, values, entries, 0, 0, false);
    lemma_run(entries, 0);
    assert(entries.skip(0) =~= entries);
    let w = validation::written(d);
    assert(w == language::one(123) + meaning::members_text(object, values, 0, false)
        + language::one(125));
    meaning::law_object_texts(nodes, id, object, w);
}

/// A text that conforms to a schema of a document is the canonical text of a value that satisfies
/// every assertion of the schema.
pub proof fn law_texts_are_valid(
    root: JsonValue,
    limits: CompileLimits,
    arena: SchemaArena,
    id: int,
    w: Seq<u8>,
)
    requires
        satisfaction::compiled(root, limits, arena),
        language::conforms(arena.nodes@, id, w),
    ensures
        exists|d: Datum| #[trigger]
            validation::valid(root, listed(root, limits)[id].value, d) && validation::written(d)
                == w && validation::ordered(d),
{
    let n = choose|n: nat| #[trigger]
        language::speaks(arena.nodes@, n, Role::Schema(id), w, 0, w.len() as int);
    let (d, m) = lemma_sound(root, limits, arena, n, id, w);
    assert(validation::satisfies(root, m, listed(root, limits)[id].value, d));
    assert(validation::valid(root, listed(root, limits)[id].value, d));
}

/// The canonical text of a value that satisfies a schema of a document conforms to it.
pub proof fn law_valid_values_conform(
    root: JsonValue,
    limits: CompileLimits,
    arena: SchemaArena,
    id: int,
    d: Datum,
)
    requires
        satisfaction::compiled(root, limits, arena),
        0 <= id < arena.nodes@.len(),
        validation::valid(root, listed(root, limits)[id].value, d),
        validation::plain(d),
        validation::ordered(d),
    ensures
        language::conforms(arena.nodes@, id, validation::written(d)),
{
    let n = choose|n: nat| #[trigger]
        validation::satisfies(root, n, listed(root, limits)[id].value, d);
    lemma_complete(root, limits, arena, n, id, d);
}

/// Whatever a compiled schema accepts is the canonical text of a value that satisfies the document.
pub proof fn law_accepted_is_valid(
    root: JsonValue,
    limits: CompileLimits,
    arena: SchemaArena,
    w: Seq<u8>,
)
    requires
        satisfaction::compiled(root, limits, arena),
        engine::accepted(&arena, w),
    ensures
        exists|d: Datum| #[trigger]
            validation::valid(root, root, d) && validation::written(d) == w && validation::ordered(
                d,
            ),
{
    keywords::lemma_root(root, limits, arena);
    law_texts_are_valid(root, limits, arena, 0, w);
}

/// A compiled schema accepts the canonical text of every value that satisfies the document, where
/// no string holds a control character and every number is written as one.
pub proof fn law_valid_is_accepted(
    root: JsonValue,
    limits: CompileLimits,
    arena: SchemaArena,
    d: Datum,
)
    requires
        satisfaction::compiled(root, limits, arena),
        validation::valid(root, root, d),
        validation::plain(d),
        validation::ordered(d),
    ensures
        engine::accepted(&arena, validation::written(d)),
{
    keywords::lemma_root(root, limits, arena);
    law_valid_values_conform(root, limits, arena, 0, d);
}

/// Where the bounds of a length compile, every text that conforms is that of a string with at least
/// and at most as many characters as they say.
pub proof fn law_string_lengths(
    root: JsonValue,
    limits: CompileLimits,
    arena: SchemaArena,
    id: int,
    members: Vec<JsonMember>,
    w: Seq<u8>,
)
    requires
        satisfaction::compiled(root, limits, arena),
        language::conforms(arena.nodes@, id, w),
        listed(root, limits)[id].value == JsonValue::Object(members),
        json::find(members@, "type"@) matches Some(JsonValue::String(name)) && name@ == "string"@,
    ensures
        exists|t: Seq<char>|
            w == utf8::encode_utf8(#[trigger] text::json_text(t)) && validation::enough(
                members@,
                "minLength"@,
                t.len(),
            ) && validation::few(members@, "maxLength"@, t.len()),
{
    law_texts_are_valid(root, limits, arena, id, w);
    let schema = listed(root, limits)[id].value;
    let d = choose|d: Datum| #[trigger]
        validation::valid(root, schema, d) && validation::written(d) == w && validation::ordered(
            d,
        );
    let n = choose|n: nat| #[trigger] validation::satisfies(root, n, schema, d);
    assert(validation::satisfies(root, n, schema, d));
    satisfaction::lemma_types_apart();
    let t = d->String_0;
    assert(w == utf8::encode_utf8(text::json_text(t)));
}

/// What a recognizer of a compiled schema accepts is the canonical text of a value that satisfies
/// the document.
pub proof fn law_recognized_is_valid(
    root: JsonValue,
    vocabulary: &Vocabulary,
    limits: CompileLimits,
    policy: BackendPolicy,
    compiled: CompiledSchema,
    recognizer: &RecognizerState,
    h: Seq<u8>,
)
    requires
        json::sorted(root),
        validation::numbers_read(root),
        engine::compiles(Ok(compiled), root, vocabulary, limits, policy),
        engine::recognizes_schema(recognizer, &compiled.normalized),
        recognizer.recognizes(h),
        recognizer.accepting(),
    ensures
        exists|d: Datum| #[trigger]
            validation::valid(root, root, d) && validation::written(d) == h && validation::ordered(
                d,
            ),
{
    let prepared = choose|prepared: PreparedCompilation| #[trigger]
        engine::prepares(&prepared, root, limits, policy) && engine::comes_of(&compiled, &prepared);
    engine::law_accepted_conforms(&compiled.normalized, recognizer, h);
    law_accepted_is_valid(root, limits, compiled.normalized, h);
}

/// The language of a recognizer of a compiled schema holds the canonical text of every value that
/// satisfies the document, where no string holds a control character and every number is written as
/// one.
pub proof fn law_valid_is_recognized(
    root: JsonValue,
    vocabulary: &Vocabulary,
    limits: CompileLimits,
    policy: BackendPolicy,
    compiled: CompiledSchema,
    recognizer: &RecognizerState,
    d: Datum,
)
    requires
        json::sorted(root),
        validation::numbers_read(root),
        engine::compiles(Ok(compiled), root, vocabulary, limits, policy),
        engine::recognizes_schema(recognizer, &compiled.normalized),
        validation::valid(root, root, d),
        validation::plain(d),
        validation::ordered(d),
    ensures
        recognizer.generates(validation::written(d)),
{
    let prepared = choose|prepared: PreparedCompilation| #[trigger]
        engine::prepares(&prepared, root, limits, policy) && engine::comes_of(&compiled, &prepared);
    law_valid_is_accepted(root, limits, compiled.normalized, d);
    assert(recognizer.generates(validation::written(d)));
}

} // verus!
