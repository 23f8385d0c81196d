//! What the keywords of a schema ask of the texts that conform to it.

use vstd::prelude::*;
use vstd::utf8;

use crate::fault::Fault;
use crate::json;
use crate::json::{JsonMember, JsonValue};
use crate::language;
use crate::lexical;
use crate::location;
use crate::meaning;
use crate::normalize;
use crate::normalize::Shape;
use crate::places;
use crate::places::Place;
use crate::pointer;
use crate::satisfaction;
use crate::satisfaction::{listed, shaped};
use crate::schema::{CompileLimits, JsonType, NormalizedSchema, ObjectConstraints, SchemaArena, SchemaNode};
use crate::text;
use crate::validation;
use crate::validation::Datum;

verus! {

/// The pointers of places that are found are all different.
pub proof fn lemma_walk_distinct(work: Seq<Place>, found: Seq<Place>, limit: nat)
    requires
        places::pointers(found).no_duplicates(),
    ensures
        places::walk(work, found, limit) matches Ok(list) ==> places::pointers(list).no_duplicates()
            && list.len() >= found.len() && list.take(found.len() as int) == found,
    decreases limit - found.len(), work.len(),
{
    if work.len() == 0 {
        assert(found.take(found.len() as int) =~= found);
    } else {
        let last = work.last();
        let rest = work.drop_last();
        if places::pointers(found).contains(last.pointer) {
            lemma_walk_distinct(rest, found, limit);
        } else if found.len() < limit {
            let more = rest + places::ordered(places::children(last)).reverse();
            let longer = found.push(last);
            let before = places::pointers(found);
            let after = places::pointers(longer);
            assert(after =~= before.push(last.pointer));
            assert(after.no_duplicates()) by {
                assert forall|i: int, j: int|
                    0 <= i < after.len() && 0 <= j < after.len() && i != j implies after[i]
                    != after[j] by {
                    if i < before.len() {
                        assert(before.contains(before[i]));
                    }
                    if j < before.len() {
                        assert(before.contains(before[j]));
                    }
                }
            }
            lemma_walk_distinct(more, longer, limit);
            if let Ok(list) = places::walk(more, longer, limit) {
                assert(list.take(found.len() as int) =~= list.take(longer.len() as int).take(
                    found.len() as int,
                ));
                assert(longer.take(found.len() as int) =~= found);
            }
        }
    }
}

/// The first schema of a document is the document, and no two stand at the same place.
pub proof fn lemma_root(root: JsonValue, limits: CompileLimits, arena: SchemaArena)
    requires
        satisfaction::normalized(root, limits, arena),
    ensures
        places::pointers(listed(root, limits)).no_duplicates(),
        arena.nodes@.len() > 0,
        listed(root, limits)[0].value == root,
        listed(root, limits).len() == arena.nodes@.len(),
{
    let first = Place { pointer: Seq::empty(), value: root };
    let limit = limits.max_schema_nodes as nat;
    reveal_with_fuel(places::walk, 2);
    assert(places::pointers(Seq::<Place>::empty()) =~= Seq::empty());
    let work = seq![first];
    assert(limit > 0);
    let more = work.drop_last() + places::ordered(places::children(first)).reverse();
    let found = Seq::<Place>::empty().push(first);
    assert(places::pointers(found).no_duplicates());
    lemma_walk_distinct(more, found, limit);
    let list = listed(root, limits);
    assert(list.take(1)[0] == found[0]);
}

/// A text conforms to a schema that is a reference just where it conforms to the schema that is
/// named, be it the whole document.
pub proof fn law_reference_texts(
    root: JsonValue,
    limits: CompileLimits,
    arena: SchemaArena,
    id: int,
    members: Vec<JsonMember>,
    reference: String,
    target: int,
    path: Seq<Seq<char>>,
    w: Seq<u8>,
)
    requires
        satisfaction::normalized(root, limits, arena),
        0 <= id < arena.nodes@.len(),
        0 <= target < arena.nodes@.len(),
        listed(root, limits)[id].value == JsonValue::Object(members),
        json::find(members@, "$ref"@) == Some(JsonValue::String(reference)),
        location::leads_to(reference@, path),
        listed(root, limits)[target].pointer == location::pointer_of(path),
    ensures
        language::conforms(arena.nodes@, id, w) <==> language::conforms(arena.nodes@, target, w),
{
    let list = listed(root, limits);
    let shape = shaped(root, limits)[id];
    let edges = satisfaction::lemma_place(root, limits, arena, id);
    satisfaction::lemma_opened(list[id], list, edges, limits, shape);
    lemma_root(root, limits, arena);
    let aim = pointer::resolved(list[id].pointer, reference@)->Ok_0;
    satisfaction::lemma_located(list, aim);
    let p = places::located(places::pointers(list), aim)->0;
    location::law_reference_is_resolved(list[id].pointer, reference@, path);
    let pointers = places::pointers(list);
    assert(pointers[p] == aim && pointers[target] == aim);
    assert(p == target);
    assert(shape == Shape::Ref(target));
    satisfaction::lemma_ref_texts(arena.nodes@, id, w);
}

/// Whether a schema has one keyword that asks something of values, and no more.
pub open spec fn sole(members: Seq<JsonMember>) -> bool {
    &&& satisfaction::all_stated(members)
    &&& normalize::semantic_count(members) == 1
    &&& !normalize::structural_keywords(members)
}

/// What a schema with branches, or a reference, asks.
pub proof fn lemma_sole(root: JsonValue, n: nat, schema: JsonValue, d: Datum)
    requires
        n > 0,
        schema matches JsonValue::Object(members) && sole(members@),
    ensures
        json::find((schema->Object_0)@, "anyOf"@) matches Some(JsonValue::Array(branches)) ==> (
        validation::satisfies(root, n, schema, d) <==> exists|b: int|
            0 <= b < branches@.len() && validation::satisfies(
                root,
                (n - 1) as nat,
                #[trigger] branches@[b],
                d,
            )),
        json::find((schema->Object_0)@, "allOf"@) matches Some(JsonValue::Array(branches)) ==> (
        validation::satisfies(root, n, schema, d) <==> forall|b: int|
            0 <= b < branches@.len() ==> validation::satisfies(
                root,
                (n - 1) as nat,
                #[trigger] branches@[b],
                d,
            )),
        json::find((schema->Object_0)@, "$ref"@) matches Some(JsonValue::String(reference)) ==> (
        validation::satisfies(root, n, schema, d) <==> exists|target: JsonValue| #[trigger]
            location::names(root, reference@, target) && validation::satisfies(
                root,
                (n - 1) as nat,
                target,
                d,
            )),
{
}

/// The branches of a conjunction, and what their positions hold.
pub proof fn lemma_all_of(
    root: JsonValue,
    limits: CompileLimits,
    arena: SchemaArena,
    id: int,
    n: nat,
    d: Datum,
) -> (constant: JsonValue)
    requires
        satisfaction::normalized(root, limits, arena),
        0 <= id < arena.nodes@.len(),
        listed(root, limits)[id].value matches JsonValue::Object(members) && json::has(
            members@,
            "allOf"@,
        ),
        n > 1,
    ensures
        constant == all_of_constant(listed(root, limits), id),
        arena.nodes@[id].kind is Never || arena.nodes@[id].kind is Const,
        arena.nodes@[id].kind matches NormalizedSchema::Const(form) ==> json::sorted(constant)
            && json::canonical(constant) == form.json@,
        validation::satisfies(root, n, listed(root, limits)[id].value, d) <==> (
        arena.nodes@[id].kind is Const && d == validation::datum_of(constant)),
{
    let list = listed(root, limits);
    let shape = shaped(root, limits)[id];
    let schema = list[id].value;
    let edges = satisfaction::lemma_place(root, limits, arena, id);
    satisfaction::lemma_opened(list[id], list, edges, limits, shape);
    let members = (schema->Object_0)@;
    let branches = (json::find(members, "allOf"@)->0->Array_0)@;
    let below = pointer::joined(list[id].pointer, "allOf"@);
    let ids = normalize::item_positions(places::pointers(list), below, branches.len())->0;
    satisfaction::lemma_item_count(places::pointers(list), below, branches.len());
    assert forall|b: int| 0 <= b < ids.len() implies json::sorted(list[#[trigger] ids[b]].value)
        && validation::numbers_read(list[ids[b]].value) && list[ids[b]].value == branches[b] by {
        satisfaction::lemma_branch(root, list, id, members, "allOf"@, branches, ids, b);
        let inner = satisfaction::lemma_place(root, limits, arena, ids[b]);
    }
    lemma_sole(root, n, schema, d);
    satisfaction::lemma_intersect(
        root,
        (n - 1) as nat,
        list[id].pointer,
        list,
        ids,
        0,
        None,
        None,
        shape,
        d,
    );
    let m = (n - 1) as nat;
    if satisfaction::satisfies_from(root, m, list, ids, 0, d) {
        assert forall|b: int| 0 <= b < branches.len() implies validation::satisfies(
            root,
            m,
            #[trigger] branches[b],
            d,
        ) by {
            assert(list[ids[b]].value == branches[b]);
        }
    }
    if validation::satisfies(root, n, schema, d) {
        assert forall|b: int| 0 <= b < ids.len() implies validation::satisfies(
            root,
            m,
            list[#[trigger] ids[b]].value,
            d,
        ) by {
            assert(list[ids[b]].value == branches[b]);
        }
    }
    all_of_constant(list, id)
}

/// The constant among the branches of a conjunction.
pub open spec fn all_of_constant(list: Seq<Place>, id: int) -> JsonValue {
    let members = (list[id].value->Object_0)@;
    let branches = (json::find(members, "allOf"@)->0->Array_0)@;
    let below = pointer::joined(list[id].pointer, "allOf"@);
    let ids = normalize::item_positions(places::pointers(list), below, branches.len())->0;
    satisfaction::constant_in(list, ids, 0, None)->0
}

/// A text of a conjunction is that of a value that satisfies it.
pub proof fn lemma_all_of_sound(
    root: JsonValue,
    limits: CompileLimits,
    arena: SchemaArena,
    id: int,
    w: Seq<u8>,
) -> (d: Datum)
    requires
        satisfaction::normalized(root, limits, arena),
        0 <= id < arena.nodes@.len(),
        listed(root, limits)[id].value matches JsonValue::Object(members) && json::has(
            members@,
            "allOf"@,
        ),
        language::conforms(arena.nodes@, id, w),
    ensures
        validation::satisfies(root, 2, listed(root, limits)[id].value, d),
        validation::written(d) == w,
        validation::ordered(d),
{
    let c = lemma_all_of(root, limits, arena, id, 2, Datum::Null);
    let d = validation::datum_of(c);
    let same = lemma_all_of(root, limits, arena, id, 2, d);
    satisfaction::lemma_texts(arena.nodes@, id, w);
    satisfaction::lemma_form(c, w);
    d
}

/// The text of a value that satisfies a conjunction is one of its texts.
pub proof fn lemma_all_of_complete(
    root: JsonValue,
    limits: CompileLimits,
    arena: SchemaArena,
    id: int,
    n: nat,
    d: Datum,
)
    requires
        satisfaction::normalized(root, limits, arena),
        0 <= id < arena.nodes@.len(),
        listed(root, limits)[id].value matches JsonValue::Object(members) && json::has(
            members@,
            "allOf"@,
        ),
        validation::satisfies(root, n, listed(root, limits)[id].value, d),
    ensures
        language::conforms(arena.nodes@, id, validation::written(d)),
{
    satisfaction::lemma_more(root, n, n + 2, listed(root, limits)[id].value, d);
    let c = lemma_all_of(root, limits, arena, id, n + 2, d);
    let w = validation::written(d);
    satisfaction::lemma_texts(arena.nodes@, id, w);
    satisfaction::lemma_form(c, w);
}

/// The type that a schema declares.
pub proof fn lemma_named(at: Seq<char>, members: Seq<JsonMember>, kind: JsonType, d: Datum)
    requires
        normalize::declared_type(at, members) == Ok::<Option<JsonType>, Fault>(Some(kind)),
    ensures
        satisfaction::typed(members, d) <==> match kind {
            JsonType::Null => d is Null,
            JsonType::Boolean => d is Bool,
            JsonType::String => d is String,
            JsonType::Number => d is Number,
            JsonType::Integer => d matches Datum::Number(digits) && lexical::integer(digits),
            JsonType::Array => d is Array,
            JsonType::Object => d is Object,
        },
{
    satisfaction::lemma_types_apart();
}

/// Whether a schema has a type, and no keywords that decide before it.
pub open spec fn has_type(members: Seq<JsonMember>) -> bool {
    &&& satisfaction::all_stated(members)
    &&& !json::has(members, "allOf"@)
    &&& !json::has(members, "anyOf"@)
    &&& !json::has(members, "$ref"@)
    &&& !json::has(members, "const"@)
    &&& !json::has(members, "enum"@)
}

/// A value of a type that is neither an array nor an object satisfies a schema of that type just
/// where the type and the lengths admit it.
pub proof fn lemma_scalar(root: JsonValue, n: nat, schema: JsonValue, d: Datum)
    requires
        n > 0,
        schema matches JsonValue::Object(members) && has_type(members@),
        !(d is Array) && !(d is Object),
    ensures
        validation::satisfies(root, n, schema, d) <==> satisfaction::typed(
            (schema->Object_0)@,
            d,
        ) && validation::admits_length((schema->Object_0)@, d),
{
}

/// A text of a schema of a type is that of a value that satisfies it, where the type is neither that
/// of arrays nor that of objects.
pub proof fn lemma_scalar_sound(
    root: JsonValue,
    limits: CompileLimits,
    arena: SchemaArena,
    id: int,
    w: Seq<u8>,
) -> (d: Datum)
    requires
        satisfaction::compiled(root, limits, arena),
        0 <= id < arena.nodes@.len(),
        listed(root, limits)[id].value matches JsonValue::Object(members) && has_type(members@),
        !(arena.nodes@[id].kind is Array) && !(arena.nodes@[id].kind is Object),
        language::conforms(arena.nodes@, id, w),
    ensures
        validation::satisfies(root, 1, listed(root, limits)[id].value, d),
        validation::written(d) == w,
        validation::ordered(d),
{
    let list = listed(root, limits);
    let shape = shaped(root, limits)[id];
    let schema = list[id].value;
    let edges = satisfaction::lemma_place(root, limits, arena, id);
    satisfaction::lemma_opened(list[id], list, edges, limits, shape);
    satisfaction::lemma_texts(arena.nodes@, id, w);
    let members = (schema->Object_0)@;
    assert(language::unsupported(arena.nodes@, id) is None);
    let d = match arena.nodes@[id].kind {
        NormalizedSchema::Null => Datum::Null,
        NormalizedSchema::Boolean => Datum::Bool(w == utf8::encode_utf8("true"@)),
        NormalizedSchema::String(_) => Datum::String(
            choose|t: Seq<char>|
                lexical::all_clean(t) && w == utf8::encode_utf8(#[trigger] text::json_text(t)),
        ),
        _ => Datum::Number(w),
    };
    let kind = normalize::declared_type(list[id].pointer, members)->Ok_0->0;
    lemma_named(list[id].pointer, members, kind, d);
    lemma_scalar(root, 1, schema, d);
    d
}

/// The text of a value that satisfies a schema of a type is one of its texts, where it is neither an
/// array nor an object.
pub proof fn lemma_scalar_complete(
    root: JsonValue,
    limits: CompileLimits,
    arena: SchemaArena,
    id: int,
    n: nat,
    d: Datum,
)
    requires
        satisfaction::compiled(root, limits, arena),
        0 <= id < arena.nodes@.len(),
        listed(root, limits)[id].value matches JsonValue::Object(members) && has_type(members@),
        validation::satisfies(root, n, listed(root, limits)[id].value, d),
        validation::plain(d),
        !(d is Array) && !(d is Object),
    ensures
        language::conforms(arena.nodes@, id, validation::written(d)),
{
    let list = listed(root, limits);
    let shape = shaped(root, limits)[id];
    let schema = list[id].value;
    let edges = satisfaction::lemma_place(root, limits, arena, id);
    satisfaction::lemma_opened(list[id], list, edges, limits, shape);
    let w = validation::written(d);
    satisfaction::lemma_texts(arena.nodes@, id, w);
    let members = (schema->Object_0)@;
    assert(language::unsupported(arena.nodes@, id) is None);
    lemma_scalar(root, n, schema, d);
    match normalize::declared_type(list[id].pointer, members)->Ok_0 {
        Some(kind) => {
            lemma_named(list[id].pointer, members, kind, d);
        },
        None => {},
    }
}

/// Whether a schema is one of arrays: it declares that type, and lists no values.
pub open spec fn of_arrays(members: Seq<JsonMember>) -> bool {
    &&& json::find(members, "type"@) matches Some(JsonValue::String(name)) && name@ == "array"@
    &&& !json::has(members, "const"@)
    &&& !json::has(members, "enum"@)
}

/// What the normal form of a schema of arrays holds.
pub proof fn lemma_array(root: JsonValue, limits: CompileLimits, arena: SchemaArena, id: int)
    requires
        satisfaction::normalized(root, limits, arena),
        0 <= id < arena.nodes@.len(),
        listed(root, limits)[id].value matches JsonValue::Object(members),
        of_arrays((listed(root, limits)[id].value->Object_0)@) || arena.nodes@[id].kind is Array,
    ensures
        has_type((listed(root, limits)[id].value->Object_0)@),
        !json::has((listed(root, limits)[id].value->Object_0)@, "required"@),
        of_arrays((listed(root, limits)[id].value->Object_0)@),
        match arena.nodes@[id].kind {
            NormalizedSchema::Array(array) => {
                &&& normalize::array_shape(
                    listed(root, limits)[id].pointer,
                    (listed(root, limits)[id].value->Object_0)@,
                    places::pointers(listed(root, limits)),
                ) == Ok::<Shape, Fault>(shaped(root, limits)[id])
                &&& forall|c: nat|
                    #![trigger validation::enough(
                        (listed(root, limits)[id].value->Object_0)@,
                        "minItems"@,
                        c,
                    )]
                    validation::enough(
                        (listed(root, limits)[id].value->Object_0)@,
                        "minItems"@,
                        c,
                    ) <==> array.min_items <= c
                &&& forall|c: nat|
                    #![trigger validation::few(
                        (listed(root, limits)[id].value->Object_0)@,
                        "maxItems"@,
                        c,
                    )]
                    validation::few((listed(root, limits)[id].value->Object_0)@, "maxItems"@, c)
                        <==> (array.max_items matches Some(most) ==> c <= most)
            },
            NormalizedSchema::Never => forall|c: nat|
                !(#[trigger] validation::enough(
                    (listed(root, limits)[id].value->Object_0)@,
                    "minItems"@,
                    c,
                ) && validation::few((listed(root, limits)[id].value->Object_0)@, "maxItems"@, c)),
            _ => false,
        },
{
    let list = listed(root, limits);
    let shape = shaped(root, limits)[id];
    let edges = satisfaction::lemma_place(root, limits, arena, id);
    satisfaction::lemma_opened(list[id], list, edges, limits, shape);
    satisfaction::lemma_types_apart();
    let members = (list[id].value->Object_0)@;
    if json::has(members, "allOf"@) {
        let c = lemma_all_of(root, limits, arena, id, 2, Datum::Null);
    }
}

/// The path of the schema of an item, from that of the schema of the array.
pub open spec fn item_path(members: Seq<JsonMember>, path: Seq<Seq<char>>, k: int) -> Seq<Seq<char>> {
    match json::find(members, "prefixItems"@) {
        Some(JsonValue::Array(values)) if k < values@.len() => path.push("prefixItems"@).push(
            text::digits(k as nat),
        ),
        _ => path.push("items"@),
    }
}

/// The schema of an item stands where the normal form says.
pub proof fn lemma_array_item(
    root: JsonValue,
    limits: CompileLimits,
    arena: SchemaArena,
    id: int,
    path: Seq<Seq<char>>,
    k: int,
)
    requires
        satisfaction::normalized(root, limits, arena),
        0 <= id < arena.nodes@.len(),
        arena.nodes@[id].kind is Array,
        listed(root, limits)[id].value is Object,
        location::pointer_of(path) == listed(root, limits)[id].pointer,
        0 <= k,
    ensures
        match meaning::item_schema(arena.nodes@[id].kind->Array_0, k) {
            Some(p) => 0 <= p < arena.nodes@.len() && validation::item_schema(
                (listed(root, limits)[id].value->Object_0)@,
                k,
            ) == Some(listed(root, limits)[p].value) && listed(root, limits)[p].pointer
                == location::pointer_of(
                item_path((listed(root, limits)[id].value->Object_0)@, path, k),
            ),
            None => validation::item_schema((listed(root, limits)[id].value->Object_0)@, k) is None
                && !json::has((listed(root, limits)[id].value->Object_0)@, "items"@),
        },
{
    let list = listed(root, limits);
    let edges = satisfaction::lemma_place(root, limits, arena, id);
    lemma_array(root, limits, arena, id);
    let members = (list[id].value->Object_0)@;
    let array = arena.nodes@[id].kind->Array_0;
    let prefix = shaped(root, limits)[id]->prefix;
    assert(normalize::numbers(array.prefix_items@) == prefix);
    assert(array.prefix_items@.len() == prefix.len());
    if json::has(members, "prefixItems"@) {
        let values = (json::find(members, "prefixItems"@)->0->Array_0)@;
        let below = pointer::joined(list[id].pointer, "prefixItems"@);
        satisfaction::lemma_item_count(places::pointers(list), below, values.len());
        if k < values.len() {
            assert(normalize::numbers(array.prefix_items@)[k] == array.prefix_items@[k].0);
            satisfaction::lemma_branch(root, list, id, members, "prefixItems"@, values, prefix, k);
            satisfaction::lemma_item_positions(places::pointers(list), below, values.len(), k);
            satisfaction::lemma_located(list, pointer::joined(below, text::digits(k as nat)));
            location::lemma_step(path, "prefixItems"@);
            location::lemma_step(path.push("prefixItems"@), text::digits(k as nat));
        }
    }
    if k >= prefix.len() && array.items is Some {
        satisfaction::lemma_located(list, pointer::joined(list[id].pointer, "items"@));
        let p = (array.items->0).0 as int;
        satisfaction::lemma_child(root, list, id, p, "items"@);
        location::lemma_step(path, "items"@);
    }
}

/// Whether a text conforms to the schema at the end of a path.
pub open spec fn conforms_at(
    nodes: Seq<SchemaNode>,
    list: Seq<Place>,
    path: Seq<Seq<char>>,
    w: Seq<u8>,
) -> bool {
    exists|p: int|
        0 <= p < nodes.len() && (#[trigger] list[p]).pointer == location::pointer_of(path)
            && language::conforms(nodes, p, w)
}

/// Whether texts are as many as a schema of arrays asks for, and each conforms to the schema of its
/// item.
pub open spec fn item_texts(
    nodes: Seq<SchemaNode>,
    list: Seq<Place>,
    members: Seq<JsonMember>,
    path: Seq<Seq<char>>,
    parts: Seq<Seq<u8>>,
) -> bool {
    &&& validation::enough(members, "minItems"@, parts.len())
    &&& validation::few(members, "maxItems"@, parts.len())
    &&& forall|k: int|
        0 <= k < parts.len() ==> conforms_at(
            nodes,
            list,
            item_path(members, path, k),
            #[trigger] parts[k],
        )
}

/// Texts, with a comma between each two.
pub open spec fn separated(parts: Seq<Seq<u8>>) -> Seq<u8>
    decreases parts.len(),
{
    if parts.len() == 0 {
        Seq::empty()
    } else if parts.len() == 1 {
        parts[0]
    } else {
        separated(parts.drop_last()) + seq![44u8] + parts.last()
    }
}

/// Texts behind others.
pub proof fn lemma_separated(parts: Seq<Seq<u8>>, k: int)
    requires
        0 <= k <= parts.len(),
    ensures
        separated(parts) == separated(parts.take(k)) + meaning::items_text(parts.skip(k), k),
    decreases parts.len() - k,
{
    let rest = parts.skip(k);
    if k == parts.len() {
        assert(parts.take(k) =~= parts);
        assert(rest.len() == 0);
        assert(meaning::items_text(rest, k) =~= Seq::empty());
        assert(separated(parts) =~= separated(parts) + Seq::empty());
    } else {
        lemma_separated(parts, k + 1);
        let more = parts.take(k + 1);
        assert(more.drop_last() =~= parts.take(k));
        assert(more.last() == parts[k]);
        assert(rest.skip(1) =~= parts.skip(k + 1));
        assert(rest[0] == parts[k]);
        let behind = meaning::items_text(parts.skip(k + 1), k + 1);
        assert(meaning::items_text(rest, k) =~= language::item_head(k) + parts[k] + behind);
        if k == 0 {
            assert(separated(parts.take(0)) =~= Seq::empty());
            assert(separated(more) == parts[0]);
            assert(separated(parts) =~= separated(parts.take(0)) + meaning::items_text(rest, k));
        } else {
            assert(separated(more) == separated(parts.take(k)) + seq![44u8] + parts[k]);
            assert(separated(parts) =~= separated(parts.take(k)) + (language::item_head(k)
                + parts[k] + behind));
        }
    }
}

/// A text conforms to a schema of arrays just where it is a list of texts in brackets, with commas
/// between them: at least as many as the least number of items, at most as many as the largest, each
/// of which conforms to the schema of its item.
pub proof fn law_array_texts(
    root: JsonValue,
    limits: CompileLimits,
    arena: SchemaArena,
    id: int,
    members: Vec<JsonMember>,
    path: Seq<Seq<char>>,
    w: Seq<u8>,
)
    requires
        satisfaction::normalized(root, limits, arena),
        0 <= id < arena.nodes@.len(),
        listed(root, limits)[id].value == JsonValue::Object(members),
        of_arrays(members@),
        location::pointer_of(path) == listed(root, limits)[id].pointer,
    ensures
        language::conforms(arena.nodes@, id, w) <==> exists|parts: Seq<Seq<u8>>| #[trigger]
            item_texts(arena.nodes@, listed(root, limits), members@, path, parts) && w
                == seq![91u8] + separated(parts) + seq![93u8],
{
    let list = listed(root, limits);
    let nodes = arena.nodes@;
    lemma_array(root, limits, arena, id);
    lemma_root(root, limits, arena);
    satisfaction::lemma_texts(nodes, id, w);
    if let NormalizedSchema::Array(array) = nodes[id].kind {
        meaning::law_array_texts(nodes, id, array, w);
        assert forall|parts: Seq<Seq<u8>>|
            #![trigger meaning::items_conform(nodes, array, 0, parts)]
            #![trigger item_texts(nodes, list, members@, path, parts)]
            meaning::items_conform(nodes, array, 0, parts) <==> item_texts(
            nodes,
            list,
            members@,
            path,
            parts,
        ) by {
            assert forall|k: int| 0 <= k < parts.len() implies (meaning::item_conforms(
                nodes,
                array,
                k,
                #[trigger] parts[k],
            ) <==> conforms_at(nodes, list, item_path(members@, path, k), parts[k])) by {
                lemma_item_conforms(root, limits, arena, id, path, k, parts[k]);
            }
            if item_texts(nodes, list, members@, path, parts) {
                assert forall|k: int| 0 <= k < parts.len() implies meaning::item_conforms(
                    nodes,
                    array,
                    0 + k,
                    #[trigger] parts[k],
                ) by {}
            }
            if meaning::items_conform(nodes, array, 0, parts) {
                assert forall|k: int| 0 <= k < parts.len() implies conforms_at(
                    nodes,
                    list,
                    item_path(members@, path, k),
                    #[trigger] parts[k],
                ) by {
                    assert(meaning::item_conforms(nodes, array, 0 + k, parts[k]));
                }
            }
        }
        assert forall|parts: Seq<Seq<u8>>| separated(parts) == #[trigger] meaning::items_text(
            parts,
            0,
        ) by {
            lemma_separated(parts, 0);
            assert(parts.skip(0) =~= parts);
            assert(separated(parts.take(0)) =~= Seq::empty());
            assert(separated(parts) =~= meaning::items_text(parts, 0));
        }
        if language::conforms(nodes, id, w) {
            let parts = choose|parts: Seq<Seq<u8>>| #[trigger]
                meaning::items_conform(nodes, array, 0, parts) && w == language::one(91)
                    + meaning::items_text(parts, 0) + language::one(93);
            assert(item_texts(nodes, list, members@, path, parts));
        }
        if exists|parts: Seq<Seq<u8>>| #[trigger]
            item_texts(nodes, list, members@, path, parts) && w == seq![91u8] + separated(parts)
                + seq![93u8] {
            let parts = choose|parts: Seq<Seq<u8>>| #[trigger]
                item_texts(nodes, list, members@, path, parts) && w == seq![91u8] + separated(parts)
                    + seq![93u8];
            assert(meaning::items_conform(nodes, array, 0, parts));
            assert(w == language::one(91) + meaning::items_text(parts, 0) + language::one(93));
        }
    } else {
        assert forall|parts: Seq<Seq<u8>>| !#[trigger]
            item_texts(nodes, list, members@, path, parts) by {}
    }
}

/// An item conforms just where it conforms to the schema at the end of the path.
pub proof fn lemma_item_conforms(
    root: JsonValue,
    limits: CompileLimits,
    arena: SchemaArena,
    id: int,
    path: Seq<Seq<char>>,
    k: int,
    part: Seq<u8>,
)
    requires
        satisfaction::normalized(root, limits, arena),
        0 <= id < arena.nodes@.len(),
        arena.nodes@[id].kind is Array,
        listed(root, limits)[id].value is Object,
        location::pointer_of(path) == listed(root, limits)[id].pointer,
        0 <= k,
    ensures
        meaning::item_conforms(arena.nodes@, arena.nodes@[id].kind->Array_0, k, part)
            <==> conforms_at(
            arena.nodes@,
            listed(root, limits),
            item_path((listed(root, limits)[id].value->Object_0)@, path, k),
            part,
        ),
{
    let list = listed(root, limits);
    let nodes = arena.nodes@;
    let edges = satisfaction::lemma_place(root, limits, arena, id);
    lemma_array_item(root, limits, arena, id, path, k);
    lemma_root(root, limits, arena);
    let array = nodes[id].kind->Array_0;
    let members = (list[id].value->Object_0)@;
    let inner = item_path(members, path, k);
    if conforms_at(nodes, list, inner, part) {
        let p = choose|p: int|
            0 <= p < nodes.len() && (#[trigger] list[p]).pointer == location::pointer_of(inner)
                && language::conforms(nodes, p, part);
        let pointers = places::pointers(list);
        match meaning::item_schema(array, k) {
            Some(q) => {
                assert(pointers[p] == pointers[q]);
                assert(p == q);
            },
            None => {
                assert(inner == path.push("items"@));
                location::lemma_step(path, "items"@);
                satisfaction::lemma_child(root, list, id, p, "items"@);
            },
        }
    }
    if meaning::item_conforms(nodes, array, k, part) {
        let q = meaning::item_schema(array, k)->0;
        assert(list[q].pointer == location::pointer_of(inner));
    }
}

/// The positions of the schemas of properties, one by one.
pub proof fn lemma_property_positions(
    list: Seq<Seq<char>>,
    below: Seq<char>,
    members: Seq<JsonMember>,
    n: nat,
    k: int,
)
    requires
        n <= members.len(),
        normalize::property_positions(list, below, members, n) is Some,
        0 <= k < n,
    ensures
        (normalize::property_positions(list, below, members, n)->0).len() == n,
        (normalize::property_positions(list, below, members, n)->0)[k].0 == members[k].key@,
        places::located(list, pointer::joined(below, members[k].key@)) == Some(
            (normalize::property_positions(list, below, members, n)->0)[k].1,
        ),
    decreases n,
{
    let m = (n - 1) as nat;
    reveal_with_fuel(normalize::property_positions, 2);
    if m > 0 {
        lemma_property_positions(
            list,
            below,
            members,
            m,
            if k < m {
                k
            } else {
                0
            },
        );
    }
}

/// What the normal form of a schema of objects holds.
pub proof fn lemma_object(root: JsonValue, limits: CompileLimits, arena: SchemaArena, id: int)
    requires
        satisfaction::compiled(root, limits, arena),
        0 <= id < arena.nodes@.len(),
        arena.nodes@[id].kind is Object,
    ensures
        listed(root, limits)[id].value is Object,
        has_type((listed(root, limits)[id].value->Object_0)@),
        forall|d: Datum| #[trigger]
            satisfaction::typed((listed(root, limits)[id].value->Object_0)@, d) <==> d is Object,
        json::find((listed(root, limits)[id].value->Object_0)@, "additionalProperties"@) == Some(
            JsonValue::Bool(false),
        ),
        normalize::object_shape(
            listed(root, limits)[id].pointer,
            (listed(root, limits)[id].value->Object_0)@,
            places::pointers(listed(root, limits)),
        ) == Ok::<Shape, Fault>(shaped(root, limits)[id]),
        normalize::shows(arena.nodes@[id].kind, shaped(root, limits)[id]),
        normalize::container_fault(
            listed(root, limits)[id].pointer,
            (listed(root, limits)[id].value->Object_0)@,
        ) is None,
        json::sorted(listed(root, limits)[id].value),
{
    let list = listed(root, limits);
    let shape = shaped(root, limits)[id];
    let edges = satisfaction::lemma_place(root, limits, arena, id);
    satisfaction::lemma_opened(list[id], list, edges, limits, shape);
    assert(language::unsupported(arena.nodes@, id) is None);
    let members = (list[id].value->Object_0)@;
    if json::has(members, "allOf"@) {
        let c = lemma_all_of(root, limits, arena, id, 2, Datum::Null);
    }
    assert forall|d: Datum| #[trigger] satisfaction::typed(members, d) <==> d is Object by {
        lemma_named(list[id].pointer, members, JsonType::Object, d);
    }
}

/// The schema of a property stands where the normal form says.
pub proof fn lemma_property(
    root: JsonValue,
    limits: CompileLimits,
    arena: SchemaArena,
    id: int,
    object: ObjectConstraints,
    p: int,
)
    requires
        satisfaction::compiled(root, limits, arena),
        0 <= id < arena.nodes@.len(),
        arena.nodes@[id].kind == NormalizedSchema::Object(object),
        0 <= p < object.properties@.len(),
    ensures
        0 <= object.properties@[p].schema.0 < arena.nodes@.len(),
        validation::member_schema(
            (listed(root, limits)[id].value->Object_0)@,
            object.properties@[p].name@,
        ) == Some(listed(root, limits)[object.properties@[p].schema.0 as int].value),
{
    let list = listed(root, limits);
    let edges = satisfaction::lemma_place(root, limits, arena, id);
    lemma_object(root, limits, arena, id);
    let members = (list[id].value->Object_0)@;
    let found = normalize::entries(object.properties@);
    assert(found[p] == (object.properties@[p].name@, object.properties@[p].schema.0 as int));
    match json::find(members, "properties"@) {
        Some(JsonValue::Object(named)) => {
            let below = pointer::joined(list[id].pointer, "properties"@);
            if named@.len() > 0 {
                lemma_property_positions(
                    places::pointers(list),
                    below,
                    named@,
                    named@.len(),
                    if p < named@.len() {
                        p
                    } else {
                        0
                    },
                );
            } else {
                assert(normalize::property_positions(places::pointers(list), below, named@, 0)
                    == Some(Seq::<(Seq<char>, int)>::empty()));
            }
            let key = named@[p].key@;
            satisfaction::lemma_located(list, pointer::joined(below, key));
            satisfaction::lemma_grandchild(root, list, id, found[p].1, "properties"@, key);
            assert(location::below(list[id].value, "properties"@) == Some(
                JsonValue::Object(named),
            ));
            assert(json::find(named@, key) == Some(list[found[p].1].value));
            assert(found[p].0 == key);
        },
        _ => {
            assert(found.len() == 0);
        },
    }
}

/// A name that is no property is forbidden.
pub proof fn lemma_other(
    root: JsonValue,
    limits: CompileLimits,
    arena: SchemaArena,
    id: int,
    object: ObjectConstraints,
    key: Seq<char>,
)
    requires
        satisfaction::compiled(root, limits, arena),
        0 <= id < arena.nodes@.len(),
        arena.nodes@[id].kind == NormalizedSchema::Object(object),
        !language::has_property(object, key),
    ensures
        validation::member_schema((listed(root, limits)[id].value->Object_0)@, key) == Some(
            JsonValue::Bool(false),
        ),
{
    let list = listed(root, limits);
    lemma_object(root, limits, arena, id);
    let members = (list[id].value->Object_0)@;
    if let Some(JsonValue::Object(named)) = json::find(members, "properties"@) {
        if json::has(named@, key) {
            let i = location::lemma_found(named@, key);
            let below = pointer::joined(list[id].pointer, "properties"@);
            lemma_property_positions(places::pointers(list), below, named@, named@.len(), i);
            let found = normalize::entries(object.properties@);
            assert(found[i].0 == object.properties@[i].name@);
            assert(object.properties@[i].name@ == key);
        }
    }
}

/// The required names are those that are listed.
pub proof fn lemma_required_names(at: Seq<char>, values: Seq<JsonValue>, n: nat, name: Seq<char>)
    requires
        n <= values.len(),
        normalize::required_names(at, values, n) is Ok,
    ensures
        (normalize::required_names(at, values, n)->Ok_0).contains(name) <==> exists|r: int|
            0 <= r < n && (#[trigger] values[r] matches JsonValue::String(s) && s@ == name),
        forall|r: int| 0 <= r < n ==> #[trigger] values[r] is String,
    decreases n,
{
    if n > 0 {
        let m = (n - 1) as nat;
        lemma_required_names(at, values, m, name);
        let before = normalize::required_names(at, values, m)->Ok_0;
        let last = (values[n - 1]->String_0)@;
        let after = before.push(last);
        assert(normalize::required_names(at, values, n) == Ok::<Seq<Seq<char>>, Fault>(after));
        if after.contains(name) {
            let i = choose|i: int| 0 <= i < after.len() && after[i] == name;
            if i < before.len() {
                assert(before[i] == name);
                assert(before.contains(name));
            } else {
                assert(values[n - 1] is String);
            }
        }
        if before.contains(name) {
            let i = choose|i: int| 0 <= i < before.len() && before[i] == name;
            assert(after[i] == name);
        }
        assert(after[before.len() as int] == last);
    }
}

/// A name is required by the normal form just where the document lists it.
pub proof fn lemma_required(
    root: JsonValue,
    limits: CompileLimits,
    arena: SchemaArena,
    id: int,
    object: ObjectConstraints,
    name: Seq<char>,
)
    requires
        satisfaction::compiled(root, limits, arena),
        0 <= id < arena.nodes@.len(),
        arena.nodes@[id].kind == NormalizedSchema::Object(object),
    ensures
        match json::find((listed(root, limits)[id].value->Object_0)@, "required"@) {
            None => !language::holds_name(object, name),
            Some(JsonValue::Array(values)) => (language::holds_name(object, name) <==> exists|r: int|
                0 <= r < values@.len() && (#[trigger] values@[r] matches JsonValue::String(s) && s@
                    == name)) && forall|r: int|
                0 <= r < values@.len() ==> #[trigger] values@[r] is String,
            Some(_) => false,
        },
{
    let list = listed(root, limits);
    lemma_object(root, limits, arena, id);
    let members = (list[id].value->Object_0)@;
    let texts = text::texts(object.required@);
    let set = shaped(root, limits)[id]->required;
    assert(texts.to_set() == set);
    if language::holds_name(object, name) {
        let r = choose|r: int|
            0 <= r < object.required@.len() && (#[trigger] object.required@[r])@ == name;
        assert(texts[r] == name);
        assert(texts.contains(name));
    }
    if texts.to_set().contains(name) {
        assert(texts.contains(name));
        let r = choose|r: int| 0 <= r < texts.len() && texts[r] == name;
        assert(object.required@[r]@ == name);
    }
    assert(language::holds_name(object, name) <==> set.contains(name));
    if let Some(JsonValue::Array(values)) = json::find(members, "required"@) {
        lemma_required_names(list[id].pointer, values@, values@.len(), name);
        let names = normalize::required_names(list[id].pointer, values@, values@.len())->Ok_0;
        assert(names.to_set().contains(name) <==> names.contains(name));
    }
}

/// The edges of references are those from a reference to what it refers to, in ascending order.
proof fn lemma_edges(shapes: Seq<Shape>)
    ensures
        forall|e: int|
            0 <= e < normalize::references(shapes).len() ==> {
                let ends = #[trigger] normalize::references(shapes)[e];
                0 <= ends.0 < shapes.len() && shapes[ends.0] == Shape::Ref(ends.1)
            },
        forall|e: int, f: int|
            0 <= e < f < normalize::references(shapes).len() ==> (
            #[trigger] normalize::references(shapes)[e]).0 < (
            #[trigger] normalize::references(shapes)[f]).0,
        forall|i: int|
            0 <= i < shapes.len() && (#[trigger] shapes[i]) is Ref ==> normalize::references(
                shapes,
            ).contains((i, shapes[i]->Ref_0)),
    decreases shapes.len(),
{
    if shapes.len() > 0 {
        let front = shapes.drop_last();
        lemma_edges(front);
        let before = normalize::references(front);
        let all = normalize::references(shapes);
        assert forall|e: int| 0 <= e < all.len() implies {
            let ends = #[trigger] all[e];
            0 <= ends.0 < shapes.len() && shapes[ends.0] == Shape::Ref(ends.1)
        } by {
            if e < before.len() {
                assert(all[e] == before[e]);
                assert(front[before[e].0] == shapes[before[e].0]);
            }
        }
        assert forall|e: int, f: int| 0 <= e < f < all.len() implies (#[trigger] all[e]).0 < (
        #[trigger] all[f]).0 by {
            assert(all[e] == before[e]);
            if f < before.len() {
                assert(all[f] == before[f]);
            }
        }
        assert forall|i: int|
            0 <= i < shapes.len() && (#[trigger] shapes[i]) is Ref implies all.contains(
            (i, shapes[i]->Ref_0),
        ) by {
            if i < front.len() {
                assert(front[i] is Ref);
                let ends = (i, front[i]->Ref_0);
                let e = choose|e: int| 0 <= e < before.len() && before[e] == ends;
                assert(all[e] == ends);
            } else {
                assert(all[before.len() as int] == (i, shapes[i]->Ref_0));
            }
        }
    }
}

/// The edges of an arena are one for each reference, from it to the schema that it refers to, in the
/// order of the schemas.
pub proof fn law_edges_are_references(root: JsonValue, limits: CompileLimits, arena: SchemaArena)
    requires
        satisfaction::normalized(root, limits, arena),
    ensures
        forall|e: int|
            0 <= e < arena.reference_edges@.len() ==> {
                let edge = #[trigger] arena.reference_edges@[e];
                edge.from.0 < arena.nodes@.len() && arena.nodes@[edge.from.0 as int].kind
                    == NormalizedSchema::Ref(edge.to)
            },
        forall|e: int, f: int|
            0 <= e < f < arena.reference_edges@.len() ==> (
            #[trigger] arena.reference_edges@[e]).from.0 < (
            #[trigger] arena.reference_edges@[f]).from.0,
        forall|i: int|
            0 <= i < arena.nodes@.len() && (#[trigger] arena.nodes@[i]).kind is Ref ==> exists|e: int|
                0 <= e < arena.reference_edges@.len() && (
                #[trigger] arena.reference_edges@[e]).from.0 == i,
{
    let shapes = shaped(root, limits);
    let list = listed(root, limits);
    let edges = arena.reference_edges@;
    let ends = normalize::references(shapes);
    lemma_edges(shapes);
    assert forall|e: int| 0 <= e < edges.len() implies {
        let edge = #[trigger] edges[e];
        edge.from.0 < arena.nodes@.len() && arena.nodes@[edge.from.0 as int].kind
            == NormalizedSchema::Ref(edge.to)
    } by {
        assert(normalize::edge_shows(edges[e], ends[e], list));
        let i = ends[e].0;
        assert(normalize::node_shows(arena.nodes@[i], i, list[i], shapes[i]));
    }
    assert forall|e: int, f: int| 0 <= e < f < edges.len() implies (#[trigger] edges[e]).from.0 < (
    #[trigger] edges[f]).from.0 by {
        assert(normalize::edge_shows(edges[e], ends[e], list));
        assert(normalize::edge_shows(edges[f], ends[f], list));
    }
    assert forall|i: int|
        0 <= i < arena.nodes@.len() && (#[trigger] arena.nodes@[i]).kind is Ref implies exists|e: int|
        0 <= e < edges.len() && (#[trigger] edges[e]).from.0 == i by {
        assert(normalize::node_shows(arena.nodes@[i], i, list[i], shapes[i]));
        assert(shapes[i] is Ref);
        let pair = (i, shapes[i]->Ref_0);
        let e = choose|e: int| 0 <= e < ends.len() && ends[e] == pair;
        assert(normalize::edge_shows(edges[e], ends[e], list));
    }
}

} // verus!
