//! Why the texts of a compiled schema are those of the values that satisfy the document.

use vstd::prelude::*;
use vstd::utf8;

use crate::engine;
use crate::fault::Fault;
use crate::json;
use crate::json::{JsonMember, JsonValue};
use crate::language;
use crate::language::Role;
use crate::lexical;
use crate::location;
use crate::normalize;
use crate::normalize::Shape;
use crate::order;
use crate::places;
use crate::places::Place;
use crate::pointer;
use crate::schema::{CompileLimits, JsonType, NormalizedSchema, SchemaArena, SchemaNode};
use crate::text;
use crate::validation;
use crate::validation::{Datum, Entry};

verus! {

/// The items of an array, one by one.
pub proof fn lemma_data(value: JsonValue, n: nat)
    requires
        value matches JsonValue::Array(values) && n <= values@.len(),
    ensures
        validation::data_of(value, n).len() == n,
        forall|i: int|
            0 <= i < n ==> #[trigger] validation::data_of(value, n)[i] == validation::datum_of(
                (value->Array_0)@[i],
            ),
    decreases n,
{
    if n > 0 {
        lemma_data(value, (n - 1) as nat);
    }
}

/// The members of an object, one by one.
pub proof fn lemma_entries(value: JsonValue, n: nat)
    requires
        value matches JsonValue::Object(members) && n <= members@.len(),
    ensures
        validation::entries_of(value, n).len() == n,
        forall|i: int|
            0 <= i < n ==> #[trigger] validation::entries_of(value, n)[i] == (Entry {
                key: (value->Object_0)@[i].key@,
                value: validation::datum_of((value->Object_0)@[i].value),
            }),
    decreases n,
{
    if n > 0 {
        lemma_entries(value, (n - 1) as nat);
    }
}

/// A comma, encoded.
pub proof fn lemma_marks()
    ensures
        utf8::encode_utf8(","@) == seq![44u8],
        utf8::encode_utf8(":"@) == seq![58u8],
        utf8::encode_utf8("["@) == seq![91u8],
        utf8::encode_utf8("]"@) == seq![93u8],
        utf8::encode_utf8("{"@) == seq![123u8],
        utf8::encode_utf8("}"@) == seq![125u8],
        utf8::encode_utf8(Seq::<char>::empty()) == Seq::<u8>::empty(),
{
    reveal_strlit(",");
    reveal_strlit(":");
    reveal_strlit("[");
    reveal_strlit("]");
    reveal_strlit("{");
    reveal_strlit("}");
    assert(","@ =~= seq![',']);
    assert(":"@ =~= seq![':']);
    assert("["@ =~= seq!['[']);
    assert("]"@ =~= seq![']']);
    assert("{"@ =~= seq!['{']);
    assert("}"@ =~= seq!['}']);
    lexical::lemma_ascii(',');
    lexical::lemma_ascii(':');
    lexical::lemma_ascii('[');
    lexical::lemma_ascii(']');
    lexical::lemma_ascii('{');
    lexical::lemma_ascii('}');
}

/// The canonical text of a value of a document is that of the value.
pub proof fn law_canonical_text(value: JsonValue)
    ensures
        utf8::encode_utf8(json::canonical(value)) == validation::written(
            validation::datum_of(value),
        ),
    decreases value, 1nat, 0nat,
{
    lemma_marks();
    let d = validation::datum_of(value);
    match value {
        JsonValue::Array(values) => {
            let n = values@.len();
            lemma_canonical_items(value, n);
            lemma_data(value, n);
            let inner = json::items_text(value, n);
            lexical::lemma_encode_join("["@ + inner, "]"@);
            lexical::lemma_encode_join("["@, inner);
            assert(validation::items_from(d, n) =~= Seq::empty());
            assert(utf8::encode_utf8(inner) =~= validation::items_from(d, 0));
        },
        JsonValue::Object(members) => {
            let n = members@.len();
            lemma_canonical_members(value, n);
            lemma_entries(value, n);
            let inner = json::members_text(value, n);
            lexical::lemma_encode_join("{"@ + inner, "}"@);
            lexical::lemma_encode_join("{"@, inner);
            assert(validation::entries_from(d, n) =~= Seq::empty());
            assert(utf8::encode_utf8(inner) =~= validation::entries_from(d, 0));
        },
        _ => {},
    }
}

pub proof fn lemma_canonical_items(value: JsonValue, n: nat)
    requires
        value matches JsonValue::Array(values) && n <= values@.len(),
    ensures
        utf8::encode_utf8(json::items_text(value, n)) + validation::items_from(
            validation::datum_of(value),
            n,
        ) == validation::items_from(validation::datum_of(value), 0),
    decreases value, 0nat, n,
{
    lemma_marks();
    let d = validation::datum_of(value);
    let values = (value->Array_0)@;
    lemma_data(value, values.len());
    if n == 0 {
        assert(json::items_text(value, 0) =~= Seq::empty());
        assert(utf8::encode_utf8(json::items_text(value, 0)) + validation::items_from(d, 0)
            =~= validation::items_from(d, 0));
    } else {
        let m = (n - 1) as nat;
        lemma_canonical_items(value, m);
        let front = json::items_text(value, m);
        let item = json::canonical(values[n - 1]);
        law_canonical_text(values[n - 1]);
        let mark = if n == 1 {
            Seq::<char>::empty()
        } else {
            ","@
        };
        assert(json::items_text(value, n) == front + mark + item);
        lexical::lemma_encode_join(front + mark, item);
        lexical::lemma_encode_join(front, mark);
        assert(utf8::encode_utf8(mark) == validation::comma(m));
        let rest = validation::items_from(d, n);
        assert(validation::items_from(d, m) == validation::comma(m) + utf8::encode_utf8(item)
            + rest);
        assert(utf8::encode_utf8(front) + validation::comma(m) + utf8::encode_utf8(item) + rest
            =~= utf8::encode_utf8(front) + (validation::comma(m) + utf8::encode_utf8(item) + rest));
    }
}

pub proof fn lemma_canonical_members(value: JsonValue, n: nat)
    requires
        value matches JsonValue::Object(members) && n <= members@.len(),
    ensures
        utf8::encode_utf8(json::members_text(value, n)) + validation::entries_from(
            validation::datum_of(value),
            n,
        ) == validation::entries_from(validation::datum_of(value), 0),
    decreases value, 0nat, n,
{
    lemma_marks();
    let d = validation::datum_of(value);
    let members = (value->Object_0)@;
    lemma_entries(value, members.len());
    if n == 0 {
        assert(json::members_text(value, 0) =~= Seq::empty());
        assert(utf8::encode_utf8(json::members_text(value, 0)) + validation::entries_from(d, 0)
            =~= validation::entries_from(d, 0));
    } else {
        let m = (n - 1) as nat;
        lemma_canonical_members(value, m);
        let front = json::members_text(value, m);
        let key = text::json_text(members[n - 1].key@);
        let item = json::canonical(members[n - 1].value);
        law_canonical_text(members[n - 1].value);
        let mark = if n == 1 {
            Seq::<char>::empty()
        } else {
            ","@
        };
        assert(json::members_text(value, n) == front + mark + key + ":"@ + item);
        lexical::lemma_encode_join(front + mark + key + ":"@, item);
        lexical::lemma_encode_join(front + mark + key, ":"@);
        lexical::lemma_encode_join(front + mark, key);
        lexical::lemma_encode_join(front, mark);
        assert(utf8::encode_utf8(mark) == validation::comma(m));
        let rest = validation::entries_from(d, n);
        let name = utf8::encode_utf8(key);
        let body = utf8::encode_utf8(item);
        assert(validation::entries_from(d, m) == validation::comma(m) + name + seq![58u8] + body
            + rest);
        assert(utf8::encode_utf8(front) + validation::comma(m) + name + seq![58u8] + body + rest
            =~= utf8::encode_utf8(front) + (validation::comma(m) + name + seq![58u8] + body
            + rest));
    }
}

/// The value of a sorted document has its members in order.
pub proof fn lemma_datum_ordered(value: JsonValue)
    requires
        json::sorted(value),
    ensures
        validation::ordered(validation::datum_of(value)),
    decreases value,
{
    match value {
        JsonValue::Array(values) => {
            lemma_data(value, values@.len());
            assert forall|i: int| 0 <= i < values@.len() implies validation::ordered(
                #[trigger] validation::data_of(value, values@.len())[i],
            ) by {
                lemma_datum_ordered(values@[i]);
            }
        },
        JsonValue::Object(members) => {
            let entries = validation::entries_of(value, members@.len());
            lemma_entries(value, members@.len());
            assert forall|i: int| 0 <= i < entries.len() implies validation::ordered(
                (#[trigger] entries[i]).value,
            ) by {
                lemma_datum_ordered(members@[i].value);
            }
            let keys = json::keys(members@);
            assert forall|i: int, j: int| 0 <= i < j < entries.len() implies text::text_before(
                (#[trigger] entries[i]).key,
                (#[trigger] entries[j]).key,
            ) by {
                assert(keys[i] == entries[i].key && keys[j] == entries[j].key);
            }
        },
        _ => {},
    }
}

/// More nested schemas admit no less.
pub proof fn lemma_more(root: JsonValue, n: nat, m: nat, schema: JsonValue, d: Datum)
    requires
        validation::satisfies(root, n, schema, d),
        n <= m,
    ensures
        validation::satisfies(root, m, schema, d),
    decreases n,
{
    if let JsonValue::Object(members) = schema {
        let p = (n - 1) as nat;
        let q = (m - 1) as nat;
        if let Datum::Array(items) = d {
            assert forall|k: int| 0 <= k < items.len() implies match validation::item_schema(
                members@,
                k,
            ) {
                Some(inner) => validation::satisfies(root, q, inner, #[trigger] items[k]),
                None => true,
            } by {
                if let Some(inner) = validation::item_schema(members@, k) {
                    lemma_more(root, p, q, inner, items[k]);
                }
            }
        }
        if let Datum::Object(entries) = d {
            assert forall|k: int| 0 <= k < entries.len() implies match validation::member_schema(
                members@,
                (#[trigger] entries[k]).key,
            ) {
                Some(inner) => validation::satisfies(root, q, inner, entries[k].value),
                None => true,
            } by {
                if let Some(inner) = validation::member_schema(members@, entries[k].key) {
                    lemma_more(root, p, q, inner, entries[k].value);
                }
            }
        }
        if let Some(JsonValue::Array(branches)) = json::find(members@, "anyOf"@) {
            let b = choose|b: int|
                0 <= b < branches@.len() && validation::satisfies(
                    root,
                    p,
                    #[trigger] branches@[b],
                    d,
                );
            lemma_more(root, p, q, branches@[b], d);
        }
        if let Some(JsonValue::Array(branches)) = json::find(members@, "allOf"@) {
            assert forall|b: int| 0 <= b < branches@.len() implies validation::satisfies(
                root,
                q,
                #[trigger] branches@[b],
                d,
            ) by {
                lemma_more(root, p, q, branches@[b], d);
            }
        }
        if let Some(JsonValue::String(reference)) = json::find(members@, "$ref"@) {
            let target = choose|target: JsonValue|
                #[trigger] location::names(root, reference@, target) && validation::satisfies(
                    root,
                    p,
                    target,
                    d,
                );
            lemma_more(root, p, q, target, d);
        }
    }
}

/// A value of a document is of a type just where the value is.
pub proof fn lemma_type(value: JsonValue, name: Seq<char>, kind: JsonType)
    requires
        validation::numbers_read(value),
        normalize::named_type(name) == Some(kind),
    ensures
        normalize::of_type(value, kind) <==> validation::is_of(validation::datum_of(value), name),
{
    lemma_types_apart();
}

/// The names of the types differ.
pub proof fn lemma_types_apart()
    ensures
        "null"@ != "boolean"@,
        "null"@ != "string"@,
        "null"@ != "number"@,
        "null"@ != "integer"@,
        "null"@ != "array"@,
        "null"@ != "object"@,
        "boolean"@ != "string"@,
        "boolean"@ != "number"@,
        "boolean"@ != "integer"@,
        "boolean"@ != "array"@,
        "boolean"@ != "object"@,
        "string"@ != "number"@,
        "string"@ != "integer"@,
        "string"@ != "array"@,
        "string"@ != "object"@,
        "number"@ != "integer"@,
        "number"@ != "array"@,
        "number"@ != "object"@,
        "integer"@ != "array"@,
        "integer"@ != "object"@,
        "array"@ != "object"@,
{
    reveal_strlit("null");
    reveal_strlit("boolean");
    reveal_strlit("string");
    reveal_strlit("number");
    reveal_strlit("integer");
    reveal_strlit("array");
    reveal_strlit("object");
    assert("null"@.len() == 4 && "number"@.len() == 6 && "array"@.len() == 5);
    assert("boolean"@[0] == 'b' && "integer"@[0] == 'i');
    assert("string"@[0] == 's' && "number"@[0] == 'n' && "object"@[0] == 'o');
}

/// Whether an arena holds the schemas of a document.
pub open spec fn normalized(root: JsonValue, limits: CompileLimits, arena: SchemaArena) -> bool {
    &&& json::sorted(root)
    &&& validation::numbers_read(root)
    &&& engine::normalizes(root, limits, arena)
}

/// Whether an arena holds the schemas of a document, and a grammar can be had of each.
pub open spec fn compiled(root: JsonValue, limits: CompileLimits, arena: SchemaArena) -> bool {
    &&& normalized(root, limits, arena)
    &&& engine::all_supported(&arena)
}

/// The places of the schemas of a document.
pub open spec fn listed(root: JsonValue, limits: CompileLimits) -> Seq<Place> {
    (normalize::normal_form(root, limits)->Ok_0).0
}

/// The normal forms of the schemas of a document.
pub open spec fn shaped(root: JsonValue, limits: CompileLimits) -> Seq<Shape> {
    (normalize::normal_form(root, limits)->Ok_0).1
}

/// What is sorted, and read as written, is so one step below.
pub proof fn lemma_below_keeps(value: JsonValue, step: Seq<char>)
    requires
        json::sorted(value),
        validation::numbers_read(value),
        location::below(value, step) is Some,
    ensures
        json::sorted(location::below(value, step)->0),
        validation::numbers_read(location::below(value, step)->0),
{
    if let JsonValue::Object(members) = value {
        let i = location::lemma_found(members@, step);
        assert(json::sorted(members@[i].value));
        assert(validation::numbers_read(members@[i].value));
    }
}

/// What is sorted, and read as written, is so wherever a path leads.
pub proof fn lemma_at_keeps(root: JsonValue, path: Seq<Seq<char>>)
    requires
        json::sorted(root),
        validation::numbers_read(root),
        location::at(root, path) is Some,
    ensures
        json::sorted(location::at(root, path)->0),
        validation::numbers_read(location::at(root, path)->0),
    decreases path.len(),
{
    if path.len() > 0 {
        lemma_at_keeps(root, path.drop_last());
        lemma_below_keeps(location::at(root, path.drop_last())->0, path.last());
    }
}

/// What is known of a place and its normal form.
pub proof fn lemma_place(root: JsonValue, limits: CompileLimits, arena: SchemaArena, id: int) -> (edges:
    nat)
    requires
        normalized(root, limits, arena),
        0 <= id < arena.nodes@.len(),
    ensures
        listed(root, limits).len() == arena.nodes@.len(),
        location::all_placed(root, listed(root, limits)),
        json::sorted(listed(root, limits)[id].value),
        validation::numbers_read(listed(root, limits)[id].value),
        normalize::node_shape(listed(root, limits)[id], listed(root, limits), edges, limits)
            == Ok::<Shape, Fault>(shaped(root, limits)[id]),
        normalize::shows(arena.nodes@[id].kind, shaped(root, limits)[id]),
{
    let list = listed(root, limits);
    location::lemma_places(root, limits.max_schema_nodes as nat);
    let edges = order::lemma_shape_at(list, list.len(), limits, id);
    assert(location::placed(root, list[id]));
    let path = choose|path: Seq<Seq<char>>| #[trigger] location::stands(root, list[id], path);
    lemma_at_keeps(root, path);
    assert(normalize::node_shows(arena.nodes@[id], id, list[id], shaped(root, limits)[id]));
    edges
}

/// A pointer that was found is that of the place.
pub proof fn lemma_located(list: Seq<Place>, pointer: Seq<char>)
    requires
        places::located(places::pointers(list), pointer) is Some,
    ensures
        0 <= places::located(places::pointers(list), pointer)->0 < list.len(),
        list[places::located(places::pointers(list), pointer)->0].pointer == pointer,
{
    let pointers = places::pointers(list);
    assert(pointers.contains(pointer));
    let i = choose|i: int| 0 <= i < pointers.len() && pointers[i] == pointer;
    assert(pointers[i] == list[i].pointer);
}

/// The place one step below a place holds what is there.
pub proof fn lemma_child(root: JsonValue, list: Seq<Place>, id: int, p: int, step: Seq<char>)
    requires
        location::all_placed(root, list),
        0 <= id < list.len(),
        0 <= p < list.len(),
        list[p].pointer == pointer::joined(list[id].pointer, step),
    ensures
        location::below(list[id].value, step) == Some(list[p].value),
{
    assert(location::placed(root, list[id]));
    assert(location::placed(root, list[p]));
    let path = choose|path: Seq<Seq<char>>| #[trigger] location::stands(root, list[id], path);
    location::lemma_step(path, step);
    location::lemma_value_at(root, list[p], path.push(step));
    location::lemma_below(root, path, step);
}

/// The place two steps below a place holds what is there.
pub proof fn lemma_grandchild(
    root: JsonValue,
    list: Seq<Place>,
    id: int,
    p: int,
    keyword: Seq<char>,
    step: Seq<char>,
)
    requires
        location::all_placed(root, list),
        0 <= id < list.len(),
        0 <= p < list.len(),
        location::below(list[id].value, keyword) is Some,
        list[p].pointer == pointer::joined(pointer::joined(list[id].pointer, keyword), step),
    ensures
        location::below(location::below(list[id].value, keyword)->0, step) == Some(list[p].value),
{
    assert(location::placed(root, list[id]));
    assert(location::placed(root, list[p]));
    let path = choose|path: Seq<Seq<char>>| #[trigger] location::stands(root, list[id], path);
    location::lemma_step(path, keyword);
    location::lemma_below(root, path, keyword);
    let longer = path.push(keyword);
    location::lemma_step(longer, step);
    location::lemma_value_at(root, list[p], longer.push(step));
    location::lemma_below(root, longer, step);
}

/// The positions of the schemas of an array, one by one.
pub proof fn lemma_item_positions(list: Seq<Seq<char>>, below: Seq<char>, n: nat, k: int)
    requires
        normalize::item_positions(list, below, n) is Some,
        0 <= k < n,
    ensures
        (normalize::item_positions(list, below, n)->0).len() == n,
        places::located(list, pointer::joined(below, text::digits(k as nat))) == Some(
            (normalize::item_positions(list, below, n)->0)[k],
        ),
    decreases n,
{
    let m = (n - 1) as nat;
    reveal_with_fuel(normalize::item_positions, 2);
    if m > 0 {
        lemma_item_positions(list, below, m, if k < m {
            k
        } else {
            0
        });
    }
}

/// How many positions there are.
pub proof fn lemma_item_count(list: Seq<Seq<char>>, below: Seq<char>, n: nat)
    requires
        normalize::item_positions(list, below, n) is Some,
    ensures
        (normalize::item_positions(list, below, n)->0).len() == n,
{
    if n > 0 {
        lemma_item_positions(list, below, n, 0);
    }
}

/// The schemas in the array of a keyword stand at the positions.
pub proof fn lemma_branch(
    root: JsonValue,
    list: Seq<Place>,
    id: int,
    members: Seq<JsonMember>,
    keyword: Seq<char>,
    values: Seq<JsonValue>,
    ids: Seq<int>,
    b: int,
)
    requires
        location::all_placed(root, list),
        0 <= id < list.len(),
        list[id].value matches JsonValue::Object(found) && found@ == members,
        json::find(members, keyword) matches Some(JsonValue::Array(found)) && found@ == values,
        normalize::item_positions(
            places::pointers(list),
            pointer::joined(list[id].pointer, keyword),
            values.len(),
        ) == Some(ids),
        0 <= b < values.len(),
    ensures
        ids.len() == values.len(),
        0 <= ids[b] < list.len(),
        list[ids[b]].value == values[b],
{
    let below = pointer::joined(list[id].pointer, keyword);
    lemma_item_positions(places::pointers(list), below, values.len(), b);
    lemma_located(list, pointer::joined(below, text::digits(b as nat)));
    lemma_grandchild(root, list, id, ids[b], keyword, text::digits(b as nat));
    location::lemma_item_below(location::below(list[id].value, keyword)->0, b);
}

/// The texts of a schema, by its kind, where it is no array and no object.
pub proof fn lemma_texts(nodes: Seq<SchemaNode>, id: int, w: Seq<u8>)
    requires
        0 <= id < nodes.len(),
    ensures
        match nodes[id].kind {
            NormalizedSchema::Any => !language::conforms(nodes, id, w),
            NormalizedSchema::Never => !language::conforms(nodes, id, w),
            NormalizedSchema::Null => language::conforms(nodes, id, w) == lexical::null(w),
            NormalizedSchema::Boolean => language::conforms(nodes, id, w) == lexical::boolean(w),
            NormalizedSchema::String(_) => language::conforms(nodes, id, w) == lexical::string(w),
            NormalizedSchema::Number => language::conforms(nodes, id, w) == lexical::number(w),
            NormalizedSchema::Integer => language::conforms(nodes, id, w) == lexical::integer(w),
            NormalizedSchema::Const(value) => language::conforms(nodes, id, w) == (w
                == utf8::encode_utf8(value.json@)),
            NormalizedSchema::Enum(values) => language::conforms(nodes, id, w) == exists|v: int|
                0 <= v < values@.len() && w == utf8::encode_utf8((#[trigger] values@[v]).json@),
            _ => true,
        },
{
    lexical::law_scalar_patterns(w);
    assert(w.subrange(0, w.len() as int) =~= w);
    let role = Role::Schema(id);
    if language::conforms(nodes, id, w) {
        let n = choose|n: nat| #[trigger]
            language::speaks(nodes, n, role, w, 0, w.len() as int);
        assert(language::speaks(nodes, n, role, w, 0, w.len() as int));
    } else {
        assert(!language::speaks(nodes, 1, role, w, 0, w.len() as int));
    }
}

/// A text conforms to a union just where it conforms to a branch.
pub proof fn lemma_union_texts(nodes: Seq<SchemaNode>, id: int, b: int, w: Seq<u8>)
    requires
        0 <= id < nodes.len(),
        nodes[id].kind matches NormalizedSchema::Union(branches) && 0 <= b < branches@.len()
            && language::conforms(nodes, branches@[b].0 as int, w),
    ensures
        language::conforms(nodes, id, w),
{
    let branches = nodes[id].kind->Union_0;
    let inner = Role::Schema(branches@[b].0 as int);
    let n = choose|n: nat| #[trigger] language::speaks(nodes, n, inner, w, 0, w.len() as int);
    assert(language::speaks(nodes, n, inner, w, 0, w.len() as int));
    assert(language::speaks(nodes, n + 1, Role::Schema(id), w, 0, w.len() as int));
}

/// A text conforms to a reference just where it conforms to what is referred to.
pub proof fn lemma_ref_texts(nodes: Seq<SchemaNode>, id: int, w: Seq<u8>)
    requires
        0 <= id < nodes.len(),
        nodes[id].kind is Ref,
    ensures
        language::conforms(nodes, id, w) <==> language::conforms(
            nodes,
            nodes[id].kind->Ref_0.0 as int,
            w,
        ),
{
    let inner = Role::Schema(nodes[id].kind->Ref_0.0 as int);
    if language::conforms(nodes, id, w) {
        let n = choose|n: nat| #[trigger]
            language::speaks(nodes, n, Role::Schema(id), w, 0, w.len() as int);
        assert(language::speaks(nodes, n, Role::Schema(id), w, 0, w.len() as int));
        assert(language::speaks(nodes, (n - 1) as nat, inner, w, 0, w.len() as int));
    }
    if language::conforms(nodes, nodes[id].kind->Ref_0.0 as int, w) {
        let n = choose|n: nat| #[trigger] language::speaks(nodes, n, inner, w, 0, w.len() as int);
        assert(language::speaks(nodes, n, inner, w, 0, w.len() as int));
        assert(language::speaks(nodes, n + 1, Role::Schema(id), w, 0, w.len() as int));
    }
}

/// Whether the keywords of a schema ask no more than a type, a constant or an enumeration.
pub open spec fn bare(members: Seq<JsonMember>) -> bool {
    &&& !normalize::structural_keywords(members)
    &&& !json::has(members, "allOf"@)
    &&& !json::has(members, "anyOf"@)
    &&& !json::has(members, "$ref"@)
}

/// Whether it is stated what each keyword of a schema asks.
pub open spec fn all_stated(members: Seq<JsonMember>) -> bool {
    forall|i: int| 0 <= i < members.len() ==> validation::stated((#[trigger] members[i]).key@)
}

/// What such a schema asks.
pub proof fn lemma_bare(root: JsonValue, n: nat, schema: JsonValue, d: Datum)
    requires
        n > 0,
        schema matches JsonValue::Object(members) && bare(members@) && all_stated(members@),
    ensures
        validation::satisfies(root, n, schema, d) <==> validation::admits_value(
            (schema->Object_0)@,
            d,
        ),
{
}

/// A keyword that stands among others is one that is supported.
pub proof fn lemma_supported(at: Seq<char>, members: Seq<JsonMember>, i: int)
    requires
        normalize::keyword_fault(at, members) is None,
        0 <= i < members.len(),
    ensures
        normalize::spec_supported(members[i].key@),
    decreases members.len(),
{
    if i > 0 {
        lemma_supported(at, members.skip(1), i - 1);
        assert(members.skip(1)[i - 1] == members[i]);
    }
}

/// What a schema with a normal form looks like.
pub proof fn lemma_opened(place: Place, list: Seq<Place>, edges: nat, limits: CompileLimits, shape: Shape)
    requires
        normalize::node_shape(place, list, edges, limits) == Ok::<Shape, Fault>(shape),
        json::sorted(place.value),
    ensures
        match place.value {
            JsonValue::Bool(all) => if all {
                shape is Any
            } else {
                shape is Never
            },
            JsonValue::Object(members) => all_stated(members@) && !json::has(members@, "oneOf"@)
                && normalize::keyword_shape(place.pointer, members@, list, edges, limits) == Ok::<
                Shape,
                Fault,
            >(shape),
            _ => false,
        },
{
    if let JsonValue::Object(members) = place.value {
        assert(!json::has(members@, "oneOf"@));
        assert forall|i: int| 0 <= i < members@.len() implies validation::stated(
            (#[trigger] members@[i]).key@,
        ) by {
            lemma_supported(place.pointer, members@, i);
            location::lemma_find_at(members@, i);
        }
    }
}

/// A text that is canonical for a value of the document is that of the value.
pub proof fn lemma_form(value: JsonValue, w: Seq<u8>)
    requires
        json::sorted(value),
    ensures
        w == utf8::encode_utf8(json::canonical(value)) <==> w == validation::written(
            validation::datum_of(value),
        ),
        validation::ordered(validation::datum_of(value)),
{
    law_canonical_text(value);
    lemma_datum_ordered(value);
}

/// Whether a declared type admits a value.
pub open spec fn typed(members: Seq<JsonMember>, d: Datum) -> bool {
    match json::find(members, "type"@) {
        None => true,
        Some(JsonValue::String(name)) => validation::is_of(d, name@),
        Some(_) => false,
    }
}

/// A value of the document is of the declared type just where the value is.
pub proof fn lemma_typed(at: Seq<char>, members: Seq<JsonMember>, value: JsonValue)
    requires
        normalize::declared_type(at, members) is Ok,
        validation::numbers_read(value),
    ensures
        normalize::of_optional_type(value, normalize::declared_type(at, members)->Ok_0) <==> typed(
            members,
            validation::datum_of(value),
        ),
{
    if let Some(JsonValue::String(name)) = json::find(members, "type"@) {
        lemma_type(value, name@, (normalize::declared_type(at, members)->Ok_0)->0);
    }
}

/// The forms of an enumeration are those of the listed values of the type.
pub proof fn lemma_forms(values: Seq<JsonValue>, kind: Option<JsonType>, n: nat, form: Seq<char>)
    requires
        n <= values.len(),
    ensures
        normalize::enum_forms(values, kind, n).contains(form) <==> exists|v: int|
            0 <= v < n && normalize::of_optional_type(#[trigger] values[v], kind)
                && json::canonical(values[v]) == form,
    decreases n,
{
    if n > 0 {
        lemma_forms(values, kind, (n - 1) as nat, form);
        let last = values[n - 1];
        if normalize::enum_forms(values, kind, n).contains(form) && !normalize::enum_forms(
            values,
            kind,
            (n - 1) as nat,
        ).contains(form) {
            assert(normalize::of_optional_type(values[n - 1], kind));
        }
    }
}

/// Whether a schema lists its values: it has a constant or an enumeration.
pub open spec fn lists_values(schema: JsonValue) -> bool {
    schema matches JsonValue::Object(members) && !json::has(members@, "allOf"@) && !json::has(
        members@,
        "anyOf"@,
    ) && !json::has(members@, "$ref"@) && (json::has(members@, "const"@) || json::has(
        members@,
        "enum"@,
    ))
}

/// Whether a value of the document is one that a schema lists, of its type.
pub open spec fn lists(schema: JsonValue, value: JsonValue) -> bool {
    &&& schema is Object
    &&& typed((schema->Object_0)@, validation::datum_of(value))
    &&& match json::find((schema->Object_0)@, "const"@) {
        Some(constant) => value == constant,
        None => match json::find((schema->Object_0)@, "enum"@) {
            Some(JsonValue::Array(values)) => exists|v: int|
                0 <= v < values@.len() && #[trigger] values@[v] == value,
            _ => false,
        },
    }
}

/// What is listed is sorted and read as written.
pub proof fn lemma_listed_keeps(schema: JsonValue, value: JsonValue)
    requires
        json::sorted(schema),
        validation::numbers_read(schema),
        lists(schema, value),
    ensures
        json::sorted(value),
        validation::numbers_read(value),
{
    let members = (schema->Object_0)@;
    if json::has(members, "const"@) {
        lemma_below_keeps(schema, "const"@);
    } else {
        lemma_below_keeps(schema, "enum"@);
    }
}

/// What satisfies such a schema.
pub proof fn lemma_lists(root: JsonValue, limits: CompileLimits, arena: SchemaArena, id: int)
    requires
        normalized(root, limits, arena),
        0 <= id < arena.nodes@.len(),
        lists_values(listed(root, limits)[id].value),
    ensures
        bare((listed(root, limits)[id].value->Object_0)@),
        all_stated((listed(root, limits)[id].value->Object_0)@),
        json::has((listed(root, limits)[id].value->Object_0)@, "const"@) ==> !json::has(
            (listed(root, limits)[id].value->Object_0)@,
            "enum"@,
        ),
{
    let edges = lemma_place(root, limits, arena, id);
    let list = listed(root, limits);
    lemma_opened(list[id], list, edges, limits, shaped(root, limits)[id]);
}

/// A text conforms to a schema that lists its values just where it is the canonical text of a
/// listed value of the declared type, if one is declared.
pub proof fn law_listed_texts(
    root: JsonValue,
    limits: CompileLimits,
    arena: SchemaArena,
    id: int,
    w: Seq<u8>,
)
    requires
        normalized(root, limits, arena),
        0 <= id < arena.nodes@.len(),
        lists_values(listed(root, limits)[id].value),
    ensures
        language::conforms(arena.nodes@, id, w) <==> exists|value: JsonValue| #[trigger]
            lists(listed(root, limits)[id].value, value) && w == validation::written(
                validation::datum_of(value),
            ),
{
    let edges = lemma_place(root, limits, arena, id);
    let list = listed(root, limits);
    let shape = shaped(root, limits)[id];
    let place = list[id];
    let schema = place.value;
    let nodes = arena.nodes@;
    lemma_opened(place, list, edges, limits, shape);
    lemma_texts(nodes, id, w);
    let members = (schema->Object_0)@;
    let kind = normalize::declared_type(place.pointer, members)->Ok_0;
    if json::has(members, "const"@) {
        let constant = json::find(members, "const"@)->0;
        lemma_below_keeps(schema, "const"@);
        lemma_typed(place.pointer, members, constant);
        lemma_form(constant, w);
        assert(lists(schema, constant) <==> normalize::of_optional_type(constant, kind));
        assert(forall|value: JsonValue| #[trigger] lists(schema, value) ==> value == constant);
    } else {
        let values = (json::find(members, "enum"@)->0->Array_0)@;
        lemma_below_keeps(schema, "enum"@);
        let forms = normalize::enum_forms(values, kind, values.len());
        if language::conforms(nodes, id, w) {
            let kept = nodes[id].kind->Enum_0;
            let v = choose|v: int|
                0 <= v < kept@.len() && w == utf8::encode_utf8((#[trigger] kept@[v]).json@);
            let all = normalize::forms(kept@);
            assert(all[v] == kept@[v].json@);
            assert(all.contains(kept@[v].json@));
            assert(all.to_set().contains(kept@[v].json@));
            lemma_forms(values, kind, values.len(), kept@[v].json@);
            let u = choose|u: int|
                0 <= u < values.len() && normalize::of_optional_type(#[trigger] values[u], kind)
                    && json::canonical(values[u]) == kept@[v].json@;
            lemma_typed(place.pointer, members, values[u]);
            lemma_form(values[u], w);
            assert(lists(schema, values[u]));
        }
        if exists|value: JsonValue| #[trigger]
            lists(schema, value) && w == validation::written(validation::datum_of(value)) {
            let value = choose|value: JsonValue| #[trigger]
                lists(schema, value) && w == validation::written(validation::datum_of(value));
            let u = choose|u: int| 0 <= u < values.len() && #[trigger] values[u] == value;
            assert(validation::numbers_read(values[u]));
            lemma_typed(place.pointer, members, values[u]);
            lemma_form(values[u], w);
            let form = json::canonical(values[u]);
            lemma_forms(values, kind, values.len(), form);
            assert(forms.contains(form));
            assert(shape == Shape::Enum(forms));
            let kept = nodes[id].kind->Enum_0;
            let all = normalize::forms(kept@);
            assert(all.to_set().contains(form));
            assert(all.contains(form));
            let v = choose|v: int| 0 <= v < all.len() && all[v] == form;
            assert(kept@[v].json@ == form);
        }
    }
}

/// A value satisfies a schema that lists its values just where it is listed and of the type.
pub proof fn lemma_listed_values(
    root: JsonValue,
    limits: CompileLimits,
    arena: SchemaArena,
    id: int,
    n: nat,
    d: Datum,
)
    requires
        normalized(root, limits, arena),
        0 <= id < arena.nodes@.len(),
        lists_values(listed(root, limits)[id].value),
        n > 0,
    ensures
        validation::satisfies(root, n, listed(root, limits)[id].value, d) <==> exists|
            value: JsonValue,
        | #[trigger]
            lists(listed(root, limits)[id].value, value) && d == validation::datum_of(value),
{
    let schema = listed(root, limits)[id].value;
    let members = (schema->Object_0)@;
    lemma_lists(root, limits, arena, id);
    lemma_bare(root, n, schema, d);
    if validation::satisfies(root, n, schema, d) {
        if json::has(members, "const"@) {
            assert(lists(schema, json::find(members, "const"@)->0));
        } else {
            let values = (json::find(members, "enum"@)->0->Array_0)@;
            let v = choose|v: int|
                0 <= v < values.len() && d == validation::datum_of(#[trigger] values[v]);
            assert(lists(schema, values[v]));
        }
    }
}

/// The name of a type.
pub open spec fn kind_name(kind: JsonType) -> Seq<char> {
    match kind {
        JsonType::Null => "null"@,
        JsonType::Boolean => "boolean"@,
        JsonType::String => "string"@,
        JsonType::Number => "number"@,
        JsonType::Integer => "integer"@,
        JsonType::Array => "array"@,
        JsonType::Object => "object"@,
    }
}

/// Whether a value is of a type, if one is asked for.
pub open spec fn of_kind(d: Datum, kind: Option<JsonType>) -> bool {
    kind matches Some(kind) ==> validation::is_of(d, kind_name(kind))
}

/// Types meet in what is of both.
pub proof fn lemma_meet(kind: Option<JsonType>, found: JsonType, d: Datum)
    ensures
        (of_kind(d, kind) && of_kind(d, Some(found))) <==> (normalize::meet(kind, found) is Some
            && of_kind(d, normalize::meet(kind, found))),
{
    lemma_types_apart();
}

/// A keyword that says something of values is none of those that say nothing.
pub proof fn lemma_words()
    ensures
        !normalize::spec_annotation("$ref"@),
        !normalize::spec_annotation("type"@),
        !normalize::spec_annotation("const"@),
        !normalize::spec_annotation("enum"@),
        !normalize::spec_annotation("allOf"@),
        !normalize::spec_annotation("anyOf"@),
        !normalize::spec_annotation("properties"@),
        !normalize::spec_annotation("required"@),
        !normalize::spec_annotation("additionalProperties"@),
        !normalize::spec_annotation("items"@),
        !normalize::spec_annotation("prefixItems"@),
        !normalize::spec_annotation("minItems"@),
        !normalize::spec_annotation("maxItems"@),
        !normalize::spec_annotation("minLength"@),
        !normalize::spec_annotation("maxLength"@),
{
    reveal_strlit("$schema");
    reveal_strlit("$id");
    reveal_strlit("$defs");
    reveal_strlit("$comment");
    reveal_strlit("title");
    reveal_strlit("description");
    reveal_strlit("default");
    reveal_strlit("examples");
    reveal_strlit("deprecated");
    reveal_strlit("readOnly");
    reveal_strlit("writeOnly");
    reveal_strlit("$ref");
    reveal_strlit("type");
    reveal_strlit("const");
    reveal_strlit("enum");
    reveal_strlit("allOf");
    reveal_strlit("anyOf");
    reveal_strlit("properties");
    reveal_strlit("required");
    reveal_strlit("additionalProperties");
    reveal_strlit("items");
    reveal_strlit("prefixItems");
    reveal_strlit("minItems");
    reveal_strlit("maxItems");
    reveal_strlit("minLength");
    reveal_strlit("maxLength");
    assert("$schema"@[0] == '$' && "$id"@[0] == '$' && "$defs"@[0] == '$' && "$comment"@[0] == '$');
    assert("title"@[0] == 't' && "description"@[0] == 'd' && "default"@[0] == 'd');
    assert("examples"@[0] == 'e' && "deprecated"@[0] == 'd' && "readOnly"@[0] == 'r');
    assert("writeOnly"@[0] == 'w' && "required"@[2] == 'q' && "readOnly"@[2] == 'a');
    assert("const"@[0] == 'c' && "allOf"@[0] == 'a' && "anyOf"@[0] == 'a');
    assert("properties"@[0] == 'p' && "prefixItems"@[0] == 'p' && "items"@[0] == 'i');
    assert("minItems"@[0] == 'm' && "maxItems"@[0] == 'm' && "minLength"@[0] == 'm');
    assert("maxLength"@[0] == 'm' && "additionalProperties"@[0] == 'a');
    assert("$ref"@.len() == 4 && "type"@.len() == 4 && "enum"@.len() == 4);
}

/// The keywords of values differ from a constant and from a type.
pub proof fn lemma_words_apart()
    ensures
        "type"@ != "const"@,
        "enum"@ != "const"@ && "enum"@ != "type"@,
        "$ref"@ != "const"@ && "$ref"@ != "type"@,
        "allOf"@ != "const"@ && "allOf"@ != "type"@,
        "anyOf"@ != "const"@ && "anyOf"@ != "type"@,
        "properties"@ != "const"@ && "properties"@ != "type"@,
        "required"@ != "const"@ && "required"@ != "type"@,
        "additionalProperties"@ != "const"@ && "additionalProperties"@ != "type"@,
        "items"@ != "const"@ && "items"@ != "type"@,
        "prefixItems"@ != "const"@ && "prefixItems"@ != "type"@,
        "minItems"@ != "const"@ && "minItems"@ != "type"@,
        "maxItems"@ != "const"@ && "maxItems"@ != "type"@,
        "minLength"@ != "const"@ && "minLength"@ != "type"@,
        "maxLength"@ != "const"@ && "maxLength"@ != "type"@,
{
    reveal_strlit("$ref");
    reveal_strlit("type");
    reveal_strlit("const");
    reveal_strlit("enum");
    reveal_strlit("allOf");
    reveal_strlit("anyOf");
    reveal_strlit("properties");
    reveal_strlit("required");
    reveal_strlit("additionalProperties");
    reveal_strlit("items");
    reveal_strlit("prefixItems");
    reveal_strlit("minItems");
    reveal_strlit("maxItems");
    reveal_strlit("minLength");
    reveal_strlit("maxLength");
    assert("type"@[0] == 't' && "const"@[0] == 'c');
    assert("$ref"@[0] == '$' && "enum"@[0] == 'e' && "allOf"@[0] == 'a' && "anyOf"@[0] == 'a');
    assert("items"@[0] == 'i');
}

/// A keyword that does not stand among others.
pub proof fn lemma_absent(members: Seq<JsonMember>, keyword: Seq<char>, other: Seq<char>)
    requires
        normalize::only_with(members, keyword),
        !normalize::spec_annotation(other),
        other != keyword,
    ensures
        !json::has(members, other),
{
    if json::has(members, other) {
        let i = location::lemma_found(members, other);
        assert(normalize::spec_annotation(members[i].key@) || members[i].key@ == keyword);
    }
}

/// What a schema with a constant or a type alone asks.
pub proof fn lemma_only(root: JsonValue, n: nat, schema: JsonValue, keyword: Seq<char>, d: Datum)
    requires
        n > 0,
        schema matches JsonValue::Object(members) && normalize::only_with(members@, keyword),
        keyword == "const"@ || keyword == "type"@,
    ensures
        validation::satisfies(root, n, schema, d) <==> (if keyword == "const"@ {
            json::find((schema->Object_0)@, "const"@) matches Some(value) ==> d
                == validation::datum_of(value)
        } else {
            typed((schema->Object_0)@, d)
        }),
{
    let members = (schema->Object_0)@;
    lemma_words();
    lemma_words_apart();
    lemma_absent(members, keyword, "enum"@);
    lemma_absent(members, keyword, "$ref"@);
    lemma_absent(members, keyword, "allOf"@);
    lemma_absent(members, keyword, "anyOf"@);
    lemma_absent(members, keyword, "properties"@);
    lemma_absent(members, keyword, "required"@);
    lemma_absent(members, keyword, "additionalProperties"@);
    lemma_absent(members, keyword, "items"@);
    lemma_absent(members, keyword, "prefixItems"@);
    lemma_absent(members, keyword, "minItems"@);
    lemma_absent(members, keyword, "maxItems"@);
    lemma_absent(members, keyword, "minLength"@);
    lemma_absent(members, keyword, "maxLength"@);
    if keyword == "const"@ {
        lemma_absent(members, keyword, "type"@);
    } else {
        lemma_absent(members, keyword, "const"@);
    }
    assert(all_stated(members));
    lemma_bare(root, n, schema, d);
}

/// The constant among branches, or the one from before.
pub open spec fn constant_in(
    list: Seq<Place>,
    ids: Seq<int>,
    k: nat,
    constant: Option<JsonValue>,
) -> Option<JsonValue>
    decreases ids.len() - k,
{
    if k >= ids.len() {
        constant
    } else {
        match list[ids[k as int]].value {
            JsonValue::Object(branch) => match json::find(branch@, "const"@) {
                Some(value) => constant_in(list, ids, k + 1, Some(value)),
                None => constant_in(list, ids, k + 1, constant),
            },
            _ => constant,
        }
    }
}

/// Whether a value satisfies the branches from the `k`th on.
pub open spec fn satisfies_from(root: JsonValue, n: nat, list: Seq<Place>, ids: Seq<int>, k: nat, d: Datum) -> bool {
    forall|b: int|
        k <= b < ids.len() ==> validation::satisfies(root, n, list[#[trigger] ids[b]].value, d)
}

/// Constants and types together admit just the constant, and only where it is of every type.
pub proof fn lemma_intersect(
    root: JsonValue,
    n: nat,
    at: Seq<char>,
    list: Seq<Place>,
    ids: Seq<int>,
    k: nat,
    constant: Option<JsonValue>,
    kind: Option<JsonType>,
    shape: Shape,
    d: Datum,
)
    requires
        n > 0,
        normalize::intersection(at, list, ids, k, constant, kind) == Ok::<Shape, Fault>(shape),
        forall|b: int|
            0 <= b < ids.len() ==> json::sorted(list[#[trigger] ids[b]].value)
                && validation::numbers_read(list[ids[b]].value),
        constant matches Some(value) ==> json::sorted(value) && validation::numbers_read(value),
    ensures
        shape is Never || shape is Const,
        shape matches Shape::Const(form) ==> (constant_in(list, ids, k, constant) matches Some(
            value,
        ) && json::sorted(value) && json::canonical(value) == form),
        (satisfies_from(root, n, list, ids, k, d) && of_kind(d, kind) && (constant matches Some(
            value,
        ) ==> d == validation::datum_of(value))) <==> (shape is Const && d == validation::datum_of(
            constant_in(list, ids, k, constant)->0,
        )),
    decreases ids.len() - k,
{
    if k >= ids.len() {
        let value = constant->0;
        if let Some(asked) = kind {
            lemma_types_apart();
            lemma_type(value, kind_name(asked), asked);
        }
    } else {
        let place = list[ids[k as int]];
        let branch = (place.value->Object_0)@;
        assert(satisfies_from(root, n, list, ids, k, d) <==> (validation::satisfies(
            root,
            n,
            place.value,
            d,
        ) && satisfies_from(root, n, list, ids, k + 1, d))) by {
            if validation::satisfies(root, n, place.value, d) && satisfies_from(
                root,
                n,
                list,
                ids,
                k + 1,
                d,
            ) {
                assert forall|b: int| k <= b < ids.len() implies validation::satisfies(
                    root,
                    n,
                    list[#[trigger] ids[b]].value,
                    d,
                ) by {
                    if b > k {
                        assert(k + 1 <= b);
                    }
                }
            }
            if satisfies_from(root, n, list, ids, k, d) {
                assert(ids[k as int] == ids[k as int]);
            }
        }
        match json::find(branch, "const"@) {
            Some(value) => {
                lemma_below_keeps(place.value, "const"@);
                lemma_only(root, n, place.value, "const"@, d);
                lemma_intersect(root, n, at, list, ids, k + 1, Some(value), kind, shape, d);
            },
            None => {
                let found = (normalize::declared_type(place.pointer, branch)->Ok_0)->0;
                lemma_words_apart();
                lemma_only(root, n, place.value, "type"@, d);
                lemma_types_apart();
                assert(typed(branch, d) <==> of_kind(d, Some(found)));
                lemma_meet(kind, found, d);
                match normalize::meet(kind, found) {
                    Some(both) => {
                        lemma_intersect(
                            root,
                            n,
                            at,
                            list,
                            ids,
                            k + 1,
                            constant,
                            Some(both),
                            shape,
                            d,
                        );
                    },
                    None => {},
                }
            },
        }
    }
}

} // verus!
