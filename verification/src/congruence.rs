//! A schema has one language, however often it is normalized.

use vstd::prelude::*;
use vstd::utf8;

use crate::agreement;
use crate::engine;
use crate::json::JsonValue;
use crate::language;
use crate::language::Role;
use crate::normalize;
use crate::normalize::Shape;
use crate::recognizer;
use crate::recognizer::{Advance, RecognizerState};
use crate::schema;
use crate::schema::{
    ArrayConstraints, CanonicalValue, CompileLimits, NormalizedSchema, ObjectConstraints,
    SchemaArena, SchemaNode,
};
use crate::text;

verus! {

/// Whether nodes have the given shapes.
pub open spec fn shaped(nodes: Seq<SchemaNode>, shapes: Seq<Shape>) -> bool {
    &&& nodes.len() == shapes.len()
    &&& forall|k: int|
        0 <= k < nodes.len() ==> normalize::shows((#[trigger] nodes[k]).kind, shapes[k])
            && schema::kind_within(nodes[k].kind, nodes.len())
}

/// Arrays of the same shape have the same bounds and items.
proof fn lemma_arrays(
    a: Seq<SchemaNode>,
    b: Seq<SchemaNode>,
    shapes: Seq<Shape>,
    x: ArrayConstraints,
    y: ArrayConstraints,
    index: int,
)
    requires
        shaped(a, shapes),
        shaped(b, shapes),
        normalize::numbers(x.prefix_items@) == normalize::numbers(y.prefix_items@),
        normalize::optional_number(x.items) == normalize::optional_number(y.items),
        x.min_items == y.min_items,
        normalize::optional_count(x.max_items) == normalize::optional_count(y.max_items),
        schema::kind_within(NormalizedSchema::Array(x), a.len()),
        index >= 0,
    ensures
        language::effective_max(a, x) == language::effective_max(b, y),
        language::doomed(a, x) == language::doomed(b, y),
        language::next_position(a, x, index) == language::next_position(b, y, index),
        language::item_at(a, x, index) == language::item_at(b, y, index),
{
    assert(normalize::numbers(x.prefix_items@).len() == x.prefix_items@.len());
    assert(normalize::numbers(y.prefix_items@).len() == y.prefix_items@.len());
    assert forall|i: int| 0 <= i < x.prefix_items@.len() implies #[trigger] x.prefix_items@[i].0
        == y.prefix_items@[i].0 by {
        assert(normalize::numbers(x.prefix_items@)[i] == x.prefix_items@[i].0);
        assert(normalize::numbers(y.prefix_items@)[i] == y.prefix_items@[i].0);
    }
    assert(language::never_items(a, x) == language::never_items(b, y)) by {
        if let Some(id) = x.items {
            assert(normalize::shows(a[id.0 as int].kind, shapes[id.0 as int]));
            assert(normalize::shows(b[id.0 as int].kind, shapes[id.0 as int]));
        }
    }
    assert(language::effective_max(a, x) == language::effective_max(b, y));
    assert(language::position_count(a, x) == language::position_count(b, y));
    if index < x.prefix_items@.len() {
        let id = x.prefix_items@[index].0 as int;
        assert(normalize::shows(a[id].kind, shapes[id]));
        assert(normalize::shows(b[id].kind, shapes[id]));
    } else if let Some(id) = x.items {
        assert(normalize::shows(a[id.0 as int].kind, shapes[id.0 as int]));
        assert(normalize::shows(b[id.0 as int].kind, shapes[id.0 as int]));
    }
}

/// Objects of the same shape have the same properties and require the same names.
proof fn lemma_objects(x: ObjectConstraints, y: ObjectConstraints, index: int, emitted: bool)
    requires
        normalize::entries(x.properties@) == normalize::entries(y.properties@),
        text::texts(x.required@).to_set() == text::texts(y.required@).to_set(),
    ensures
        x.properties@.len() == y.properties@.len(),
        language::all_known(x) ==> language::all_known(y),
        0 <= index < x.properties@.len() ==> language::is_required(x, index)
            == language::is_required(y, index) && language::member_head(x, index, emitted)
            == language::member_head(y, index, emitted) && x.properties@[index].schema
            == y.properties@[index].schema,
{
    let p = normalize::entries(x.properties@);
    let q = normalize::entries(y.properties@);
    assert(p.len() == x.properties@.len() && q.len() == y.properties@.len());
    assert forall|k: int| 0 <= k < x.properties@.len() implies (
    #[trigger] x.properties@[k]).name@ == y.properties@[k].name@ && x.properties@[k].schema.0
        == y.properties@[k].schema.0 by {
        assert(p[k] == (x.properties@[k].name@, x.properties@[k].schema.0 as int));
        assert(q[k] == (y.properties@[k].name@, y.properties@[k].schema.0 as int));
    }
    assert forall|name: Seq<char>| #[trigger] language::holds_name(x, name) implies
        language::holds_name(y, name) by {
        lemma_required(x, y, name);
    }
    assert forall|name: Seq<char>| #[trigger] language::holds_name(y, name) implies
        language::holds_name(x, name) by {
        lemma_required(y, x, name);
    }
    if language::all_known(x) {
        assert forall|r: int| 0 <= r < y.required@.len() implies language::has_property(
            y,
            (#[trigger] y.required@[r])@,
        ) by {
            let name = y.required@[r]@;
            assert(language::holds_name(y, name));
            assert(language::holds_name(x, name));
            let s = choose|s: int|
                0 <= s < x.required@.len() && (#[trigger] x.required@[s])@ == name;
            assert(language::has_property(x, x.required@[s]@));
            let k = choose|k: int|
                0 <= k < x.properties@.len() && (#[trigger] x.properties@[k]).name@ == name;
            assert(y.properties@[k].name@ == name);
        }
    }
}

/// A name that is required of an object is required of one with the same set of names.
proof fn lemma_required(x: ObjectConstraints, y: ObjectConstraints, name: Seq<char>)
    requires
        text::texts(x.required@).to_set() == text::texts(y.required@).to_set(),
        language::holds_name(x, name),
    ensures
        language::holds_name(y, name),
{
    let xs = text::texts(x.required@);
    let ys = text::texts(y.required@);
    let r = choose|r: int| 0 <= r < x.required@.len() && (#[trigger] x.required@[r])@ == name;
    assert(xs[r] == name);
    assert(xs.to_set().contains(name));
    assert(ys.to_set().contains(name));
    let s = choose|s: int| 0 <= s < ys.len() && ys[s] == name;
    assert(y.required@[s]@ == name);
}

/// A text that is a value of an enumeration is one of another with the same set of texts.
proof fn lemma_enums(x: Seq<CanonicalValue>, y: Seq<CanonicalValue>, part: Seq<u8>)
    requires
        normalize::forms(x).to_set() == normalize::forms(y).to_set(),
        exists|v: int|
            0 <= v < x.len() && part == utf8::encode_utf8((#[trigger] x[v]).json@),
    ensures
        exists|v: int|
            0 <= v < y.len() && part == utf8::encode_utf8((#[trigger] y[v]).json@),
{
    let xs = normalize::forms(x);
    let ys = normalize::forms(y);
    let v = choose|v: int|
        0 <= v < x.len() && part == utf8::encode_utf8((#[trigger] x[v]).json@);
    assert(xs[v] == x[v].json@);
    assert(xs.to_set().contains(x[v].json@));
    assert(ys.to_set().contains(x[v].json@));
    let u = choose|u: int| 0 <= u < ys.len() && ys[u] == x[v].json@;
    assert(y[u].json@ == x[v].json@);
}

/// What nodes of some shapes speak, other nodes of these shapes speak.
proof fn lemma_speaks_alike(
    a: Seq<SchemaNode>,
    b: Seq<SchemaNode>,
    shapes: Seq<Shape>,
    n: nat,
    role: Role,
    w: Seq<u8>,
    i: int,
    j: int,
)
    requires
        shaped(a, shapes),
        shaped(b, shapes),
        role matches Role::Position { index, .. } ==> index >= 0,
        language::speaks(a, n, role, w, i, j),
    ensures
        language::speaks(b, n, role, w, i, j),
    decreases n, 1nat,
{
    let m = (n - 1) as nat;
    match role {
        Role::Schema(id) => {
            lemma_schema_alike(a, b, shapes, n, id, w, i, j);
        },
        Role::Member { id, index, emitted } => {
            assert(normalize::shows(a[id].kind, shapes[id]));
            assert(normalize::shows(b[id].kind, shapes[id]));
            if let (NormalizedSchema::Object(x), NormalizedSchema::Object(y)) = (
                a[id].kind,
                b[id].kind,
            ) {
                lemma_objects(x, y, index, emitted);
                if index < x.properties@.len() {
                    let next = Role::Member { id, index: index + 1, emitted };
                    if !language::is_required(x, index) && language::speaks(a, m, next, w, i, j) {
                        lemma_speaks_alike(a, b, shapes, m, next, w, i, j);
                    } else {
                        let value = Role::Schema(x.properties@[index].schema.0 as int);
                        let from = i + language::member_head(x, index, emitted).len();
                        let rest = Role::Member { id, index: index + 1, emitted: true };
                        let k = choose|k: int| #[trigger]
                            language::place(k) && language::speaks(a, m, value, w, from, k)
                                && language::speaks(a, m, rest, w, k, j);
                        lemma_speaks_alike(a, b, shapes, m, value, w, from, k);
                        lemma_speaks_alike(a, b, shapes, m, rest, w, k, j);
                        assert(language::place(k));
                    }
                }
            }
        },
        Role::Position { id, index } => {
            assert(normalize::shows(a[id].kind, shapes[id]));
            assert(normalize::shows(b[id].kind, shapes[id]));
            if let (NormalizedSchema::Array(x), NormalizedSchema::Array(y)) = (
                a[id].kind,
                b[id].kind,
            ) {
                lemma_arrays(a, b, shapes, x, y, index);
                if !(index >= x.min_items && i == j) {
                    let value = Role::Schema(language::item_at(a, x, index)->0);
                    let from = i + language::item_head(index).len();
                    let rest = Role::Position {
                        id,
                        index: language::next_position(a, x, index),
                    };
                    let k = choose|k: int| #[trigger]
                        language::place(k) && language::speaks(a, m, value, w, from, k)
                            && language::speaks(a, m, rest, w, k, j);
                    lemma_speaks_alike(a, b, shapes, m, value, w, from, k);
                    lemma_speaks_alike(a, b, shapes, m, rest, w, k, j);
                    assert(language::place(k));
                }
            }
        },
    }
}

/// As [`lemma_speaks_alike`], of a schema.
proof fn lemma_schema_alike(
    a: Seq<SchemaNode>,
    b: Seq<SchemaNode>,
    shapes: Seq<Shape>,
    n: nat,
    id: int,
    w: Seq<u8>,
    i: int,
    j: int,
)
    requires
        shaped(a, shapes),
        shaped(b, shapes),
        language::speaks(a, n, Role::Schema(id), w, i, j),
    ensures
        language::speaks(b, n, Role::Schema(id), w, i, j),
    decreases n, 0nat,
{
    let m = (n - 1) as nat;
    assert(normalize::shows(a[id].kind, shapes[id]));
    assert(normalize::shows(b[id].kind, shapes[id]));
    match (a[id].kind, b[id].kind) {
        (NormalizedSchema::Enum(x), NormalizedSchema::Enum(y)) => {
            lemma_enums(x@, y@, w.subrange(i, j));
        },
        (NormalizedSchema::Union(x), NormalizedSchema::Union(y)) => {
            let k = choose|k: int|
                #![trigger x@[k]]
                0 <= k < x@.len() && language::speaks(
                    a,
                    m,
                    Role::Schema(x@[k].0 as int),
                    w,
                    i,
                    j,
                );
            assert(normalize::numbers(x@) == normalize::numbers(y@));
            assert(normalize::numbers(x@).len() == x@.len());
            assert(normalize::numbers(y@).len() == y@.len());
            assert(normalize::numbers(x@)[k] == x@[k].0);
            assert(normalize::numbers(y@)[k] == y@[k].0);
            assert(y@[k].0 == x@[k].0);
            lemma_speaks_alike(a, b, shapes, m, Role::Schema(x@[k].0 as int), w, i, j);
        },
        (NormalizedSchema::Ref(x), NormalizedSchema::Ref(y)) => {
            lemma_speaks_alike(a, b, shapes, m, Role::Schema(x.0 as int), w, i, j);
        },
        (NormalizedSchema::Array(x), NormalizedSchema::Array(y)) => {
            lemma_arrays(a, b, shapes, x, y, 0);
            lemma_speaks_alike(
                a,
                b,
                shapes,
                m,
                Role::Position { id, index: 0 },
                w,
                i + 1,
                j - 1,
            );
        },
        (NormalizedSchema::Object(x), NormalizedSchema::Object(y)) => {
            lemma_objects(x, y, 0, false);
            lemma_speaks_alike(
                a,
                b,
                shapes,
                m,
                Role::Member { id, index: 0, emitted: false },
                w,
                i + 1,
                j - 1,
            );
        },
        _ => {},
    }
}

/// The nodes of a normal form have its shapes.
proof fn lemma_shaped(root: JsonValue, limits: CompileLimits, arena: &SchemaArena)
    requires
        engine::normalizes(root, limits, *arena),
    ensures
        normalize::normal_form(root, limits) matches Ok((_, shapes)) && shaped(
            arena.nodes@,
            shapes,
        ),
{
    if let Ok((list, shapes)) = normalize::normal_form(root, limits) {
        assert forall|k: int| 0 <= k < arena.nodes@.len() implies normalize::shows(
            (#[trigger] arena.nodes@[k]).kind,
            shapes[k],
        ) && schema::kind_within(arena.nodes@[k].kind, arena.nodes@.len()) by {
            assert(normalize::node_shows(arena.nodes@[k], k, list[k], shapes[k]));
        }
    }
}

proof fn lemma_accepted(
    root: JsonValue,
    limits: CompileLimits,
    one: &SchemaArena,
    other: &SchemaArena,
    w: Seq<u8>,
)
    requires
        engine::normalizes(root, limits, *one),
        engine::normalizes(root, limits, *other),
        engine::accepted(one, w),
    ensures
        engine::accepted(other, w),
{
    lemma_shaped(root, limits, one);
    lemma_shaped(root, limits, other);
    let shapes = normalize::normal_form(root, limits)->Ok_0.1;
    let id = one.root.0 as int;
    let end = w.len() as int;
    let n = choose|n: nat| #[trigger]
        language::speaks(one.nodes@, n, Role::Schema(id), w, 0, end);
    lemma_speaks_alike(one.nodes@, other.nodes@, shapes, n, Role::Schema(id), w, 0, end);
}

/// A document has one language: the same texts conform to it however often it is normalized, and a
/// recognizer of it is one of every normal form of it.
pub proof fn law_one_schema_one_language(
    root: JsonValue,
    limits: CompileLimits,
    one: &SchemaArena,
    other: &SchemaArena,
)
    requires
        engine::normalizes(root, limits, *one),
        engine::normalizes(root, limits, *other),
    ensures
        forall|w: Seq<u8>| #[trigger] engine::accepted(one, w) <==> engine::accepted(other, w),
        forall|recognizer: RecognizerState| #[trigger]
            engine::recognizes_schema(&recognizer, one) <==> engine::recognizes_schema(
                &recognizer,
                other,
            ),
{
    assert forall|w: Seq<u8>| #[trigger] engine::accepted(one, w) <==> engine::accepted(
        other,
        w,
    ) by {
        if engine::accepted(one, w) {
            lemma_accepted(root, limits, one, other, w);
        }
        if engine::accepted(other, w) {
            lemma_accepted(root, limits, other, one, w);
        }
    }
    assert forall|recognizer: RecognizerState| #[trigger]
        engine::recognizes_schema(&recognizer, one) <==> engine::recognizes_schema(
            &recognizer,
            other,
        ) by {
        if engine::recognizes_schema(&recognizer, one) {
            assert forall|w: Seq<u8>| #[trigger] recognizer.generates(w) <==> engine::accepted(
                other,
                w,
            ) by {
                assert(engine::accepted(one, w) <==> engine::accepted(other, w));
            }
        }
        if engine::recognizes_schema(&recognizer, other) {
            assert forall|w: Seq<u8>| #[trigger] recognizer.generates(w) <==> engine::accepted(
                one,
                w,
            ) by {
                assert(engine::accepted(one, w) <==> engine::accepted(other, w));
            }
        }
    }
}

/// The choice of a backend changes nothing: of a document that was compiled twice, under any two
/// policies, recognizers that have read the same bytes reject the same further bytes, say the same of
/// the others, and accept and are live alike, unless limits hinder one of them.
pub proof fn law_policies_agree(
    root: JsonValue,
    limits: CompileLimits,
    arenas: (&SchemaArena, &SchemaArena),
    one: (RecognizerState, RecognizerState),
    other: (RecognizerState, RecognizerState),
    h: Seq<u8>,
    bytes: Seq<u8>,
    said: Advance,
    other_said: Advance,
)
    requires
        engine::normalizes(root, limits, *arenas.0),
        engine::normalizes(root, limits, *arenas.1),
        engine::recognizes_schema(&one.0, arenas.0),
        engine::recognizes_schema(&other.0, arenas.1),
        one.0.recognizes(h),
        other.0.recognizes(h),
        bytes.len() > 0,
        recognizer::reads_chunk(one.0, one.1, bytes, Ok(said)),
        recognizer::reads_chunk(other.0, other.1, bytes, Ok(other_said)),
    ensures
        said == Advance::Rejected <==> other_said == Advance::Rejected,
        said != Advance::Rejected ==> one.1.recognizes(h + bytes) && other.1.recognizes(h + bytes),
        said != Advance::Rejected && one.1.unhindered() && other.1.unhindered() ==> {
            &&& said == other_said
            &&& one.1.accepting() == other.1.accepting()
            &&& one.1.live() == other.1.live()
        },
{
    law_one_schema_one_language(root, limits, arenas.0, arenas.1);
    assert(engine::recognizes_schema(&other.0, arenas.0));
    agreement::law_backends_answer_alike(arenas.0, one, other, h, bytes, said, other_said);
}

} // verus!
