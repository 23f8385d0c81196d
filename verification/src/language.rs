//! The language of a normalized schema: the canonical JSON texts that conform to it.

use vstd::prelude::*;
use vstd::utf8;

use crate::dense;
use crate::json_schema;
use crate::schema::{AdditionalProperties, ArrayConstraints, NormalizedSchema, ObjectConstraints, SchemaNode};
use crate::text;

verus! {

/// What a part of a JSON text is read as: a schema's value, the members of an object from one
/// property on, or the items of an array from one position on.
pub enum Role {
    Schema(int),
    Member { id: int, index: int, emitted: bool },
    Position { id: int, index: int },
}

/// Whether `w` reads `part` at `i`.
pub open spec fn stands_at(w: Seq<u8>, i: int, part: Seq<u8>) -> bool {
    0 <= i && i + part.len() <= w.len() && w.subrange(i, i + part.len()) == part
}

/// A byte as a text.
pub open spec fn one(byte: u8) -> Seq<u8> {
    seq![byte]
}

/// The largest number of items of an array: none follow the prefix where no item conforms.
pub open spec fn effective_max(nodes: Seq<SchemaNode>, array: ArrayConstraints) -> Option<nat> {
    let prefix = array.prefix_items@.len();
    if never_items(nodes, array) {
        match array.max_items {
            Some(maximum) => Some(if maximum < prefix {
                maximum as nat
            } else {
                prefix
            }),
            None => Some(prefix),
        }
    } else {
        match array.max_items {
            Some(maximum) => Some(maximum as nat),
            None => None,
        }
    }
}

/// Whether the items behind the prefix have a schema to which nothing conforms.
pub open spec fn never_items(nodes: Seq<SchemaNode>, array: ArrayConstraints) -> bool {
    match array.items {
        Some(id) => id.0 < nodes.len() && nodes[id.0 as int].kind is Never,
        None => false,
    }
}

/// Whether an array has fewer places than it needs.
pub open spec fn doomed(nodes: Seq<SchemaNode>, array: ArrayConstraints) -> bool {
    effective_max(nodes, array) matches Some(maximum) && maximum < array.min_items
}

/// The larger of two counts.
pub open spec fn larger(a: nat, b: nat) -> nat {
    if a < b {
        b
    } else {
        a
    }
}

/// The number of positions of an array: with a largest number of items one for each number, without
/// one those up to the first that is like all behind it. There the prefix is over, enough items are
/// there, and a comma comes before the next.
pub open spec fn position_count(nodes: Seq<SchemaNode>, array: ArrayConstraints) -> nat {
    match effective_max(nodes, array) {
        Some(maximum) => maximum + 1,
        None => larger(larger(array.prefix_items@.len(), array.min_items as nat), 1) + 1,
    }
}

/// The schema of the item at a position, if one can stand there.
pub open spec fn item_at(nodes: Seq<SchemaNode>, array: ArrayConstraints, index: int) -> Option<int> {
    let item = if index < array.prefix_items@.len() {
        Some(array.prefix_items@[index].0 as int)
    } else {
        match array.items {
            Some(id) => Some(id.0 as int),
            None => None,
        }
    };
    match item {
        Some(id) => if (effective_max(nodes, array) matches Some(maximum) && index >= maximum)
            || nodes[id].kind is Never {
            None
        } else {
            Some(id)
        },
        None => None,
    }
}

/// The position behind an item.
pub open spec fn next_position(nodes: Seq<SchemaNode>, array: ArrayConstraints, index: int) -> int {
    if index + 1 < position_count(nodes, array) {
        index + 1
    } else {
        index
    }
}

/// Whether a property has to be there.
pub open spec fn is_required(object: ObjectConstraints, index: int) -> bool {
    holds_name(object, object.properties@[index].name@)
}

/// Whether a name is required.
pub open spec fn holds_name(object: ObjectConstraints, name: Seq<char>) -> bool {
    exists|r: int| 0 <= r < object.required@.len() && (#[trigger] object.required@[r])@ == name
}

/// Whether a name is that of a property.
pub open spec fn has_property(object: ObjectConstraints, name: Seq<char>) -> bool {
    exists|p: int|
        0 <= p < object.properties@.len() && (#[trigger] object.properties@[p]).name@ == name
}

/// Whether every required name is that of a property.
pub open spec fn all_known(object: ObjectConstraints) -> bool {
    forall|r: int|
        0 <= r < object.required@.len() ==> has_property(object, (#[trigger] object.required@[r])@)
}

/// What stands before the value of a member: a comma behind another, the name, and a colon.
pub open spec fn member_head(object: ObjectConstraints, index: int, emitted: bool) -> Seq<u8> {
    (if emitted {
        one(44)
    } else {
        Seq::empty()
    }) + utf8::encode_utf8(text::json_text(object.properties@[index].name@)) + one(58)
}

/// What stands before an item: a comma behind another.
pub open spec fn item_head(index: int) -> Seq<u8> {
    if index != 0 {
        one(44)
    } else {
        Seq::empty()
    }
}

/// Marks a place in a text.
pub open spec fn place(k: int) -> bool {
    true
}

/// Whether `w[i..j]` is a text of a role, by at most `n` nested parts.
pub open spec fn speaks(
    nodes: Seq<SchemaNode>,
    n: nat,
    role: Role,
    w: Seq<u8>,
    i: int,
    j: int,
) -> bool
    decreases n,
{
    &&& n > 0
    &&& 0 <= i <= j <= w.len()
    &&& match role {
        Role::Schema(id) => 0 <= id < nodes.len() && match nodes[id].kind {
            NormalizedSchema::Any => false,
            NormalizedSchema::Never => false,
            NormalizedSchema::Null => dense::matches(json_schema::NULL@, w.subrange(i, j)),
            NormalizedSchema::Boolean => dense::matches(
                json_schema::BOOLEAN@,
                w.subrange(i, j),
            ),
            NormalizedSchema::String(_) => dense::matches(
                json_schema::STRING@,
                w.subrange(i, j),
            ),
            NormalizedSchema::Number => dense::matches(
                json_schema::NUMBER@,
                w.subrange(i, j),
            ),
            NormalizedSchema::Integer => dense::matches(
                json_schema::INTEGER@,
                w.subrange(i, j),
            ),
            NormalizedSchema::Const(value) => w.subrange(i, j) == utf8::encode_utf8(value.json@),
            NormalizedSchema::Enum(values) => exists|v: int|
                0 <= v < values@.len() && w.subrange(i, j) == utf8::encode_utf8(
                    (#[trigger] values@[v]).json@,
                ),
            NormalizedSchema::Union(branches) => exists|b: int|
                #![trigger branches@[b]]
                0 <= b < branches@.len() && speaks(
                    nodes,
                    (n - 1) as nat,
                    Role::Schema(branches@[b].0 as int),
                    w,
                    i,
                    j,
                ),
            NormalizedSchema::Ref(target) => speaks(
                nodes,
                (n - 1) as nat,
                Role::Schema(target.0 as int),
                w,
                i,
                j,
            ),
            NormalizedSchema::Array(array) => {
                &&& !doomed(nodes, array)
                &&& i + 2 <= j
                &&& stands_at(w, i, one(91))
                &&& stands_at(w, j - 1, one(93))
                &&& speaks(
                    nodes,
                    (n - 1) as nat,
                    Role::Position { id, index: 0 },
                    w,
                    i + 1,
                    j - 1,
                )
            },
            NormalizedSchema::Object(object) => {
                &&& all_known(object)
                &&& i + 2 <= j
                &&& stands_at(w, i, one(123))
                &&& stands_at(w, j - 1, one(125))
                &&& speaks(
                    nodes,
                    (n - 1) as nat,
                    Role::Member { id, index: 0, emitted: false },
                    w,
                    i + 1,
                    j - 1,
                )
            },
        },
        Role::Member { id, index, emitted } => 0 <= id < nodes.len() && match nodes[id].kind {
            NormalizedSchema::Object(object) => 0 <= index <= object.properties@.len() && if index
                == object.properties@.len() {
                i == j
            } else {
                ||| !is_required(object, index) && speaks(
                    nodes,
                    (n - 1) as nat,
                    Role::Member { id, index: index + 1, emitted },
                    w,
                    i,
                    j,
                )
                ||| stands_at(w, i, member_head(object, index, emitted)) && exists|k: int| #[trigger]
                    place(k) && speaks(
                        nodes,
                        (n - 1) as nat,
                        Role::Schema(object.properties@[index].schema.0 as int),
                        w,
                        i + member_head(object, index, emitted).len(),
                        k,
                    ) && speaks(
                        nodes,
                        (n - 1) as nat,
                        Role::Member { id, index: index + 1, emitted: true },
                        w,
                        k,
                        j,
                    )
            },
            _ => false,
        },
        Role::Position { id, index } => 0 <= id < nodes.len() && match nodes[id].kind {
            NormalizedSchema::Array(array) => {
                ||| index >= array.min_items && i == j
                ||| item_at(nodes, array, index) is Some && stands_at(w, i, item_head(index))
                    && exists|k: int| #[trigger]
                    place(k) && speaks(
                        nodes,
                        (n - 1) as nat,
                        Role::Schema(item_at(nodes, array, index)->0),
                        w,
                        i + item_head(index).len(),
                        k,
                    ) && speaks(
                        nodes,
                        (n - 1) as nat,
                        Role::Position { id, index: next_position(nodes, array, index) },
                        w,
                        k,
                        j,
                    )
            },
            _ => false,
        },
    }
}

/// Whether a text conforms to the schema of a node: scalars as their patterns say, constants in
/// their canonical form, the members of an object in the order of its properties with all that are
/// required and no others, and the items of an array one after the other within its bounds.
pub open spec fn conforms(nodes: Seq<SchemaNode>, id: int, w: Seq<u8>) -> bool {
    exists|n: nat| #[trigger] speaks(nodes, n, Role::Schema(id), w, 0, w.len() as int)
}

/// Why the schema of a node has no grammar, if it has none.
pub open spec fn unsupported(nodes: Seq<SchemaNode>, id: int) -> Option<Seq<char>> {
    match nodes[id].kind {
        NormalizedSchema::Any => Some(
            "unconstrained JSON objects require canonical key-order memory"@,
        ),
        NormalizedSchema::String(constraints) => if constraints.min_length != 0
            || constraints.max_length is Some {
            Some("Unicode length constraints require a certified scalar-count automaton"@)
        } else {
            None
        },
        NormalizedSchema::Object(object) => if object.additional_properties
            != AdditionalProperties::Forbidden {
            Some("open objects require canonical key-order memory"@)
        } else {
            None
        },
        NormalizedSchema::Array(array) => if doomed(nodes, array) {
            None
        } else if effective_max(nodes, array) is None && array.items is None {
            Some("unbounded unconstrained array items require a structural backend"@)
        } else if effective_max(nodes, array) matches Some(maximum) && maximum
            > array.prefix_items@.len() && array.items is None {
            Some("unconstrained remainder items require a structural backend"@)
        } else {
            None
        },
        _ => None,
    }
}

} // verus!
