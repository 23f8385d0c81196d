//! What conforms to arrays and objects, in terms of what conforms to their items and members.

use vstd::prelude::*;

use crate::language;
use crate::language::Role;
use crate::schema::{ArrayConstraints, NormalizedSchema, ObjectConstraints, SchemaNode};

verus! {

/// The same range of two texts holds the same parts.
proof fn lemma_part(w: Seq<u8>, i: int, j: int, v: Seq<u8>, a: int, b: int, x: int, y: int)
    requires
        0 <= i <= x <= y <= j <= w.len(),
        0 <= a <= b <= v.len(),
        b - a == j - i,
        w.subrange(i, j) == v.subrange(a, b),
    ensures
        w.subrange(x, y) == v.subrange(x - i + a, y - i + a),
{
    assert forall|k: int| 0 <= k < y - x implies w.subrange(x, y)[k] == v.subrange(
        x - i + a,
        y - i + a,
    )[k] by {
        assert(w.subrange(i, j)[x - i + k] == w[i + (x - i + k)]);
        assert(v.subrange(a, b)[x - i + k] == v[a + (x - i + k)]);
        assert(v.subrange(x - i + a, y - i + a)[k] == v[(x - i + a) + k]);
    }
    assert(w.subrange(x, y) =~= v.subrange(x - i + a, y - i + a));
}

/// What a range of a text says depends on the range alone.
proof fn lemma_shift(
    nodes: Seq<SchemaNode>,
    n: nat,
    role: Role,
    w: Seq<u8>,
    i: int,
    j: int,
    v: Seq<u8>,
    a: int,
    b: int,
)
    requires
        language::speaks(nodes, n, role, w, i, j),
        0 <= a <= b <= v.len(),
        b - a == j - i,
        w.subrange(i, j) == v.subrange(a, b),
    ensures
        language::speaks(nodes, n, role, v, a, b),
    decreases n,
{
    match role {
        Role::Schema(id) => {
            match nodes[id].kind {
                NormalizedSchema::Union(branches) => {
                    let c = choose|c: int|
                        #![trigger branches@[c]]
                        0 <= c < branches@.len() && language::speaks(
                            nodes,
                            (n - 1) as nat,
                            Role::Schema(branches@[c].0 as int),
                            w,
                            i,
                            j,
                        );
                    lemma_shift(
                        nodes,
                        (n - 1) as nat,
                        Role::Schema(branches@[c].0 as int),
                        w,
                        i,
                        j,
                        v,
                        a,
                        b,
                    );
                },
                NormalizedSchema::Ref(target) => {
                    lemma_shift(
                        nodes,
                        (n - 1) as nat,
                        Role::Schema(target.0 as int),
                        w,
                        i,
                        j,
                        v,
                        a,
                        b,
                    );
                },
                NormalizedSchema::Array(array) => {
                    lemma_part(w, i, j, v, a, b, i, i + 1);
                    lemma_part(w, i, j, v, a, b, j - 1, j);
                    lemma_part(w, i, j, v, a, b, i + 1, j - 1);
                    lemma_shift(
                        nodes,
                        (n - 1) as nat,
                        Role::Position { id, index: 0 },
                        w,
                        i + 1,
                        j - 1,
                        v,
                        a + 1,
                        b - 1,
                    );
                },
                NormalizedSchema::Object(object) => {
                    lemma_part(w, i, j, v, a, b, i, i + 1);
                    lemma_part(w, i, j, v, a, b, j - 1, j);
                    lemma_part(w, i, j, v, a, b, i + 1, j - 1);
                    lemma_shift(
                        nodes,
                        (n - 1) as nat,
                        Role::Member { id, index: 0, emitted: false },
                        w,
                        i + 1,
                        j - 1,
                        v,
                        a + 1,
                        b - 1,
                    );
                },
                _ => {},
            }
        },
        Role::Member { id, index, emitted } => {
            if let NormalizedSchema::Object(object) = nodes[id].kind {
                if index < object.properties@.len() {
                    let head = language::member_head(object, index, emitted);
                    let skipped = Role::Member { id, index: index + 1, emitted };
                    if !language::is_required(object, index) && language::speaks(
                        nodes,
                        (n - 1) as nat,
                        skipped,
                        w,
                        i,
                        j,
                    ) {
                        lemma_shift(nodes, (n - 1) as nat, skipped, w, i, j, v, a, b);
                    } else {
                        let value = Role::Schema(object.properties@[index].schema.0 as int);
                        let rest = Role::Member { id, index: index + 1, emitted: true };
                        let k = choose|k: int| #[trigger]
                            language::place(k) && language::speaks(
                                nodes,
                                (n - 1) as nat,
                                value,
                                w,
                                i + head.len(),
                                k,
                            ) && language::speaks(nodes, (n - 1) as nat, rest, w, k, j);
                        let d = a - i;
                        lemma_part(w, i, j, v, a, b, i, i + head.len());
                        lemma_part(w, i, j, v, a, b, i + head.len(), k);
                        lemma_part(w, i, j, v, a, b, k, j);
                        lemma_shift(
                            nodes,
                            (n - 1) as nat,
                            value,
                            w,
                            i + head.len(),
                            k,
                            v,
                            a + head.len(),
                            k + d,
                        );
                        lemma_shift(nodes, (n - 1) as nat, rest, w, k, j, v, k + d, b);
                        assert(language::place(k + d));
                    }
                }
            }
        },
        Role::Position { id, index } => {
            if let NormalizedSchema::Array(array) = nodes[id].kind {
                if !(index >= array.min_items && i == j) {
                    let head = language::item_head(index);
                    let item = Role::Schema(language::item_at(nodes, array, index)->0);
                    let rest = Role::Position {
                        id,
                        index: language::next_position(nodes, array, index),
                    };
                    let k = choose|k: int| #[trigger]
                        language::place(k) && language::speaks(
                            nodes,
                            (n - 1) as nat,
                            item,
                            w,
                            i + head.len(),
                            k,
                        ) && language::speaks(nodes, (n - 1) as nat, rest, w, k, j);
                    let d = a - i;
                    lemma_part(w, i, j, v, a, b, i, i + head.len());
                    lemma_part(w, i, j, v, a, b, i + head.len(), k);
                    lemma_part(w, i, j, v, a, b, k, j);
                    lemma_shift(
                        nodes,
                        (n - 1) as nat,
                        item,
                        w,
                        i + head.len(),
                        k,
                        v,
                        a + head.len(),
                        k + d,
                    );
                    lemma_shift(nodes, (n - 1) as nat, rest, w, k, j, v, k + d, b);
                    assert(language::place(k + d));
                }
            }
        },
    }
}

/// What is said by some nested parts is said by more.
proof fn lemma_more(
    nodes: Seq<SchemaNode>,
    n: nat,
    m: nat,
    role: Role,
    w: Seq<u8>,
    i: int,
    j: int,
)
    requires
        n <= m,
        language::speaks(nodes, n, role, w, i, j),
    ensures
        language::speaks(nodes, m, role, w, i, j),
    decreases n,
{
    let p = (n - 1) as nat;
    let q = (m - 1) as nat;
    match role {
        Role::Schema(id) => {
            match nodes[id].kind {
                NormalizedSchema::Union(branches) => {
                    let c = choose|c: int|
                        #![trigger branches@[c]]
                        0 <= c < branches@.len() && language::speaks(
                            nodes,
                            p,
                            Role::Schema(branches@[c].0 as int),
                            w,
                            i,
                            j,
                        );
                    lemma_more(nodes, p, q, Role::Schema(branches@[c].0 as int), w, i, j);
                },
                NormalizedSchema::Ref(target) => {
                    lemma_more(nodes, p, q, Role::Schema(target.0 as int), w, i, j);
                },
                NormalizedSchema::Array(array) => {
                    lemma_more(nodes, p, q, Role::Position { id, index: 0 }, w, i + 1, j - 1);
                },
                NormalizedSchema::Object(object) => {
                    lemma_more(
                        nodes,
                        p,
                        q,
                        Role::Member { id, index: 0, emitted: false },
                        w,
                        i + 1,
                        j - 1,
                    );
                },
                _ => {},
            }
        },
        Role::Member { id, index, emitted } => {
            if let NormalizedSchema::Object(object) = nodes[id].kind {
                if index < object.properties@.len() {
                    let head = language::member_head(object, index, emitted);
                    let skipped = Role::Member { id, index: index + 1, emitted };
                    if !language::is_required(object, index) && language::speaks(
                        nodes,
                        p,
                        skipped,
                        w,
                        i,
                        j,
                    ) {
                        lemma_more(nodes, p, q, skipped, w, i, j);
                    } else {
                        let value = Role::Schema(object.properties@[index].schema.0 as int);
                        let rest = Role::Member { id, index: index + 1, emitted: true };
                        let k = choose|k: int| #[trigger]
                            language::place(k) && language::speaks(
                                nodes,
                                p,
                                value,
                                w,
                                i + head.len(),
                                k,
                            ) && language::speaks(nodes, p, rest, w, k, j);
                        lemma_more(nodes, p, q, value, w, i + head.len(), k);
                        lemma_more(nodes, p, q, rest, w, k, j);
                        assert(language::place(k));
                    }
                }
            }
        },
        Role::Position { id, index } => {
            if let NormalizedSchema::Array(array) = nodes[id].kind {
                if !(index >= array.min_items && i == j) {
                    let head = language::item_head(index);
                    let item = Role::Schema(language::item_at(nodes, array, index)->0);
                    let rest = Role::Position {
                        id,
                        index: language::next_position(nodes, array, index),
                    };
                    let k = choose|k: int| #[trigger]
                        language::place(k) && language::speaks(
                            nodes,
                            p,
                            item,
                            w,
                            i + head.len(),
                            k,
                        ) && language::speaks(nodes, p, rest, w, k, j);
                    lemma_more(nodes, p, q, item, w, i + head.len(), k);
                    lemma_more(nodes, p, q, rest, w, k, j);
                    assert(language::place(k));
                }
            }
        },
    }
}

/// What a range of a text says of a schema, the range says as a text.
proof fn lemma_range_conforms(
    nodes: Seq<SchemaNode>,
    n: nat,
    id: int,
    w: Seq<u8>,
    i: int,
    j: int,
)
    requires
        language::speaks(nodes, n, Role::Schema(id), w, i, j),
    ensures
        language::conforms(nodes, id, w.subrange(i, j)),
{
    let v = w.subrange(i, j);
    assert(v.subrange(0, v.len() as int) =~= v);
    lemma_shift(nodes, n, Role::Schema(id), w, i, j, v, 0, v.len() as int);
}

/// The schema of the item behind `c` others: that of the prefix, or that of all further items.
pub open spec fn item_schema(array: ArrayConstraints, c: int) -> Option<int> {
    if c < array.prefix_items@.len() {
        Some(array.prefix_items@[c].0 as int)
    } else {
        match array.items {
            Some(id) => Some(id.0 as int),
            None => None,
        }
    }
}

/// Items one after the other, with a comma before each but the first of the array.
pub open spec fn items_text(parts: Seq<Seq<u8>>, c: int) -> Seq<u8>
    decreases parts.len(),
{
    if parts.len() == 0 {
        Seq::empty()
    } else {
        language::item_head(c) + parts[0] + items_text(parts.skip(1), c + 1)
    }
}

/// Whether a text may be the item behind `c` others.
pub open spec fn item_conforms(
    nodes: Seq<SchemaNode>,
    array: ArrayConstraints,
    c: int,
    part: Seq<u8>,
) -> bool {
    match item_schema(array, c) {
        Some(id) => language::conforms(nodes, id, part),
        None => false,
    }
}

/// Whether items may follow `c` others and end an array: each conforms to the schema of its place,
/// and there are neither too few nor too many.
pub open spec fn items_conform(
    nodes: Seq<SchemaNode>,
    array: ArrayConstraints,
    c: int,
    parts: Seq<Seq<u8>>,
) -> bool {
    &&& array.min_items <= c + parts.len()
    &&& array.max_items matches Some(maximum) ==> c + parts.len() <= maximum
    &&& forall|k: int|
        0 <= k < parts.len() ==> item_conforms(nodes, array, c + k, #[trigger] parts[k])
}

/// The position that stands for `c` items.
spec fn position_of(nodes: Seq<SchemaNode>, array: ArrayConstraints, c: int) -> int {
    if c < language::position_count(nodes, array) {
        c
    } else {
        language::position_count(nodes, array) - 1
    }
}

/// Whether that many items can be there.
spec fn reachable(nodes: Seq<SchemaNode>, array: ArrayConstraints, c: int) -> bool {
    0 <= c && (language::effective_max(nodes, array) matches Some(maximum) ==> c <= maximum)
}

/// What a position says are items that may stand there.
proof fn lemma_read_items(
    nodes: Seq<SchemaNode>,
    n: nat,
    id: int,
    array: ArrayConstraints,
    c: int,
    w: Seq<u8>,
    i: int,
    j: int,
) -> (parts: Seq<Seq<u8>>)
    requires
        0 <= id < nodes.len(),
        nodes[id].kind == NormalizedSchema::Array(array),
        reachable(nodes, array, c),
        language::speaks(
            nodes,
            n,
            Role::Position { id, index: position_of(nodes, array, c) },
            w,
            i,
            j,
        ),
    ensures
        items_conform(nodes, array, c, parts),
        w.subrange(i, j) == items_text(parts, c),
    decreases n,
{
    let index = position_of(nodes, array, c);
    if index >= array.min_items && i == j {
        let parts = Seq::<Seq<u8>>::empty();
        assert(w.subrange(i, j) =~= items_text(parts, c));
        assert(array.max_items matches Some(maximum) ==> c + parts.len() <= maximum);
        parts
    } else {
        let p = (n - 1) as nat;
        let head = language::item_head(index);
        assert(head == language::item_head(c));
        let item = language::item_at(nodes, array, index)->0;
        assert(item_schema(array, c) == Some(item));
        let rest = Role::Position { id, index: language::next_position(nodes, array, index) };
        let k = choose|k: int| #[trigger]
            language::place(k) && language::speaks(
                nodes,
                p,
                Role::Schema(item),
                w,
                i + head.len(),
                k,
            ) && language::speaks(nodes, p, rest, w, k, j);
        assert(language::next_position(nodes, array, index) == position_of(nodes, array, c + 1));
        let tail = lemma_read_items(nodes, p, id, array, c + 1, w, k, j);
        lemma_range_conforms(nodes, p, item, w, i + head.len(), k);
        let first = w.subrange(i + head.len(), k);
        let parts = seq![first] + tail;
        assert(parts.skip(1) =~= tail);
        assert(c + parts.len() == c + 1 + tail.len());
        assert(w.subrange(i, j) =~= w.subrange(i, i + head.len()) + first + w.subrange(k, j));
        assert forall|m: int| 0 <= m < parts.len() implies item_conforms(
            nodes,
            array,
            c + m,
            #[trigger] parts[m],
        ) by {
            if m > 0 {
                assert(parts[m] == tail[m - 1]);
                assert(item_conforms(nodes, array, (c + 1) + (m - 1), tail[m - 1]));
            }
        }
        parts
    }
}

/// Items that may stand at a position are what the position says.
proof fn lemma_write_items(
    nodes: Seq<SchemaNode>,
    id: int,
    array: ArrayConstraints,
    c: int,
    parts: Seq<Seq<u8>>,
) -> (n: nat)
    requires
        0 <= id < nodes.len(),
        nodes[id].kind == NormalizedSchema::Array(array),
        reachable(nodes, array, c),
        !language::doomed(nodes, array),
        items_conform(nodes, array, c, parts),
    ensures
        language::speaks(
            nodes,
            n,
            Role::Position { id, index: position_of(nodes, array, c) },
            items_text(parts, c),
            0,
            items_text(parts, c).len() as int,
        ),
    decreases parts.len(),
{
    let index = position_of(nodes, array, c);
    let w = items_text(parts, c);
    let j = w.len() as int;
    if parts.len() == 0 {
        assert(w.len() == 0);
        lemma_enough(nodes, array);
        1
    } else {
        let tail = parts.skip(1);
        assert forall|m: int| 0 <= m < tail.len() implies item_conforms(
            nodes,
            array,
            c + 1 + m,
            #[trigger] tail[m],
        ) by {
            assert(tail[m] == parts[m + 1]);
            assert(item_conforms(nodes, array, c + (m + 1), parts[m + 1]));
        }
        assert(item_conforms(nodes, array, c + 0, parts[0]));
        let item = item_schema(array, c)->0;
        assert(language::conforms(nodes, item, parts[0]));
        let first = parts[0];
        let some = choose|some: nat| #[trigger]
            language::speaks(nodes, some, Role::Schema(item), first, 0, first.len() as int);
        assert(!(nodes[item].kind is Never));
        assert(language::effective_max(nodes, array) matches Some(maximum) ==> c < maximum);
        assert(c + 1 + tail.len() == c + parts.len());
        let more = lemma_write_items(nodes, id, array, c + 1, tail);
        assert(language::item_at(nodes, array, index) == Some(item));
        let head = language::item_head(index);
        assert(head == language::item_head(c));
        let rest = items_text(tail, c + 1);
        let k = (head.len() + first.len()) as int;
        assert(w == head + first + rest);
        assert(w.subrange(0, head.len() as int) =~= head);
        assert(w.subrange(head.len() as int, k) =~= first);
        assert(first.subrange(0, first.len() as int) =~= first);
        assert(w.subrange(k, j) =~= rest);
        assert(rest.subrange(0, rest.len() as int) =~= rest);
        let q: nat = some + more;
        lemma_more(nodes, some, q, Role::Schema(item), first, 0, first.len() as int);
        lemma_shift(
            nodes,
            q,
            Role::Schema(item),
            first,
            0,
            first.len() as int,
            w,
            head.len() as int,
            k,
        );
        let next = Role::Position { id, index: position_of(nodes, array, c + 1) };
        lemma_more(nodes, more, q, next, rest, 0, rest.len() as int);
        lemma_shift(nodes, q, next, rest, 0, rest.len() as int, w, k, j);
        assert(language::next_position(nodes, array, index) == position_of(nodes, array, c + 1));
        assert(language::place(k));
        (q + 1) as nat
    }
}

/// The positions of an array go up to the number of items that it needs, unless it is doomed.
proof fn lemma_enough(nodes: Seq<SchemaNode>, array: ArrayConstraints)
    ensures
        language::doomed(nodes, array) || language::position_count(nodes, array)
            > array.min_items,
{
}

/// Items that conform are not more than an array can have.
proof fn lemma_not_doomed(
    nodes: Seq<SchemaNode>,
    array: ArrayConstraints,
    parts: Seq<Seq<u8>>,
)
    requires
        items_conform(nodes, array, 0, parts),
    ensures
        !language::doomed(nodes, array),
{
    if language::never_items(nodes, array) && parts.len() > array.prefix_items@.len() {
        let k = array.prefix_items@.len() as int;
        assert(item_conforms(nodes, array, 0 + k, parts[k]));
    }
}

/// A text conforms to an array just if it is a list of items in brackets, with commas between them,
/// each of which conforms to the schema of its place, and of which there are neither too few nor
/// too many.
pub proof fn law_array_texts(nodes: Seq<SchemaNode>, id: int, array: ArrayConstraints, w: Seq<u8>)
    requires
        0 <= id < nodes.len(),
        nodes[id].kind == NormalizedSchema::Array(array),
    ensures
        language::conforms(nodes, id, w) <==> exists|parts: Seq<Seq<u8>>| #[trigger]
            items_conform(nodes, array, 0, parts) && w == language::one(91) + items_text(parts, 0)
                + language::one(93),
{
    let j = w.len() as int;
    if language::conforms(nodes, id, w) {
        let n = choose|n: nat| #[trigger] language::speaks(nodes, n, Role::Schema(id), w, 0, j);
        assert(position_of(nodes, array, 0) == 0);
        let parts = lemma_read_items(nodes, (n - 1) as nat, id, array, 0, w, 1, j - 1);
        assert(w =~= w.subrange(0, 1) + w.subrange(1, j - 1) + w.subrange(j - 1, j));
    }
    if exists|parts: Seq<Seq<u8>>| #[trigger]
        items_conform(nodes, array, 0, parts) && w == language::one(91) + items_text(parts, 0)
            + language::one(93) {
        let parts = choose|parts: Seq<Seq<u8>>| #[trigger]
            items_conform(nodes, array, 0, parts) && w == language::one(91) + items_text(parts, 0)
                + language::one(93);
        let inner = items_text(parts, 0);
        lemma_not_doomed(nodes, array, parts);
        let n = lemma_write_items(nodes, id, array, 0, parts);
        assert(position_of(nodes, array, 0) == 0);
        assert(w.subrange(1, j - 1) =~= inner);
        assert(inner.subrange(0, inner.len() as int) =~= inner);
        lemma_shift(
            nodes,
            n,
            Role::Position { id, index: 0 },
            inner,
            0,
            inner.len() as int,
            w,
            1,
            j - 1,
        );
        assert(w.subrange(0, 1) =~= language::one(91));
        assert(w.subrange(j - 1, j) =~= language::one(93));
        assert(language::speaks(nodes, n + 1, Role::Schema(id), w, 0, j));
    }
}

/// The members of an object from a property on: each is there with its value, or is not. A comma
/// comes before each but the first.
pub open spec fn members_text(
    object: ObjectConstraints,
    values: Seq<Option<Seq<u8>>>,
    index: int,
    emitted: bool,
) -> Seq<u8>
    decreases values.len() - index,
{
    if index < 0 || index >= values.len() {
        Seq::empty()
    } else {
        match values[index] {
            Some(value) => language::member_head(object, index, emitted) + value + members_text(
                object,
                values,
                index + 1,
                true,
            ),
            None => members_text(object, values, index + 1, emitted),
        }
    }
}

/// Whether the values of properties conform from one property on, and none that is required is
/// missing.
pub open spec fn members_conform(
    nodes: Seq<SchemaNode>,
    object: ObjectConstraints,
    values: Seq<Option<Seq<u8>>>,
    index: int,
) -> bool {
    &&& values.len() == object.properties@.len()
    &&& forall|p: int|
        index <= p < values.len() ==> match #[trigger] values[p] {
            Some(value) => language::conforms(
                nodes,
                object.properties@[p].schema.0 as int,
                value,
            ),
            None => !language::is_required(object, p),
        }
}

/// What is said of the members from a property on does not depend on what is before.
proof fn lemma_members_same(
    object: ObjectConstraints,
    values: Seq<Option<Seq<u8>>>,
    others: Seq<Option<Seq<u8>>>,
    index: int,
    emitted: bool,
)
    requires
        0 <= index,
        values.len() == others.len(),
        forall|p: int| index <= p < values.len() ==> values[p] == others[p],
    ensures
        members_text(object, values, index, emitted) == members_text(
            object,
            others,
            index,
            emitted,
        ),
    decreases values.len() - index,
{
    if index < values.len() {
        lemma_members_same(object, values, others, index + 1, true);
        lemma_members_same(object, values, others, index + 1, emitted);
    }
}

/// What members say from a property on are values that conform.
proof fn lemma_read_members(
    nodes: Seq<SchemaNode>,
    n: nat,
    id: int,
    object: ObjectConstraints,
    index: int,
    emitted: bool,
    w: Seq<u8>,
    i: int,
    j: int,
) -> (values: Seq<Option<Seq<u8>>>)
    requires
        0 <= id < nodes.len(),
        nodes[id].kind == NormalizedSchema::Object(object),
        0 <= index <= object.properties@.len(),
        language::speaks(nodes, n, Role::Member { id, index, emitted }, w, i, j),
    ensures
        members_conform(nodes, object, values, index),
        w.subrange(i, j) == members_text(object, values, index, emitted),
    decreases n,
{
    let count = object.properties@.len();
    let p = (n - 1) as nat;
    if index == count {
        let values = Seq::new(count, |k: int| None::<Seq<u8>>);
        assert(w.subrange(i, j) =~= members_text(object, values, index, emitted));
        values
    } else {
        let head = language::member_head(object, index, emitted);
        let skipped = Role::Member { id, index: index + 1, emitted };
        if !language::is_required(object, index) && language::speaks(nodes, p, skipped, w, i, j) {
            let found = lemma_read_members(nodes, p, id, object, index + 1, emitted, w, i, j);
            let values = found.update(index, None);
            lemma_members_same(object, found, values, index + 1, emitted);
            values
        } else {
            let schema = object.properties@[index].schema.0 as int;
            let rest = Role::Member { id, index: index + 1, emitted: true };
            let k = choose|k: int| #[trigger]
                language::place(k) && language::speaks(
                    nodes,
                    p,
                    Role::Schema(schema),
                    w,
                    i + head.len(),
                    k,
                ) && language::speaks(nodes, p, rest, w, k, j);
            let found = lemma_read_members(nodes, p, id, object, index + 1, true, w, k, j);
            lemma_range_conforms(nodes, p, schema, w, i + head.len(), k);
            let value = w.subrange(i + head.len(), k);
            let values = found.update(index, Some(value));
            lemma_members_same(object, found, values, index + 1, true);
            assert(w.subrange(i, j) =~= w.subrange(i, i + head.len()) + value + w.subrange(k, j));
            values
        }
    }
}

/// Values that conform are what members say.
proof fn lemma_write_members(
    nodes: Seq<SchemaNode>,
    id: int,
    object: ObjectConstraints,
    values: Seq<Option<Seq<u8>>>,
    index: int,
    emitted: bool,
) -> (n: nat)
    requires
        0 <= id < nodes.len(),
        nodes[id].kind == NormalizedSchema::Object(object),
        0 <= index <= object.properties@.len(),
        members_conform(nodes, object, values, index),
    ensures
        language::speaks(
            nodes,
            n,
            Role::Member { id, index, emitted },
            members_text(object, values, index, emitted),
            0,
            members_text(object, values, index, emitted).len() as int,
        ),
    decreases object.properties@.len() - index,
{
    let w = members_text(object, values, index, emitted);
    let j = w.len() as int;
    if index == object.properties@.len() {
        1
    } else {
        match values[index] {
            None => {
                let more = lemma_write_members(nodes, id, object, values, index + 1, emitted);
                (more + 1) as nat
            },
            Some(value) => {
                let more = lemma_write_members(nodes, id, object, values, index + 1, true);
                let schema = Role::Schema(object.properties@[index].schema.0 as int);
                let some = choose|some: nat| #[trigger]
                    language::speaks(nodes, some, schema, value, 0, value.len() as int);
                let head = language::member_head(object, index, emitted);
                let rest = members_text(object, values, index + 1, true);
                let k = (head.len() + value.len()) as int;
                assert(w == head + value + rest);
                assert(w.subrange(0, head.len() as int) =~= head);
                assert(w.subrange(head.len() as int, k) =~= value);
                assert(value.subrange(0, value.len() as int) =~= value);
                assert(w.subrange(k, j) =~= rest);
                assert(rest.subrange(0, rest.len() as int) =~= rest);
                let q: nat = some + more;
                lemma_more(nodes, some, q, schema, value, 0, value.len() as int);
                lemma_shift(
                    nodes,
                    q,
                    schema,
                    value,
                    0,
                    value.len() as int,
                    w,
                    head.len() as int,
                    k,
                );
                let next = Role::Member { id, index: index + 1, emitted: true };
                lemma_more(nodes, more, q, next, rest, 0, rest.len() as int);
                lemma_shift(nodes, q, next, rest, 0, rest.len() as int, w, k, j);
                assert(language::place(k));
                (q + 1) as nat
            },
        }
    }
}

/// A text conforms to a closed object just if it is a list of members in braces, in the order of
/// the properties, with commas between them: none that is required is missing, and the value of each
/// conforms to the schema of its property.
pub proof fn law_object_texts(
    nodes: Seq<SchemaNode>,
    id: int,
    object: ObjectConstraints,
    w: Seq<u8>,
)
    requires
        0 <= id < nodes.len(),
        nodes[id].kind == NormalizedSchema::Object(object),
    ensures
        language::conforms(nodes, id, w) <==> language::all_known(object) && exists|
            values: Seq<Option<Seq<u8>>>,
        | #[trigger]
            members_conform(nodes, object, values, 0) && w == language::one(123) + members_text(
                object,
                values,
                0,
                false,
            ) + language::one(125),
{
    let j = w.len() as int;
    if language::conforms(nodes, id, w) {
        let n = choose|n: nat| #[trigger] language::speaks(nodes, n, Role::Schema(id), w, 0, j);
        let values = lemma_read_members(nodes, (n - 1) as nat, id, object, 0, false, w, 1, j - 1);
        assert(w =~= w.subrange(0, 1) + w.subrange(1, j - 1) + w.subrange(j - 1, j));
    }
    if language::all_known(object) && exists|values: Seq<Option<Seq<u8>>>| #[trigger]
        members_conform(nodes, object, values, 0) && w == language::one(123) + members_text(
            object,
            values,
            0,
            false,
        ) + language::one(125) {
        let values = choose|values: Seq<Option<Seq<u8>>>| #[trigger]
            members_conform(nodes, object, values, 0) && w == language::one(123) + members_text(
                object,
                values,
                0,
                false,
            ) + language::one(125);
        let inner = members_text(object, values, 0, false);
        let n = lemma_write_members(nodes, id, object, values, 0, false);
        assert(w.subrange(1, j - 1) =~= inner);
        assert(inner.subrange(0, inner.len() as int) =~= inner);
        lemma_shift(
            nodes,
            n,
            Role::Member { id, index: 0, emitted: false },
            inner,
            0,
            inner.len() as int,
            w,
            1,
            j - 1,
        );
        assert(w.subrange(0, 1) =~= language::one(123));
        assert(w.subrange(j - 1, j) =~= language::one(125));
        assert(language::speaks(nodes, n + 1, Role::Schema(id), w, 0, j));
    }
}

} // verus!
