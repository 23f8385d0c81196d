//! The places of a schema document at which schemas stand.

use vstd::prelude::*;

use crate::count;
use crate::error::{CompileError, CompileStage};
use crate::fault;
use crate::fault::Fault;
use crate::json;
use crate::json::{JsonMember, JsonValue};
use crate::pointer;
use crate::pointer::pointer_join;
use crate::schema::SchemaPointer;
use crate::text;

verus! {

/// A place of a document: its pointer, and the value there.
pub struct Place {
    pub pointer: Seq<char>,
    pub value: JsonValue,
}

/// A place of a document.
pub struct RawNode<'a> {
    pub pointer: SchemaPointer,
    pub value: &'a JsonValue,
}

impl<'a> View for RawNode<'a> {
    type V = Place;

    open spec fn view(&self) -> Place {
        Place { pointer: self.pointer.0@, value: *self.value }
    }
}

/// The places of a list.
pub open spec fn places(list: Seq<RawNode>) -> Seq<Place> {
    list.map_values(|node: RawNode| node@)
}

/// The pointers of places.
pub open spec fn pointers(list: Seq<Place>) -> Seq<Seq<char>> {
    list.map_values(|place: Place| place.pointer)
}

/// The schemas among the first `n` members, below a pointer.
pub open spec fn named_places(below: Seq<char>, entries: Seq<JsonMember>, n: nat) -> Seq<Place>
    decreases n,
{
    if n == 0 || n > entries.len() {
        Seq::empty()
    } else {
        let before = named_places(below, entries, (n - 1) as nat);
        let entry = entries[n - 1];
        if json::spec_is_schema(entry.value) {
            before.push(
                Place { pointer: pointer::joined(below, entry.key@), value: entry.value },
            )
        } else {
            before
        }
    }
}

/// The schemas among the first `n` items, below a pointer.
pub open spec fn listed_places(below: Seq<char>, entries: Seq<JsonValue>, n: nat) -> Seq<Place>
    decreases n,
{
    if n == 0 || n > entries.len() {
        Seq::empty()
    } else {
        let before = listed_places(below, entries, (n - 1) as nat);
        if json::spec_is_schema(entries[n - 1]) {
            before.push(
                Place {
                    pointer: pointer::joined(below, text::digits((n - 1) as nat)),
                    value: entries[n - 1],
                },
            )
        } else {
            before
        }
    }
}

/// The schemas in the object of a keyword.
pub open spec fn named_children(
    at: Seq<char>,
    members: Seq<JsonMember>,
    keyword: Seq<char>,
) -> Seq<Place> {
    match json::find(members, keyword) {
        Some(JsonValue::Object(entries)) => named_places(
            pointer::joined(at, keyword),
            entries@,
            entries@.len(),
        ),
        _ => Seq::empty(),
    }
}

/// The schema of a keyword.
pub open spec fn single_child(
    at: Seq<char>,
    members: Seq<JsonMember>,
    keyword: Seq<char>,
) -> Seq<Place> {
    match json::find(members, keyword) {
        Some(value) => if json::spec_is_schema(value) {
            seq![Place { pointer: pointer::joined(at, keyword), value }]
        } else {
            Seq::empty()
        },
        None => Seq::empty(),
    }
}

/// The schemas in the array of a keyword.
pub open spec fn listed_children(
    at: Seq<char>,
    members: Seq<JsonMember>,
    keyword: Seq<char>,
) -> Seq<Place> {
    match json::find(members, keyword) {
        Some(JsonValue::Array(entries)) => listed_places(
            pointer::joined(at, keyword),
            entries@,
            entries@.len(),
        ),
        _ => Seq::empty(),
    }
}

/// The schemas directly below a place.
pub open spec fn children(place: Place) -> Seq<Place> {
    match place.value {
        JsonValue::Object(members) => {
            let at = place.pointer;
            let all = members@;
            named_children(at, all, "$defs"@) + named_children(at, all, "properties"@)
                + single_child(at, all, "additionalProperties"@) + single_child(at, all, "items"@)
                + listed_children(at, all, "prefixItems"@) + listed_children(at, all, "allOf"@)
                + listed_children(at, all, "anyOf"@) + listed_children(at, all, "oneOf"@)
        },
        _ => Seq::empty(),
    }
}

/// A place put behind those that do not follow it.
pub open spec fn put(list: Seq<Place>, place: Place) -> Seq<Place>
    decreases list.len(),
{
    if list.len() == 0 || !text::text_before(place.pointer, list.last().pointer) {
        list.push(place)
    } else {
        put(list.drop_last(), place).push(list.last())
    }
}

/// Places in the order of their pointers.
pub open spec fn ordered(list: Seq<Place>) -> Seq<Place>
    decreases list.len(),
{
    if list.len() == 0 {
        list
    } else {
        put(ordered(list.drop_last()), list.last())
    }
}

/// The places that are found from those still to visit, the last first: a place, then those below
/// it in the order of their pointers. Fails where there are more than the limit.
pub open spec fn walk(work: Seq<Place>, found: Seq<Place>, limit: nat) -> Result<Seq<Place>, Fault>
    decreases limit - found.len(), work.len(),
{
    if work.len() == 0 {
        Ok(found)
    } else if pointers(found).contains(work.last().pointer) {
        walk(work.drop_last(), found, limit)
    } else if found.len() >= limit {
        Err(
            Fault::Limit {
                stage: CompileStage::SchemaIndex,
                observed: count::saturated(found.len() + 1),
                limit,
            },
        )
    } else {
        walk(
            work.drop_last() + ordered(children(work.last())).reverse(),
            found.push(work.last()),
            limit,
        )
    }
}

/// The places of the schemas of a document.
pub open spec fn schema_places(root: JsonValue, limit: nat) -> Result<Seq<Place>, Fault> {
    walk(seq![Place { pointer: Seq::empty(), value: root }], Seq::empty(), limit)
}

/// Where a place is put.
proof fn lemma_put(list: Seq<Place>, place: Place, position: int)
    requires
        0 <= position <= list.len(),
        forall|i: int|
            position <= i < list.len() ==> text::text_before(
                place.pointer,
                (#[trigger] list[i]).pointer,
            ),
        position > 0 ==> !text::text_before(place.pointer, list[position - 1].pointer),
    ensures
        put(list, place) == list.insert(position, place),
    decreases list.len(),
{
    if position < list.len() {
        lemma_put(list.drop_last(), place, position);
        assert(list.drop_last().insert(position, place).push(list.last()) =~= list.insert(
            position,
            place,
        ));
    } else {
        assert(list.push(place) =~= list.insert(position, place));
    }
}

/// Puts a place behind those that do not follow it.
fn put_node<'a>(list: &mut Vec<RawNode<'a>>, node: RawNode<'a>, Ghost(all): Ghost<Seq<Place>>)
    requires
        places(old(list)@) == ordered(all),
    ensures
        places(final(list)@) == ordered(all.push(node@)),
{
    let ghost before = list@;
    let mut position: usize = list.len();
    while position > 0 && text::is_text_before(
        node.pointer.0.as_str(),
        list[position - 1].pointer.0.as_str(),
    )
        invariant
            position <= list@.len(),
            forall|i: int|
                position <= i < list@.len() ==> text::text_before(
                    node@.pointer,
                    (#[trigger] places(list@)[i]).pointer,
                ),
        decreases position,
    {
        position -= 1;
        assert(places(list@)[position as int] == list@[position as int]@);
    }
    proof {
        if position > 0 {
            assert(places(list@)[position - 1] == list@[position - 1]@);
        }
        lemma_put(places(list@), node@, position as int);
        assert(all.push(node@).drop_last() =~= all);
    }
    let ghost place = node@;
    list.insert(position, node);
    assert(places(list@) =~= places(before).insert(position as int, place));
}

/// Adds the schemas in the object of a keyword, in order.
fn put_named<'a>(
    list: &mut Vec<RawNode<'a>>,
    at: &SchemaPointer,
    members: &'a Vec<JsonMember>,
    keyword: &str,
    Ghost(all): Ghost<Seq<Place>>,
)
    requires
        places(old(list)@) == ordered(all),
    ensures
        places(final(list)@) == ordered(all + named_children(at.0@, members@, keyword@)),
{
    match json::get(members, keyword) {
        Some(JsonValue::Object(entries)) => {
            let below = pointer_join(at, keyword);
            let mut index: usize = 0;
            assert(all + named_places(below.0@, entries@, 0) =~= all);
            while index < entries.len()
                invariant
                    index <= entries@.len(),
                    places(list@) == ordered(all + named_places(below.0@, entries@, index as nat)),
                decreases entries@.len() - index,
            {
                let ghost start = all + named_places(below.0@, entries@, index as nat);
                let ghost next = all + named_places(below.0@, entries@, (index + 1) as nat);
                if json::is_schema(&entries[index].value) {
                    let child = RawNode {
                        pointer: pointer_join(&below, entries[index].key.as_str()),
                        value: &entries[index].value,
                    };
                    assert(next =~= start.push(child@));
                    put_node(list, child, Ghost(start));
                }
                index += 1;
            }
        },
        _ => {
            assert(all + named_children(at.0@, members@, keyword@) =~= all);
        },
    }
}

/// Adds the schema of a keyword, in order.
fn put_single<'a>(
    list: &mut Vec<RawNode<'a>>,
    at: &SchemaPointer,
    members: &'a Vec<JsonMember>,
    keyword: &str,
    Ghost(all): Ghost<Seq<Place>>,
)
    requires
        places(old(list)@) == ordered(all),
    ensures
        places(final(list)@) == ordered(all + single_child(at.0@, members@, keyword@)),
{
    match json::get(members, keyword) {
        Some(value) => {
            if json::is_schema(value) {
                let child = RawNode { pointer: pointer_join(at, keyword), value };
                assert(all + single_child(at.0@, members@, keyword@) =~= all.push(child@));
                put_node(list, child, Ghost(all));
            } else {
                assert(all + single_child(at.0@, members@, keyword@) =~= all);
            }
        },
        None => {
            assert(all + single_child(at.0@, members@, keyword@) =~= all);
        },
    }
}

/// Adds the schemas in the array of a keyword, in order.
fn put_listed<'a>(
    list: &mut Vec<RawNode<'a>>,
    at: &SchemaPointer,
    members: &'a Vec<JsonMember>,
    keyword: &str,
    Ghost(all): Ghost<Seq<Place>>,
)
    requires
        places(old(list)@) == ordered(all),
    ensures
        places(final(list)@) == ordered(all + listed_children(at.0@, members@, keyword@)),
{
    match json::get(members, keyword) {
        Some(JsonValue::Array(entries)) => {
            let below = pointer_join(at, keyword);
            let mut index: usize = 0;
            assert(all + listed_places(below.0@, entries@, 0) =~= all);
            while index < entries.len()
                invariant
                    index <= entries@.len(),
                    places(list@) == ordered(all + listed_places(below.0@, entries@, index as nat)),
                decreases entries@.len() - index,
            {
                let ghost start = all + listed_places(below.0@, entries@, index as nat);
                let ghost next = all + listed_places(below.0@, entries@, (index + 1) as nat);
                if json::is_schema(&entries[index]) {
                    let child = RawNode {
                        pointer: pointer_join(&below, text::decimal(index).as_str()),
                        value: &entries[index],
                    };
                    assert(next =~= start.push(child@));
                    put_node(list, child, Ghost(start));
                }
                index += 1;
            }
        },
        _ => {
            assert(all + listed_children(at.0@, members@, keyword@) =~= all);
        },
    }
}

/// Lists the schemas directly below a place, in the order of their pointers.
fn schema_children<'a>(node: &RawNode<'a>) -> (list: Vec<RawNode<'a>>)
    ensures
        places(list@) == ordered(children(node@)),
{
    let mut list: Vec<RawNode<'a>> = Vec::new();
    let value: &'a JsonValue = node.value;
    let ghost mut all = Seq::<Place>::empty();
    assert(places(list@) =~= ordered(all));
    match value {
        JsonValue::Object(members) => {
            let at = &node.pointer;
            let ghost given = members@;
            let ghost from = at.0@;
            put_named(&mut list, at, members, "$defs", Ghost(all));
            proof {
                all = all + named_children(from, given, "$defs"@);
            }
            put_named(&mut list, at, members, "properties", Ghost(all));
            proof {
                all = all + named_children(from, given, "properties"@);
            }
            put_single(&mut list, at, members, "additionalProperties", Ghost(all));
            proof {
                all = all + single_child(from, given, "additionalProperties"@);
            }
            put_single(&mut list, at, members, "items", Ghost(all));
            proof {
                all = all + single_child(from, given, "items"@);
            }
            put_listed(&mut list, at, members, "prefixItems", Ghost(all));
            proof {
                all = all + listed_children(from, given, "prefixItems"@);
            }
            put_listed(&mut list, at, members, "allOf", Ghost(all));
            proof {
                all = all + listed_children(from, given, "allOf"@);
            }
            put_listed(&mut list, at, members, "anyOf", Ghost(all));
            proof {
                all = all + listed_children(from, given, "anyOf"@);
            }
            put_listed(&mut list, at, members, "oneOf", Ghost(all));
            proof {
                all = all + listed_children(from, given, "oneOf"@);
                assert(all =~= children(node@));
            }
        },
        _ => {},
    }
    list
}

/// Where a pointer stands among pointers.
pub open spec fn located(list: Seq<Seq<char>>, pointer: Seq<char>) -> Option<int> {
    if list.contains(pointer) {
        Some(choose|i: int| 0 <= i < list.len() && list[i] == pointer)
    } else {
        None
    }
}

/// Pointers in ascending order, each with its position in a list.
pub struct PointerIndex {
    pointers: Vec<String>,
    positions: Vec<usize>,
}

impl PointerIndex {
    /// Whether the index holds the pointers of a list.
    pub closed spec fn holds(&self, list: Seq<Seq<char>>) -> bool {
        &&& text::ascending(text::texts(self.pointers@))
        &&& self.pointers@.len() == self.positions@.len() == list.len()
        &&& text::texts(self.pointers@).to_set() == list.to_set()
        &&& list.no_duplicates()
        &&& forall|e: int|
            0 <= e < self.positions@.len() ==> #[trigger] self.positions@[e] < list.len()
                && list[self.positions@[e] as int] == self.pointers@[e]@
    }

    /// An index of no pointers.
    pub fn new() -> (index: Self)
        ensures
            index.holds(Seq::empty()),
    {
        let index = PointerIndex { pointers: Vec::new(), positions: Vec::new() };
        assert(text::texts(index.pointers@).to_set() =~= Seq::<Seq<char>>::empty().to_set()) by {
            assert(text::texts(index.pointers@) =~= Seq::<Seq<char>>::empty());
        }
        index
    }

    /// Finds the position of a pointer.
    pub(crate) fn find(&self, pointer: &str, Ghost(list): Ghost<Seq<Seq<char>>>) -> (position:
        Option<usize>)
        requires
            self.holds(list),
        ensures
            position is Some == list.contains(pointer@),
            position matches Some(i) ==> i < list.len() && located(list, pointer@) == Some(i as int)
                && list[i as int] == pointer@,
    {
        let place: usize = text::text_position(&self.pointers, pointer);
        proof {
            assert(list.contains(pointer@) == list.to_set().contains(pointer@));
            assert(list.to_set().contains(pointer@) == text::texts(self.pointers@).contains(
                pointer@,
            ));
        }
        if place < self.pointers.len() && text::same_text(self.pointers[place].as_str(), pointer) {
            let i: usize = self.positions[place];
            proof {
                let j = located(list, pointer@)->0;
                assert(list[i as int] == pointer@ && list[j] == pointer@);
            }
            Some(i)
        } else {
            None
        }
    }

    /// Adds a pointer at the end of the list.
    pub(crate) fn add(&mut self, pointer: String, Ghost(list): Ghost<Seq<Seq<char>>>)
        requires
            old(self).holds(list),
            !list.contains(pointer@),
        ensures
            final(self).holds(list.push(pointer@)),
    {
        let ghost before = *self;
        let ghost added = list.push(pointer@);
        let position: usize = text::text_position(&self.pointers, pointer.as_str());
        proof {
            assert(list.contains(pointer@) == list.to_set().contains(pointer@));
            assert(list.to_set().contains(pointer@) == text::texts(self.pointers@).contains(
                pointer@,
            ));
            text::lemma_inserted(self.pointers@, position as int, pointer);
        }
        let last: usize = self.positions.len();
        self.pointers.insert(position, pointer);
        self.positions.insert(position, last);
        proof {
            assert(added.to_set() =~= list.to_set().insert(pointer@)) by {
                assert forall|t: Seq<char>| added.contains(t) == (list.contains(t) || t
                    == pointer@) by {
                    if list.contains(t) {
                        let i = choose|i: int| 0 <= i < list.len() && list[i] == t;
                        assert(added[i] == t);
                    }
                    assert(added[list.len() as int] == pointer@);
                }
            }
            assert forall|e: int| 0 <= e < self.positions@.len() implies #[trigger] self.positions@[e]
                < added.len() && added[self.positions@[e] as int] == self.pointers@[e]@ by {
                let p = position as int;
                if e < p {
                    assert(self.positions@[e] == before.positions@[e]);
                    assert(self.pointers@[e] == before.pointers@[e]);
                } else if e > p {
                    assert(self.positions@[e] == before.positions@[e - 1]);
                    assert(self.pointers@[e] == before.pointers@[e - 1]);
                }
            }
        }
    }
}

/// The schemas of a document, and where each stands.
pub struct SchemaPlaces<'a> {
    pub nodes: Vec<RawNode<'a>>,
    pub index: PointerIndex,
}

impl<'a> SchemaPlaces<'a> {
    /// Whether the index is that of the nodes.
    pub open spec fn wf(&self) -> bool {
        self.index.holds(pointers(places(self.nodes@)))
    }
}

/// Lists the schemas of a document: each before those below it, and those below in the order of
/// their pointers.
pub fn index_schema_locations<'a>(root: &'a JsonValue, limit: usize) -> (result: Result<
    SchemaPlaces<'a>,
    CompileError,
>)
    ensures
        match schema_places(*root, limit as nat) {
            Ok(list) => result matches Ok(found) && found.wf() && places(found.nodes@) == list,
            Err(fault) => result matches Err(error) && fault::says(error, fault),
        },
{
    let mut work: Vec<RawNode<'a>> = Vec::new();
    let mut nodes: Vec<RawNode<'a>> = Vec::new();
    let mut index = PointerIndex::new();
    let first = RawNode { pointer: SchemaPointer(String::new()), value: root };
    let ghost start = first@;
    work.push(first);
    proof {
        assert(start.pointer =~= Seq::<char>::empty());
        assert(places(work@) =~= seq![start]);
        assert(places(nodes@) =~= Seq::<Place>::empty());
        assert(pointers(places(nodes@)) =~= Seq::<Seq<char>>::empty());
    }
    while work.len() > 0
        invariant
            nodes@.len() <= limit,
            index.holds(pointers(places(nodes@))),
            walk(places(work@), places(nodes@), limit as nat) == schema_places(
                *root,
                limit as nat,
            ),
        decreases limit - nodes@.len(), work@.len(),
    {
        let ghost todo = places(work@);
        let ghost found = places(nodes@);
        let node = work.pop().unwrap();
        proof {
            assert(todo.last() == node@);
            assert(places(work@) =~= todo.drop_last());
        }
        if index.find(node.pointer.0.as_str(), Ghost(pointers(found))).is_some() {
            continue;
        }
        if nodes.len() >= limit {
            return Err(
                CompileError::ResourceLimitExceeded {
                    stage: CompileStage::SchemaIndex,
                    observed: nodes.len().saturating_add(1),
                    limit,
                },
            );
        }
        let children = schema_children(&node);
        push_reversed(&mut work, children);
        index.add(node.pointer.0.clone(), Ghost(pointers(found)));
        let ghost place = node@;
        nodes.push(node);
        proof {
            assert(places(nodes@) =~= found.push(place));
            assert(pointers(places(nodes@)) =~= pointers(found).push(place.pointer));
        }
    }
    Ok(SchemaPlaces { nodes, index })
}

/// Moves places onto a stack, so that the first comes off first.
fn push_reversed<'a>(work: &mut Vec<RawNode<'a>>, list: Vec<RawNode<'a>>)
    ensures
        places(final(work)@) == places(old(work)@) + places(list@).reverse(),
{
    let ghost given = places(list@);
    let ghost before = places(work@);
    let mut rest = list;
    assert(places(work@) =~= before + given.skip(given.len() as int).reverse());
    while rest.len() > 0
        invariant
            rest@.len() <= given.len(),
            places(rest@) == given.take(rest@.len() as int),
            places(work@) == before + given.skip(rest@.len() as int).reverse(),
        decreases rest@.len(),
    {
        let ghost n = rest@.len() as int;
        let ghost earlier = places(work@);
        let ghost held = places(rest@);
        let node = rest.pop().unwrap();
        let ghost place = node@;
        work.push(node);
        proof {
            assert(held.last() == place);
            assert(place == given[n - 1]);
            assert(places(rest@) =~= given.take(n - 1));
            assert(given.skip(n - 1) =~= seq![place] + given.skip(n));
            assert(given.skip(n - 1).reverse() =~= given.skip(n).reverse().push(place));
            assert(places(work@) =~= earlier.push(place));
            assert(places(work@) =~= before + given.skip(n - 1).reverse());
        }
    }
    assert(given.skip(0) =~= given);
}

} // verus!
