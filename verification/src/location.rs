//! Where the parts of a document stand, and what references name.

use vstd::prelude::*;
use vstd::utf8;

use crate::fault::Fault;
use crate::json;
use crate::json::{JsonMember, JsonValue};
use crate::lexical;
use crate::order;
use crate::places;
use crate::places::Place;
use crate::pointer;
use crate::text;

verus! {

/// A character in a segment of a pointer: tildes and slashes are escaped.
pub open spec fn tilde(c: char) -> Seq<char> {
    if c == '~' {
        seq!['~', '0']
    } else if c == '/' {
        seq!['~', '1']
    } else {
        seq![c]
    }
}

/// A segment as it stands in a pointer.
pub open spec fn segment(s: Seq<char>) -> Seq<char>
    decreases s.len(),
{
    if s.len() == 0 {
        Seq::empty()
    } else {
        segment(s.drop_last()) + tilde(s.last())
    }
}

/// The pointer of a path: a slash and a segment for each step.
pub open spec fn pointer_of(path: Seq<Seq<char>>) -> Seq<char>
    decreases path.len(),
{
    if path.len() == 0 {
        Seq::empty()
    } else {
        pointer_of(path.drop_last()) + seq!['/'] + segment(path.last())
    }
}

/// What stands directly below a value: the member of an object with a key, or the item of an array
/// with a number.
pub open spec fn below(value: JsonValue, step: Seq<char>) -> Option<JsonValue> {
    match value {
        JsonValue::Object(members) => json::find(members@, step),
        JsonValue::Array(values) => if exists|i: int|
            0 <= i < values@.len() && step == #[trigger] text::digits(i as nat) {
            let i = choose|i: int|
                0 <= i < values@.len() && step == #[trigger] text::digits(i as nat);
            Some(values@[i])
        } else {
            None
        },
        _ => None,
    }
}

/// What stands at the end of a path.
pub open spec fn at(root: JsonValue, path: Seq<Seq<char>>) -> Option<JsonValue>
    decreases path.len(),
{
    if path.len() == 0 {
        Some(root)
    } else {
        match at(root, path.drop_last()) {
            Some(value) => below(value, path.last()),
            None => None,
        }
    }
}

/// The value of a digit in base sixteen.
pub open spec fn base_sixteen(byte: u8, value: int) -> bool {
    ||| 0 <= value < 10 && byte == 48 + value
    ||| 10 <= value < 16 && (byte == 87 + value || byte == 55 + value)
}

/// Whether bytes stand for others: each for itself, or a percent sign and two digits for a byte.
pub open spec fn percent(escaped: Seq<u8>, plain: Seq<u8>) -> bool
    decreases escaped.len(),
{
    if escaped.len() == 0 {
        plain.len() == 0
    } else if escaped[0] != 37 {
        plain.len() > 0 && plain[0] == escaped[0] && percent(escaped.skip(1), plain.skip(1))
    } else {
        escaped.len() > 2 && plain.len() > 0 && base_sixteen(escaped[1], plain[0] as int / 16)
            && base_sixteen(escaped[2], plain[0] as int % 16) && percent(
            escaped.skip(3),
            plain.skip(1),
        )
    }
}

/// Whether a reference is a hash sign with the pointer of a path behind it, which may have percent
/// escapes.
pub open spec fn leads_to(reference: Seq<char>, path: Seq<Seq<char>>) -> bool {
    &&& reference.len() > 0
    &&& reference[0] == '#'
    &&& percent(utf8::encode_utf8(reference.skip(1)), utf8::encode_utf8(pointer_of(path)))
}

/// Whether a reference names a part of a document.
pub open spec fn names(root: JsonValue, reference: Seq<char>, target: JsonValue) -> bool {
    exists|path: Seq<Seq<char>>| #[trigger]
        leads_to(reference, path) && at(root, path) == Some(target)
}

/// Segments start as they end.
proof fn lemma_segment_first(c: char, t: Seq<char>)
    ensures
        segment(seq![c] + t) == tilde(c) + segment(t),
    decreases t.len(),
{
    let all = seq![c] + t;
    if t.len() == 0 {
        assert(all.drop_last() =~= Seq::empty());
        assert(segment(all.drop_last()) =~= Seq::empty());
        assert(segment(all) =~= tilde(c));
        assert(tilde(c) + segment(t) =~= tilde(c));
    } else {
        lemma_segment_first(c, t.drop_last());
        assert(all.drop_last() =~= seq![c] + t.drop_last());
        assert(all.last() == t.last());
        assert(tilde(c) + (segment(t.drop_last()) + tilde(t.last())) =~= (tilde(c) + segment(
            t.drop_last(),
        )) + tilde(t.last()));
    }
}

/// Pointers are joined from segments.
pub proof fn lemma_segment(s: Seq<char>)
    ensures
        pointer::escaped(s) == segment(s),
    decreases s.len(),
{
    if s.len() > 0 {
        lemma_segment(s.skip(1));
        assert(seq![s[0]] + s.skip(1) =~= s);
        lemma_segment_first(s[0], s.skip(1));
    }
}

/// One more step makes a pointer longer by a segment.
pub proof fn lemma_step(path: Seq<Seq<char>>, step: Seq<char>)
    ensures
        pointer_of(path.push(step)) == pointer::joined(pointer_of(path), step),
{
    reveal_strlit("/");
    lemma_segment(step);
    assert(path.push(step).drop_last() =~= path);
    assert(seq!['/'] =~= "/"@);
}

proof fn lemma_no_slash(s: Seq<char>, k: int)
    requires
        0 <= k < segment(s).len(),
    ensures
        segment(s)[k] != '/',
    decreases s.len(),
{
    if s.len() > 0 {
        let front = segment(s.drop_last());
        if k < front.len() {
            lemma_no_slash(s.drop_last(), k);
        }
    }
}

proof fn lemma_segment_same(a: Seq<char>, b: Seq<char>)
    requires
        segment(a) == segment(b),
    ensures
        a == b,
{
    lemma_segment(a);
    lemma_segment(b);
    pointer::law_escape_is_read_back(a);
    pointer::law_escape_is_read_back(b);
}

/// Paths with the same pointer are the same.
pub proof fn lemma_path_same(a: Seq<Seq<char>>, b: Seq<Seq<char>>)
    requires
        pointer_of(a) == pointer_of(b),
    ensures
        a == b,
    decreases a.len(),
{
    let x = pointer_of(a);
    if a.len() == 0 {
        if b.len() > 0 {
            assert(pointer_of(b).len() > 0);
        }
        assert(a =~= b);
    } else {
        if b.len() == 0 {
            assert(x.len() > 0);
        }
        let p = pointer_of(a.drop_last()).len() as int;
        let q = pointer_of(b.drop_last()).len() as int;
        assert(x[p] == '/');
        assert(pointer_of(b)[q] == '/');
        if p < q {
            assert(x[q] == segment(a.last())[q - p - 1]);
            lemma_no_slash(a.last(), q - p - 1);
        }
        if q < p {
            assert(x[p] == segment(b.last())[p - q - 1]);
            lemma_no_slash(b.last(), p - q - 1);
        }
        assert(x.take(p) =~= pointer_of(a.drop_last()));
        assert(x.take(p) =~= pointer_of(b.drop_last()));
        assert(x.skip(p + 1) =~= segment(a.last()));
        assert(x.skip(p + 1) =~= segment(b.last()));
        lemma_segment_same(a.last(), b.last());
        lemma_path_same(a.drop_last(), b.drop_last());
        assert(a =~= a.drop_last().push(a.last()));
        assert(b =~= b.drop_last().push(b.last()));
    }
}

/// Numbers that are written alike are the same.
pub proof fn lemma_digits_same(a: nat, b: nat)
    requires
        text::digits(a) == text::digits(b),
    ensures
        a == b,
    decreases a,
{
    let x = text::digits(a);
    let y = text::digits(b);
    if a < 10 {
        assert(x.len() == 1);
        if b >= 10 {
            lemma_digits_some(b / 10);
            assert(y.len() > 1);
        }
        assert(x[0] == y[0]);
        assert((48 + a) as char as int == 48 + a);
        assert((48 + b) as char as int == 48 + b);
    } else {
        lemma_digits_some(a / 10);
        if b < 10 {
            assert(y.len() == 1);
        }
        assert(x.drop_last() =~= text::digits(a / 10));
        assert(y.drop_last() =~= text::digits(b / 10));
        lemma_digits_same(a / 10, b / 10);
        assert(x.last() == y.last());
        assert((48 + a % 10) as char as int == 48 + a % 10);
        assert((48 + b % 10) as char as int == 48 + b % 10);
    }
}

proof fn lemma_digits_some(a: nat)
    ensures
        text::digits(a).len() > 0,
{
}

/// The item with a number stands below an array.
pub proof fn lemma_item_below(value: JsonValue, i: int)
    requires
        value matches JsonValue::Array(values) && 0 <= i < values@.len(),
    ensures
        below(value, text::digits(i as nat)) == Some((value->Array_0)@[i]),
{
    let values = (value->Array_0)@;
    let step = text::digits(i as nat);
    let j = choose|j: int| 0 <= j < values.len() && step == #[trigger] text::digits(j as nat);
    lemma_digits_same(i as nat, j as nat);
}

/// The member with a key that no other has stands below an object.
pub proof fn lemma_find_at(members: Seq<JsonMember>, i: int)
    requires
        text::ascending(json::keys(members)),
        0 <= i < members.len(),
    ensures
        json::find(members, members[i].key@) == Some(members[i].value),
    decreases members.len(),
{
    if i > 0 {
        let all = json::keys(members);
        assert(text::text_before(all[0], all[i]));
        text::lemma_text_total(all[0], all[i]);
        let rest = members.skip(1);
        let keys = json::keys(rest);
        assert forall|a: int, b: int| 0 <= a < b < keys.len() implies text::text_before(
            #[trigger] keys[a],
            #[trigger] keys[b],
        ) by {
            assert(keys[a] == all[a + 1] && keys[b] == all[b + 1]);
        }
        lemma_find_at(rest, i - 1);
        assert(rest[i - 1] == members[i]);
    }
}

/// What is found is a member.
pub proof fn lemma_found(members: Seq<JsonMember>, key: Seq<char>) -> (i: int)
    requires
        json::find(members, key) is Some,
    ensures
        0 <= i < members.len(),
        members[i].key@ == key,
        json::find(members, key) == Some(members[i].value),
    decreases members.len(),
{
    if members[0].key@ == key {
        0
    } else {
        let i = lemma_found(members.skip(1), key);
        assert(members.skip(1)[i] == members[i + 1]);
        i + 1
    }
}

/// Whether a place is that of a part of a document.
pub open spec fn stands(root: JsonValue, place: Place, path: Seq<Seq<char>>) -> bool {
    pointer_of(path) == place.pointer && at(root, path) == Some(place.value)
}

/// Whether a place is that of some part of a document.
pub open spec fn placed(root: JsonValue, place: Place) -> bool {
    exists|path: Seq<Seq<char>>| #[trigger] stands(root, place, path)
}

/// Whether all places are those of parts of a document.
pub open spec fn all_placed(root: JsonValue, list: Seq<Place>) -> bool {
    forall|i: int| 0 <= i < list.len() ==> placed(root, #[trigger] list[i])
}

/// What stands below a part stands one step further.
pub proof fn lemma_below(root: JsonValue, path: Seq<Seq<char>>, step: Seq<char>)
    requires
        at(root, path) is Some,
    ensures
        at(root, path.push(step)) == below(at(root, path)->0, step),
{
    assert(path.push(step).drop_last() =~= path);
}

proof fn lemma_named_placed(
    root: JsonValue,
    path: Seq<Seq<char>>,
    entries: Seq<JsonMember>,
    n: nat,
)
    requires
        at(root, path) matches Some(JsonValue::Object(found)) && found@ == entries,
        text::ascending(json::keys(entries)),
    ensures
        all_placed(root, places::named_places(pointer_of(path), entries, n)),
    decreases n,
{
    if 0 < n <= entries.len() {
        lemma_named_placed(root, path, entries, (n - 1) as nat);
        let entry = entries[n - 1];
        lemma_step(path, entry.key@);
        lemma_below(root, path, entry.key@);
        lemma_find_at(entries, n - 1);
        let place = Place {
            pointer: pointer::joined(pointer_of(path), entry.key@),
            value: entry.value,
        };
        assert(stands(root, place, path.push(entry.key@)));
    }
}

proof fn lemma_listed_placed(
    root: JsonValue,
    path: Seq<Seq<char>>,
    entries: Seq<JsonValue>,
    n: nat,
)
    requires
        at(root, path) matches Some(JsonValue::Array(found)) && found@ == entries,
    ensures
        all_placed(root, places::listed_places(pointer_of(path), entries, n)),
    decreases n,
{
    if 0 < n <= entries.len() {
        lemma_listed_placed(root, path, entries, (n - 1) as nat);
        let step = text::digits((n - 1) as nat);
        lemma_step(path, step);
        lemma_below(root, path, step);
        lemma_item_below(at(root, path)->0, n - 1);
        let place = Place {
            pointer: pointer::joined(pointer_of(path), step),
            value: entries[n - 1],
        };
        assert(stands(root, place, path.push(step)));
    }
}

proof fn lemma_keyword_placed(
    root: JsonValue,
    path: Seq<Seq<char>>,
    members: Seq<JsonMember>,
    keyword: Seq<char>,
)
    requires
        at(root, path) matches Some(JsonValue::Object(found)) && found@ == members,
        forall|i: int| 0 <= i < members.len() ==> json::sorted((#[trigger] members[i]).value),
    ensures
        all_placed(root, places::named_children(pointer_of(path), members, keyword)),
        all_placed(root, places::single_child(pointer_of(path), members, keyword)),
        all_placed(root, places::listed_children(pointer_of(path), members, keyword)),
{
    lemma_step(path, keyword);
    lemma_below(root, path, keyword);
    let longer = path.push(keyword);
    if json::find(members, keyword) is Some {
        let i = lemma_found(members, keyword);
        assert(json::sorted(members[i].value));
        let value = members[i].value;
        let place = Place { pointer: pointer::joined(pointer_of(path), keyword), value };
        assert(stands(root, place, longer));
        match value {
            JsonValue::Object(entries) => {
                lemma_named_placed(root, longer, entries@, entries@.len());
            },
            JsonValue::Array(entries) => {
                lemma_listed_placed(root, longer, entries@, entries@.len());
            },
            _ => {},
        }
    }
}

proof fn lemma_children_placed(root: JsonValue, place: Place)
    requires
        placed(root, place),
        json::sorted(place.value),
    ensures
        all_placed(root, places::children(place)),
{
    let path = choose|path: Seq<Seq<char>>| #[trigger] stands(root, place, path);
    if let JsonValue::Object(members) = place.value {
        let all = members@;
        lemma_keyword_placed(root, path, all, "$defs"@);
        lemma_keyword_placed(root, path, all, "properties"@);
        lemma_keyword_placed(root, path, all, "additionalProperties"@);
        lemma_keyword_placed(root, path, all, "items"@);
        lemma_keyword_placed(root, path, all, "prefixItems"@);
        lemma_keyword_placed(root, path, all, "allOf"@);
        lemma_keyword_placed(root, path, all, "anyOf"@);
        lemma_keyword_placed(root, path, all, "oneOf"@);
    }
}

proof fn lemma_put_placed(root: JsonValue, list: Seq<Place>, place: Place)
    requires
        all_placed(root, list),
        placed(root, place),
    ensures
        all_placed(root, places::put(list, place)),
    decreases list.len(),
{
    if list.len() > 0 && text::text_before(place.pointer, list.last().pointer) {
        lemma_put_placed(root, list.drop_last(), place);
        assert(placed(root, list[list.len() - 1]));
    }
}

proof fn lemma_ordered_placed(root: JsonValue, list: Seq<Place>)
    requires
        all_placed(root, list),
    ensures
        all_placed(root, places::ordered(list)),
    decreases list.len(),
{
    if list.len() > 0 {
        lemma_ordered_placed(root, list.drop_last());
        assert(placed(root, list[list.len() - 1]));
        lemma_put_placed(root, places::ordered(list.drop_last()), list.last());
    }
}

/// What is found from places of a document are places of it.
proof fn lemma_walk_placed(root: JsonValue, work: Seq<Place>, found: Seq<Place>, limit: nat)
    requires
        all_placed(root, work),
        all_placed(root, found),
        order::all_sorted(work),
    ensures
        places::walk(work, found, limit) matches Ok(list) ==> all_placed(root, list),
    decreases limit - found.len(), work.len(),
{
    if work.len() > 0 {
        let last = work.last();
        assert(placed(root, work[work.len() - 1]) && json::sorted(work[work.len() - 1].value));
        let rest = work.drop_last();
        if places::pointers(found).contains(last.pointer) {
            lemma_walk_placed(root, rest, found, limit);
        } else if found.len() < limit {
            lemma_children_placed(root, last);
            order::lemma_children_sorted(last);
            let below = places::ordered(places::children(last));
            lemma_ordered_placed(root, places::children(last));
            order::lemma_ordered_sorted(places::children(last));
            let more = rest + below.reverse();
            assert forall|i: int| 0 <= i < more.len() implies placed(root, #[trigger] more[i])
                && json::sorted(more[i].value) by {
                if i < rest.len() {
                    assert(more[i] == work[i]);
                } else {
                    let j = below.len() - 1 - (i - rest.len());
                    assert(more[i] == below[j]);
                }
            }
            lemma_walk_placed(root, more, found.push(last), limit);
        }
    }
}

/// The places of the schemas of a document are those of parts of it.
pub proof fn lemma_places(root: JsonValue, limit: nat)
    requires
        json::sorted(root),
    ensures
        places::schema_places(root, limit) matches Ok(list) ==> all_placed(root, list),
{
    let first = Place { pointer: Seq::empty(), value: root };
    assert(stands(root, first, Seq::empty()));
    lemma_walk_placed(root, seq![first], Seq::empty(), limit);
}

/// A place with a pointer is that of the part at the end of the path of the pointer.
pub proof fn lemma_value_at(root: JsonValue, place: Place, path: Seq<Seq<char>>)
    requires
        placed(root, place),
        place.pointer == pointer_of(path),
    ensures
        at(root, path) == Some(place.value),
{
    let other = choose|other: Seq<Seq<char>>| #[trigger] stands(root, place, other);
    lemma_path_same(path, other);
}

/// Bytes that are read without their escapes are what they stand for.
proof fn lemma_percent(escaped: Seq<u8>)
    ensures
        pointer::unescaped(escaped) matches Ok(plain) ==> percent(escaped, plain),
    decreases escaped.len(),
{
    if pointer::unescaped(escaped) is Ok && escaped.len() > 0 {
        let plain = pointer::unescaped(escaped)->Ok_0;
        if escaped[0] != 37 {
            lemma_percent(escaped.skip(1));
            let rest = pointer::unescaped(escaped.skip(1))->Ok_0;
            assert(plain == seq![escaped[0]] + rest);
            assert(plain.skip(1) =~= rest);
        } else {
            lemma_percent(escaped.skip(3));
            let rest = pointer::unescaped(escaped.skip(3))->Ok_0;
            let high = pointer::hex_value(escaped[1])->0;
            let low = pointer::hex_value(escaped[2])->0;
            assert(plain == seq![(high * 16 + low) as u8] + rest);
            assert(plain.skip(1) =~= rest);
            assert(plain[0] as int / 16 == high && plain[0] as int % 16 == low);
        }
    }
}

/// Bytes stand for one sequence of bytes.
proof fn lemma_percent_same(escaped: Seq<u8>, a: Seq<u8>, b: Seq<u8>)
    requires
        percent(escaped, a),
        percent(escaped, b),
    ensures
        a == b,
    decreases escaped.len(),
{
    if escaped.len() == 0 {
        assert(a =~= b);
    } else {
        if escaped[0] != 37 {
            lemma_percent_same(escaped.skip(1), a.skip(1), b.skip(1));
        } else {
            lemma_percent_same(escaped.skip(3), a.skip(1), b.skip(1));
            assert(a[0] as int == 16 * (a[0] as int / 16) + a[0] as int % 16);
            assert(b[0] as int == 16 * (b[0] as int / 16) + b[0] as int % 16);
        }
        assert(a[0] == b[0]);
        assert(a =~= seq![a[0]] + a.skip(1));
        assert(b =~= seq![b[0]] + b.skip(1));
    }
}

/// A reference that is resolved to the pointer of a place names what stands there, and nothing else.
pub proof fn law_reference_names_place(
    root: JsonValue,
    source: Seq<char>,
    reference: Seq<char>,
    place: Place,
)
    requires
        placed(root, place),
        pointer::resolved(source, reference) == Ok::<Seq<char>, Fault>(place.pointer),
    ensures
        forall|target: JsonValue| #[trigger]
            names(root, reference, target) <==> target == place.value,
{
    let path = choose|path: Seq<Seq<char>>| #[trigger] stands(root, place, path);
    let escaped = utf8::encode_utf8(reference.skip(1));
    let plain = pointer::unescaped(escaped)->Ok_0;
    lemma_percent(escaped);
    utf8::decode_utf8_encode_utf8(plain);
    assert(utf8::encode_utf8(place.pointer) == plain);
    assert(leads_to(reference, path));
    assert forall|target: JsonValue| #[trigger] names(root, reference, target) implies target
        == place.value by {
        let other = choose|other: Seq<Seq<char>>| #[trigger]
            leads_to(reference, other) && at(root, other) == Some(target);
        lemma_percent_same(escaped, plain, utf8::encode_utf8(pointer_of(other)));
        lexical::lemma_encode_same(place.pointer, pointer_of(other));
        lemma_path_same(path, other);
    }
    assert(names(root, reference, place.value));
}

/// What bytes stand for is read from them.
proof fn lemma_percent_read(escaped: Seq<u8>, plain: Seq<u8>)
    requires
        percent(escaped, plain),
    ensures
        pointer::unescaped(escaped) == Ok::<Seq<u8>, Seq<char>>(plain),
    decreases escaped.len(),
{
    if escaped.len() == 0 {
        assert(plain =~= Seq::empty());
    } else {
        let rest = plain.skip(1);
        assert(plain =~= seq![plain[0]] + rest);
        if escaped[0] != 37 {
            lemma_percent_read(escaped.skip(1), rest);
        } else {
            lemma_percent_read(escaped.skip(3), rest);
            let high = plain[0] as int / 16;
            let low = plain[0] as int % 16;
            assert(pointer::hex_value(escaped[1])->0 == high);
            assert(pointer::hex_value(escaped[2])->0 == low);
            assert(plain[0] as int == high * 16 + low);
        }
    }
}

/// Texts with whole escapes make one with whole escapes.
proof fn lemma_escapes_join(a: Seq<char>, b: Seq<char>)
    requires
        pointer::escapes(a),
        pointer::escapes(b),
    ensures
        pointer::escapes(a + b),
{
    let all = a + b;
    assert forall|i: int| 0 <= i < all.len() implies #[trigger] pointer::escape_at(all, i) by {
        if i < a.len() {
            assert(pointer::escape_at(a, i));
        } else {
            assert(pointer::escape_at(b, i - a.len()));
        }
    }
}

/// The escapes of a segment are whole.
proof fn lemma_segment_escapes(s: Seq<char>)
    ensures
        pointer::escapes(segment(s)),
    decreases s.len(),
{
    if s.len() > 0 {
        lemma_segment_escapes(s.drop_last());
        lemma_escapes_join(segment(s.drop_last()), tilde(s.last()));
    }
}

/// The escapes of a pointer are whole, and it starts with a slash.
proof fn lemma_pointer_escapes(path: Seq<Seq<char>>)
    ensures
        pointer::escapes(pointer_of(path)),
        path.len() > 0 ==> pointer_of(path).len() > 0 && pointer_of(path)[0] == '/',
    decreases path.len(),
{
    if path.len() > 0 {
        let front = pointer_of(path.drop_last());
        lemma_pointer_escapes(path.drop_last());
        lemma_segment_escapes(path.last());
        assert(pointer::escapes(seq!['/']));
        lemma_escapes_join(front, seq!['/']);
        lemma_escapes_join(front + seq!['/'], segment(path.last()));
        if path.len() == 1 {
            assert(front =~= Seq::empty());
        }
    }
}

/// A reference that leads along a path is resolved to the pointer of the path.
pub proof fn law_reference_is_resolved(
    source: Seq<char>,
    reference: Seq<char>,
    path: Seq<Seq<char>>,
)
    requires
        leads_to(reference, path),
    ensures
        pointer::resolved(source, reference) == Ok::<Seq<char>, Fault>(pointer_of(path)),
{
    let aim = pointer_of(path);
    let plain = utf8::encode_utf8(aim);
    lemma_percent_read(utf8::encode_utf8(reference.skip(1)), plain);
    utf8::encode_utf8_valid_utf8(aim);
    utf8::encode_utf8_decode_utf8(aim);
    lemma_pointer_escapes(path);
}

/// A reference that is resolved to the pointer of a path leads along it.
pub proof fn lemma_reference_leads(source: Seq<char>, reference: Seq<char>, path: Seq<Seq<char>>)
    requires
        pointer::resolved(source, reference) == Ok::<Seq<char>, Fault>(pointer_of(path)),
    ensures
        leads_to(reference, path),
{
    let escaped = utf8::encode_utf8(reference.skip(1));
    let plain = pointer::unescaped(escaped)->Ok_0;
    lemma_percent(escaped);
    utf8::decode_utf8_encode_utf8(plain);
    assert(utf8::encode_utf8(pointer_of(path)) == plain);
}

} // verus!
