//! JSON Pointers: their segments, and the references that name them.

use vstd::prelude::*;
use vstd::string::*;
use vstd::utf8;

use crate::error::CompileError;
use crate::fault;
use crate::fault::Fault;
use crate::schema::{DiagnosticLocation, ResourceId, SchemaPointer};
use crate::text;

verus! {

/// A segment with its tildes and slashes escaped.
pub open spec fn escaped(segment: Seq<char>) -> Seq<char>
    decreases segment.len(),
{
    if segment.len() == 0 {
        Seq::empty()
    } else {
        (if segment[0] == '~' {
            seq!['~', '0']
        } else if segment[0] == '/' {
            seq!['~', '1']
        } else {
            seq![segment[0]]
        }) + escaped(segment.skip(1))
    }
}

/// A segment without its escapes, if all of them can be read.
pub open spec fn decoded(segment: Seq<char>) -> Option<Seq<char>>
    decreases segment.len(),
{
    if segment.len() == 0 {
        Some(Seq::empty())
    } else if segment[0] != '~' {
        prepended(seq![segment[0]], decoded(segment.skip(1)))
    } else if segment.len() > 1 && segment[1] == '0' {
        prepended(seq!['~'], decoded(segment.skip(2)))
    } else if segment.len() > 1 && segment[1] == '1' {
        prepended(seq!['/'], decoded(segment.skip(2)))
    } else {
        None
    }
}

/// A text before another, if there is one.
pub open spec fn prepended(first: Seq<char>, rest: Option<Seq<char>>) -> Option<Seq<char>> {
    match rest {
        Some(rest) => Some(first + rest),
        None => None,
    }
}

/// A pointer with one more segment.
pub open spec fn joined(pointer: Seq<char>, segment: Seq<char>) -> Seq<char> {
    pointer + "/"@ + escaped(segment)
}

/// Whether a tilde at a place starts an escape.
pub open spec fn escape_at(chars: Seq<char>, i: int) -> bool {
    chars[i] == '~' ==> i + 1 < chars.len() && (chars[i + 1] == '0' || chars[i + 1] == '1')
}

/// Whether every tilde starts an escape.
pub open spec fn escapes(chars: Seq<char>) -> bool {
    forall|i: int| 0 <= i < chars.len() ==> #[trigger] escape_at(chars, i)
}

/// Unescaping takes back what escaping did: every segment can be read from its escaped form.
pub proof fn law_escape_is_read_back(segment: Seq<char>)
    ensures
        decoded(escaped(segment)) == Some(segment),
    decreases segment.len(),
{
    reveal_with_fuel(decoded, 2);
    if segment.len() > 0 {
        let rest = segment.skip(1);
        law_escape_is_read_back(rest);
        let whole = escaped(segment);
        if segment[0] == '~' || segment[0] == '/' {
            assert(whole.skip(2) =~= escaped(rest));
        } else {
            assert(whole.skip(1) =~= escaped(rest));
        }
        assert(seq![segment[0]] + rest =~= segment);
    } else {
        assert(segment =~= Seq::<char>::empty());
    }
}

/// A segment can be read where every tilde starts an escape, and escaping gives it back.
proof fn lemma_decoded(segment: Seq<char>)
    requires
        forall|i: int| 0 <= i < segment.len() ==> segment[i] != '/',
    ensures
        decoded(segment) is Some <==> escapes(segment),
        decoded(segment) matches Some(text) ==> escaped(text) == segment,
    decreases segment.len(),
{
    if segment.len() == 0 {
        assert(escaped(Seq::empty()) =~= segment);
    } else {
        assert(escape_at(segment, 0) || !escapes(segment));
        let plain = segment[0] != '~';
        let width = if plain {
            1int
        } else {
            2int
        };
        if plain || escape_at(segment, 0) {
            let rest = segment.skip(width);
            lemma_decoded(rest);
            if escapes(segment) {
                assert forall|i: int| 0 <= i < rest.len() implies #[trigger] escape_at(rest, i) by {
                    assert(escape_at(segment, i + width));
                }
            }
            if escapes(rest) {
                assert forall|i: int| 0 <= i < segment.len() implies #[trigger] escape_at(
                    segment,
                    i,
                ) by {
                    if i >= width {
                        assert(escape_at(rest, i - width));
                    }
                }
            }
            if decoded(rest) is Some {
                let text = decoded(segment)->0;
                assert(text.skip(1) =~= decoded(rest)->0);
                assert(escaped(text) =~= segment);
            }
        }
    }
}

/// Escapes a segment.
pub fn escape_pointer_segment(segment: &str) -> (text: String)
    ensures
        text@ == escaped(segment@),
{
    let mut output = String::new();
    let length: usize = segment.unicode_len();
    let mut index: usize = 0;
    assert(segment@.skip(0) =~= segment@);
    while index < length
        invariant
            index <= length == segment@.len(),
            output@ + escaped(segment@.skip(index as int)) =~= escaped(segment@),
        decreases length - index,
    {
        let ghost rest = segment@.skip(index as int);
        let character: char = segment.get_char(index);
        assert(rest[0] == character);
        assert(rest.skip(1) =~= segment@.skip(index + 1));
        if character == '~' {
            text::push_char(&mut output, '~');
            text::push_char(&mut output, '0');
        } else if character == '/' {
            text::push_char(&mut output, '~');
            text::push_char(&mut output, '1');
        } else {
            text::push_char(&mut output, character);
        }
        index += 1;
    }
    assert(segment@.skip(length as int) =~= Seq::<char>::empty());
    assert(output@ =~= escaped(segment@));
    output
}

/// Takes back the escapes of a segment.
pub fn decode_pointer_segment(value: &str) -> (result: Result<String, String>)
    ensures
        result is Ok == decoded(value@) is Some,
        result matches Ok(text) ==> decoded(value@) == Some(text@),
        result matches Err(reason) ==> reason@ == "invalid RFC 6901 escape"@,
{
    let mut output = String::new();
    let length: usize = value.unicode_len();
    let mut index: usize = 0;
    assert(value@.skip(0) =~= value@);
    assert(prepended(output@, decoded(value@)) == decoded(value@)) by {
        if decoded(value@) is Some {
            assert(output@ + decoded(value@)->0 =~= decoded(value@)->0);
        }
    }
    while index < length
        invariant
            index <= length == value@.len(),
            prepended(output@, decoded(value@.skip(index as int))) == decoded(value@),
        decreases length - index,
    {
        let ghost rest = value@.skip(index as int);
        let ghost before = output@;
        let character: char = value.get_char(index);
        assert(rest[0] == character);
        assert(rest.skip(1) =~= value@.skip(index + 1));
        if character != '~' {
            text::push_char(&mut output, character);
            index += 1;
        } else {
            let next: Option<char> = if length - index > 1 {
                assert(rest[1] == value@[index + 1]);
                assert(rest.skip(2) =~= value@.skip(index + 2));
                Some(value.get_char(index + 1))
            } else {
                None
            };
            if next == Some('0') {
                text::push_char(&mut output, '~');
            } else if next == Some('1') {
                text::push_char(&mut output, '/');
            } else {
                return Err("invalid RFC 6901 escape".to_owned());
            }
            index += 2;
        }
        proof {
            if decoded(value@.skip(index as int)) is Some {
                let tail = decoded(value@.skip(index as int))->0;
                assert(before + (seq![output@.last()] + tail) =~= output@ + tail);
            }
        }
    }
    proof {
        assert(value@.skip(length as int) =~= Seq::<char>::empty());
        assert(output@ + Seq::<char>::empty() =~= output@);
    }
    Ok(output)
}

/// Adds a segment to a pointer.
pub fn pointer_join(pointer: &SchemaPointer, segment: &str) -> (longer: SchemaPointer)
    ensures
        longer.0@ == joined(pointer.0@, segment@),
{
    let mut text = pointer.0.clone();
    text.append("/");
    text.append(escape_pointer_segment(segment).as_str());
    SchemaPointer(text)
}

/// The value of a hexadecimal digit.
pub open spec fn hex_value(byte: u8) -> Option<u8> {
    if 48 <= byte <= 57 {
        Some((byte - 48) as u8)
    } else if 97 <= byte <= 102 {
        Some((byte - 87) as u8)
    } else if 65 <= byte <= 70 {
        Some((byte - 55) as u8)
    } else {
        None
    }
}

/// Reads a hexadecimal digit.
fn hex(byte: u8) -> (value: Option<u8>)
    ensures
        value == hex_value(byte),
{
    if 48 <= byte && byte <= 57 {
        Some(byte - 48)
    } else if 97 <= byte && byte <= 102 {
        Some(byte - 87)
    } else if 65 <= byte && byte <= 70 {
        Some(byte - 55)
    } else {
        None
    }
}

/// Bytes without their percent escapes, or why one cannot be read.
pub open spec fn unescaped(bytes: Seq<u8>) -> Result<Seq<u8>, Seq<char>>
    decreases bytes.len(),
{
    if bytes.len() == 0 {
        Ok(Seq::empty())
    } else if bytes[0] != 37 {
        behind(seq![bytes[0]], unescaped(bytes.skip(1)))
    } else if bytes.len() < 3 {
        Err("truncated percent escape"@)
    } else {
        match (hex_value(bytes[1]), hex_value(bytes[2])) {
            (Some(high), Some(low)) => behind(
                seq![(high * 16 + low) as u8],
                unescaped(bytes.skip(3)),
            ),
            _ => Err("invalid percent escape"@),
        }
    }
}

/// Bytes before others, if there are any.
pub open spec fn behind(first: Seq<u8>, rest: Result<Seq<u8>, Seq<char>>) -> Result<
    Seq<u8>,
    Seq<char>,
> {
    match rest {
        Ok(rest) => Ok(first + rest),
        Err(reason) => Err(reason),
    }
}

/// The text that bytes with percent escapes stand for, or why they stand for none.
pub open spec fn fragment_text(bytes: Seq<u8>) -> Result<Seq<char>, Seq<char>> {
    match unescaped(bytes) {
        Ok(plain) => if utf8::valid_utf8(plain) {
            Ok(utf8::decode_utf8(plain))
        } else {
            Err("fragment is not valid UTF-8"@)
        },
        Err(reason) => Err(reason),
    }
}

/// Takes back the percent escapes of bytes from a place on.
fn percent_decode(bytes: &[u8], from: usize) -> (result: Result<String, String>)
    requires
        from <= bytes@.len(),
    ensures
        result is Ok == fragment_text(bytes@.skip(from as int)) is Ok,
        result matches Ok(text) ==> fragment_text(bytes@.skip(from as int)) == Ok::<
            Seq<char>,
            Seq<char>,
        >(text@),
        result matches Err(reason) ==> fragment_text(bytes@.skip(from as int)) == Err::<
            Seq<char>,
            Seq<char>,
        >(reason@),
{
    let ghost all = bytes@.skip(from as int);
    let mut plain: Vec<u8> = Vec::new();
    let mut index: usize = from;
    assert(behind(plain@, unescaped(all)) == unescaped(all)) by {
        if unescaped(all) is Ok {
            assert(plain@ + unescaped(all)->Ok_0 =~= unescaped(all)->Ok_0);
        }
    }
    while index < bytes.len()
        invariant
            from <= index <= bytes@.len(),
            all == bytes@.skip(from as int),
            behind(plain@, unescaped(bytes@.skip(index as int))) == unescaped(all),
        decreases bytes@.len() - index,
    {
        let ghost rest = bytes@.skip(index as int);
        let ghost before = plain@;
        assert(rest[0] == bytes@[index as int]);
        if bytes[index] == 37 {
            if bytes.len() - index < 3 {
                return Err("truncated percent escape".to_owned());
            }
            assert(rest[1] == bytes@[index + 1] && rest[2] == bytes@[index + 2]);
            assert(rest.skip(3) =~= bytes@.skip(index + 3));
            match (hex(bytes[index + 1]), hex(bytes[index + 2])) {
                (Some(high), Some(low)) => {
                    plain.push(high * 16 + low);
                },
                _ => {
                    return Err("invalid percent escape".to_owned());
                },
            }
            index += 3;
        } else {
            assert(rest.skip(1) =~= bytes@.skip(index + 1));
            plain.push(bytes[index]);
            index += 1;
        }
        proof {
            if unescaped(bytes@.skip(index as int)) is Ok {
                let tail = unescaped(bytes@.skip(index as int))->Ok_0;
                assert(before + (seq![plain@.last()] + tail) =~= plain@ + tail);
            }
        }
    }
    proof {
        assert(bytes@.skip(index as int) =~= Seq::<u8>::empty());
        assert(plain@ + Seq::<u8>::empty() =~= plain@);
    }
    match text::decode_text(plain) {
        Some(text) => {
            proof {
                utf8::encode_utf8_decode_utf8(text@);
            }
            Ok(text)
        },
        None => Err("fragment is not valid UTF-8".to_owned()),
    }
}

/// The location of a keyword.
pub(crate) fn keyword_location(pointer: &SchemaPointer, keyword: &str) -> (location:
    DiagnosticLocation)
    ensures
        fault::stands(location, pointer.0@, Some(keyword@)),
{
    DiagnosticLocation {
        resource: ResourceId(0),
        pointer: pointer.clone(),
        keyword: Some(keyword.to_owned()),
    }
}

/// The pointer that a local reference names, or why it names none.
pub open spec fn resolved(source: Seq<char>, reference: Seq<char>) -> Result<Seq<char>, Fault> {
    if reference.len() == 0 || reference[0] != '#' {
        Err(Fault::Remote { pointer: source, reference })
    } else {
        match fragment_text(utf8::encode_utf8(reference.skip(1))) {
            Ok(text) => if text.len() == 0 {
                Ok(text)
            } else if text[0] != '/' {
                Err(
                    Fault::Fragment {
                        pointer: source,
                        reference,
                        reason: "only JSON Pointer fragments are supported"@,
                    },
                )
            } else if !escapes(text) {
                Err(
                    Fault::Fragment {
                        pointer: source,
                        reference,
                        reason: "invalid RFC 6901 escape"@,
                    },
                )
            } else {
                Ok(text)
            },
            Err(reason) => Err(Fault::Fragment { pointer: source, reference, reason }),
        }
    }
}

/// Whether a result is as stated.
pub open spec fn resolves(
    result: Result<SchemaPointer, CompileError>,
    expected: Result<Seq<char>, Fault>,
) -> bool {
    match expected {
        Ok(pointer) => result matches Ok(found) && found.0@ == pointer,
        Err(fault) => result matches Err(error) && fault::says(error, fault),
    }
}

/// The error of a reference that cannot be read.
fn bad_fragment(source: &SchemaPointer, reference: &str, reason: String) -> (error: CompileError)
    ensures
        fault::says(
            error,
            Fault::Fragment { pointer: source.0@, reference: reference@, reason: reason@ },
        ),
{
    CompileError::InvalidJsonPointer {
        location: keyword_location(source, "$ref"),
        pointer: reference.to_owned(),
        reason,
    }
}

/// Reads the segments of a pointer, and puts them together again.
fn canonical_pointer(text: &str) -> (result: Result<String, String>)
    requires
        text@.len() > 0,
        text@[0] == '/',
    ensures
        result is Ok == escapes(text@),
        result matches Ok(pointer) ==> pointer@ == text@,
        result matches Err(reason) ==> reason@ == "invalid RFC 6901 escape"@,
{
    let length: usize = text.unicode_len();
    let mut canonical = String::new();
    let mut start: usize = 0;
    assert(text@.take(0) =~= Seq::<char>::empty());
    while start < length
        invariant
            start <= length == text@.len(),
            start < length ==> text@[start as int] == '/',
            canonical@ == text@.take(start as int),
            forall|i: int| 0 <= i < start ==> #[trigger] escape_at(text@, i),
        decreases length - start,
    {
        let mut end: usize = start + 1;
        while end < length && text.get_char(end) != '/'
            invariant
                start < end <= length == text@.len(),
                forall|i: int| start < i < end ==> text@[i] != '/',
            decreases length - end,
        {
            end += 1;
        }
        let raw = text.substring_char(start + 1, end);
        proof {
            lemma_decoded(raw@);
            assert forall|i: int| start < i < end implies (#[trigger] escape_at(text@, i)
                == escape_at(raw@, i - start - 1)) by {
                assert(raw@[i - start - 1] == text@[i]);
                if i + 1 < end {
                    assert(raw@[i - start] == text@[i + 1]);
                }
            }
        }
        let segment = match decode_pointer_segment(raw) {
            Ok(segment) => segment,
            Err(reason) => {
                proof {
                    let i = choose|i: int| 0 <= i < raw@.len() && !#[trigger] escape_at(raw@, i);
                    assert(!escape_at(text@, i + start + 1));
                }
                return Err(reason);
            },
        };
        let ghost before = canonical@;
        text::push_char(&mut canonical, '/');
        canonical.append(escape_pointer_segment(segment.as_str()).as_str());
        proof {
            assert(canonical@ =~= text@.take(end as int));
            assert forall|i: int| 0 <= i < end implies #[trigger] escape_at(text@, i) by {
                if i > start {
                    assert(escape_at(raw@, i - start - 1));
                }
            }
        }
        start = end;
    }
    assert(text@.take(length as int) =~= text@);
    Ok(canonical)
}

/// Finds the pointer that a local reference names.
pub fn resolve_local_pointer(source: &SchemaPointer, reference: &str) -> (result: Result<
    SchemaPointer,
    CompileError,
>)
    ensures
        resolves(result, resolved(source.0@, reference@)),
{
    if reference.unicode_len() == 0 || reference.get_char(0) != '#' {
        return Err(
            CompileError::RemoteReferenceUnsupported {
                location: keyword_location(source, "$ref"),
                reference: reference.to_owned(),
            },
        );
    }
    let bytes = reference.as_bytes();
    proof {
        lemma_first_byte(reference@);
    }
    let text = match percent_decode(bytes, 1) {
        Ok(text) => text,
        Err(reason) => {
            return Err(bad_fragment(source, reference, reason));
        },
    };
    if text.as_str().unicode_len() == 0 {
        assert(text@ =~= Seq::<char>::empty());
        return Ok(SchemaPointer(String::new()));
    }
    if text.as_str().get_char(0) != '/' {
        return Err(
            bad_fragment(
                source,
                reference,
                "only JSON Pointer fragments are supported".to_owned(),
            ),
        );
    }
    match canonical_pointer(text.as_str()) {
        Ok(canonical) => Ok(SchemaPointer(canonical)),
        Err(reason) => Err(bad_fragment(source, reference, reason)),
    }
}

/// A hash sign is one byte of a text.
proof fn lemma_first_byte(reference: Seq<char>)
    requires
        reference.len() > 0,
        reference[0] == '#',
    ensures
        utf8::encode_utf8(reference).len() > 0,
        utf8::encode_utf8(reference).skip(1) == utf8::encode_utf8(reference.skip(1)),
{
    assert(reference.drop_first() =~= reference.skip(1));
    let first = utf8::encode_scalar(reference[0] as u32);
    assert(first.len() == 1);
    assert(utf8::encode_utf8(reference).skip(1) =~= utf8::encode_utf8(reference.skip(1)));
}

} // verus!
