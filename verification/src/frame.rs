//! The frame of a stored object: magic bytes, the version of the format, the kind of the object,
//! and the payload.

use vstd::prelude::*;
use vstd::slice::slice_subrange;

use crate::schema::COMPILED_FORMAT_VERSION;
use crate::text;

verus! {

/// The number of bytes before the payload.
pub const SERIAL_HEADER_LEN: usize = 13;

/// The kinds of objects that are stored.
#[derive(Clone, Copy, Debug, PartialEq, Eq, Structural)]
pub enum ObjectKind {
    Index,
    Guide,
    Vocabulary,
    CompiledSchema,
}

/// The byte of a kind.
pub open spec fn kind_byte(kind: ObjectKind) -> u8 {
    match kind {
        ObjectKind::Index => 1,
        ObjectKind::Guide => 2,
        ObjectKind::Vocabulary => 3,
        ObjectKind::CompiledSchema => 4,
    }
}

/// The bytes with which every frame begins: `OCEARLEY`.
pub open spec fn magic() -> Seq<u8> {
    seq![79u8, 67u8, 69u8, 65u8, 82u8, 76u8, 69u8, 89u8]
}

/// The number that four bytes stand for, the lowest first.
pub open spec fn number(bytes: Seq<u8>) -> int {
    bytes[0] + 256 * bytes[1] + 65536 * bytes[2] + 16777216 * bytes[3]
}

/// The bytes of a number, the lowest first.
pub open spec fn number_bytes(value: u32) -> Seq<u8> {
    seq![
        (value % 256) as u8,
        (value / 256 % 256) as u8,
        (value / 65536 % 256) as u8,
        (value / 16777216) as u8,
    ]
}

/// What stands before the payload.
pub open spec fn header(kind: ObjectKind) -> Seq<u8> {
    magic() + number_bytes(COMPILED_FORMAT_VERSION) + seq![kind_byte(kind)]
}

/// What is said of an object that cannot be read.
pub open spec fn unreadable(label: Seq<char>, reason: Seq<char>) -> Seq<char> {
    "Deserialization of "@ + label + " failed: "@ + reason
}

/// The payload of a frame, or why it is none.
pub open spec fn opened(frame: Seq<u8>, kind: ObjectKind, label: Seq<char>) -> Result<
    Seq<u8>,
    Seq<char>,
> {
    if frame.len() < SERIAL_HEADER_LEN {
        Err(unreadable(label, "truncated header"@))
    } else if frame.take(8) != magic() {
        Err(unreadable(label, "invalid magic bytes"@))
    } else if number(frame.subrange(8, 12)) != COMPILED_FORMAT_VERSION {
        Err(
            "compiled format version "@ + text::digits(number(frame.subrange(8, 12)) as nat)
                + " is unsupported; expected "@ + text::digits(COMPILED_FORMAT_VERSION as nat),
        )
    } else if frame[12] != kind_byte(kind) {
        Err(unreadable(label, "wrong object kind"@))
    } else {
        Ok(frame.skip(13))
    }
}

/// The byte of a kind.
fn byte_of(kind: ObjectKind) -> (byte: u8)
    ensures
        byte == kind_byte(kind),
{
    match kind {
        ObjectKind::Index => 1,
        ObjectKind::Guide => 2,
        ObjectKind::Vocabulary => 3,
        ObjectKind::CompiledSchema => 4,
    }
}

/// Puts a payload into a frame.
pub fn encode_object(payload: &[u8], kind: ObjectKind, label: &str) -> (result: Result<
    Vec<u8>,
    String,
>)
    ensures
        result is Ok <==> payload@.len() + SERIAL_HEADER_LEN <= usize::MAX,
        result matches Ok(frame) ==> frame@ == header(kind) + payload@,
        result matches Err(message) ==> message@ == "Serialization of "@ + label@
            + " is too large"@,
{
    if payload.len() > usize::MAX - SERIAL_HEADER_LEN {
        let mut message = "Serialization of ".to_owned();
        message.append(label);
        message.append(" is too large");
        return Err(message);
    }
    let mut frame: Vec<u8> = vec![79, 67, 69, 65, 82, 76, 69, 89];
    let version: u32 = COMPILED_FORMAT_VERSION;
    frame.push((version % 256) as u8);
    frame.push((version / 256 % 256) as u8);
    frame.push((version / 65536 % 256) as u8);
    frame.push((version / 16777216) as u8);
    frame.push(byte_of(kind));
    assert(frame@ =~= header(kind));
    frame.extend_from_slice(payload);
    assert(frame@ =~= header(kind) + payload@);
    Ok(frame)
}

/// What is said of an object that cannot be read.
fn unreadable_message(label: &str, reason: &str) -> (message: String)
    ensures
        message@ == unreadable(label@, reason@),
{
    let mut message = "Deserialization of ".to_owned();
    message.append(label);
    message.append(" failed: ");
    message.append(reason);
    message
}

/// Whether a frame begins with the magic bytes.
fn has_magic(frame: &[u8]) -> (found: bool)
    requires
        frame@.len() >= 8,
    ensures
        found == (frame@.take(8) == magic()),
{
    let found = frame[0] == 79 && frame[1] == 67 && frame[2] == 69 && frame[3] == 65 && frame[4]
        == 82 && frame[5] == 76 && frame[6] == 69 && frame[7] == 89;
    proof {
        let front = frame@.take(8);
        if found {
            assert(front =~= magic());
        }
        if front == magic() {
            assert(front[0] == 79 && front[1] == 67 && front[2] == 69 && front[3] == 65);
            assert(front[4] == 82 && front[5] == 76 && front[6] == 69 && front[7] == 89);
        }
    }
    found
}

/// Takes the payload out of a frame.
pub fn decode_object<'a>(frame: &'a [u8], kind: ObjectKind, label: &str) -> (result: Result<
    &'a [u8],
    String,
>)
    ensures
        match opened(frame@, kind, label@) {
            Ok(payload) => result matches Ok(found) && found@ == payload,
            Err(message) => result matches Err(found) && found@ == message,
        },
{
    if frame.len() < SERIAL_HEADER_LEN {
        return Err(unreadable_message(label, "truncated header"));
    }
    if !has_magic(frame) {
        return Err(unreadable_message(label, "invalid magic bytes"));
    }
    let version: u32 = frame[8] as u32 + 256 * frame[9] as u32 + 65536 * frame[10] as u32 + 16777216
        * frame[11] as u32;
    assert(version == number(frame@.subrange(8, 12)));
    if version != COMPILED_FORMAT_VERSION {
        let mut message = "compiled format version ".to_owned();
        message.append(text::decimal(version as usize).as_str());
        message.append(" is unsupported; expected ");
        message.append(text::decimal(COMPILED_FORMAT_VERSION as usize).as_str());
        return Err(message);
    }
    if frame[12] != byte_of(kind) {
        return Err(unreadable_message(label, "wrong object kind"));
    }
    let payload = slice_subrange(frame, SERIAL_HEADER_LEN, frame.len());
    assert(payload@ =~= frame@.skip(13));
    Ok(payload)
}

/// Refuses a payload that was not read to its end.
pub fn check_consumed(consumed: usize, length: usize, label: &str) -> (result: Result<(), String>)
    ensures
        result is Ok <==> consumed == length,
        result matches Err(message) ==> message@ == unreadable(label@, "trailing data"@),
{
    if consumed != length {
        Err(unreadable_message(label, "trailing data"))
    } else {
        Ok(())
    }
}

/// A frame gives back the payload that was put into it.
pub proof fn law_frame_is_read_back(payload: Seq<u8>, kind: ObjectKind, label: Seq<char>)
    ensures
        opened(header(kind) + payload, kind, label) == Ok::<Seq<u8>, Seq<char>>(payload),
{
    let frame = header(kind) + payload;
    assert(frame.take(8) =~= magic());
    assert(frame.subrange(8, 12) =~= number_bytes(COMPILED_FORMAT_VERSION));
    assert(frame.skip(13) =~= payload);
}

/// A frame is refused where an object of another kind is looked for.
pub proof fn law_frame_tells_kinds_apart(
    payload: Seq<u8>,
    kind: ObjectKind,
    other: ObjectKind,
    label: Seq<char>,
)
    requires
        kind != other,
    ensures
        opened(header(kind) + payload, other, label) is Err,
{
    let frame = header(kind) + payload;
    assert(frame[12] == kind_byte(kind));
}

} // verus!
