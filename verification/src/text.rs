//! Strings: comparison, and the outside functions that rewrite them.

use std::sync::Arc;

use vstd::prelude::*;
use vstd::utf8;

use crate::dense;

verus! {

/// Whether one byte string comes before another in lexicographic order.
pub open spec fn bytes_before(left: Seq<u8>, right: Seq<u8>) -> bool
    decreases left.len(),
{
    if right.len() == 0 {
        false
    } else if left.len() == 0 {
        true
    } else if left[0] != right[0] {
        left[0] < right[0]
    } else {
        bytes_before(left.skip(1), right.skip(1))
    }
}

/// Whether one byte string comes before another in lexicographic order.
pub fn is_before(left: &[u8], right: &[u8]) -> (before: bool)
    ensures
        before == bytes_before(left@, right@),
{
    let mut index: usize = 0;
    proof {
        assert(left@.skip(0) =~= left@);
        assert(right@.skip(0) =~= right@);
    }
    while index < left.len() && index < right.len()
        invariant
            index <= left@.len(),
            index <= right@.len(),
            bytes_before(left@, right@) == bytes_before(
                left@.skip(index as int),
                right@.skip(index as int),
            ),
        decreases left@.len() - index,
    {
        let ghost l = left@.skip(index as int);
        let ghost r = right@.skip(index as int);
        assert(l[0] == left@[index as int] && r[0] == right@[index as int]);
        if left[index] != right[index] {
            return left[index] < right[index];
        }
        proof {
            assert(l.skip(1) =~= left@.skip(index + 1));
            assert(r.skip(1) =~= right@.skip(index + 1));
        }
        index += 1;
    }
    index < right.len()
}

/// Whether two byte strings are the same.
pub fn same_bytes(left: &[u8], right: &[u8]) -> (same: bool)
    ensures
        same == (left@ == right@),
{
    if left.len() != right.len() {
        return false;
    }
    let mut index: usize = 0;
    while index < left.len()
        invariant
            index <= left@.len() == right@.len(),
            forall|i: int| 0 <= i < index ==> left@[i] == right@[i],
        decreases left@.len() - index,
    {
        if left[index] != right[index] {
            return false;
        }
        index += 1;
    }
    assert(left@ =~= right@);
    true
}

/// Whether two strings are the same.
pub fn same_text(left: &str, right: &str) -> (same: bool)
    ensures
        same == (left@ == right@),
{
    proof {
        utf8::encode_utf8_decode_utf8(left@);
        utf8::encode_utf8_decode_utf8(right@);
    }
    same_bytes(left.as_bytes(), right.as_bytes())
}

/// Of two different byte strings exactly one comes before the other, and none before itself.
pub proof fn lemma_before_total(left: Seq<u8>, right: Seq<u8>)
    ensures
        bytes_before(left, right) || bytes_before(right, left) || left == right,
        !(bytes_before(left, right) && bytes_before(right, left)),
        !bytes_before(left, left),
    decreases left.len(),
{
    if left.len() > 0 {
        lemma_before_total(left.skip(1), left.skip(1));
    }
    if left.len() > 0 && right.len() > 0 && left[0] == right[0] {
        lemma_before_total(left.skip(1), right.skip(1));
        if left.skip(1) == right.skip(1) {
            assert(left =~= seq![left[0]] + left.skip(1));
            assert(right =~= seq![right[0]] + right.skip(1));
        }
    }
    if left.len() == 0 && right.len() == 0 {
        assert(left =~= right);
    }
}

/// What comes before a byte string comes before all that follow it.
pub proof fn lemma_before_transitive(first: Seq<u8>, second: Seq<u8>, third: Seq<u8>)
    requires
        bytes_before(first, second),
        bytes_before(second, third),
    ensures
        bytes_before(first, third),
    decreases first.len(),
{
    if first.len() > 0 && first[0] == second[0] && second[0] == third[0] {
        lemma_before_transitive(first.skip(1), second.skip(1), third.skip(1));
    }
}

/// Whether one text comes before another: by the bytes of their UTF-8 forms.
pub open spec fn text_before(left: Seq<char>, right: Seq<char>) -> bool {
    bytes_before(utf8::encode_utf8(left), utf8::encode_utf8(right))
}

/// Of two different texts exactly one comes before the other, and none before itself.
pub proof fn lemma_text_total(left: Seq<char>, right: Seq<char>)
    ensures
        text_before(left, right) || text_before(right, left) || left == right,
        !(text_before(left, right) && text_before(right, left)),
        !text_before(left, left),
{
    lemma_before_total(utf8::encode_utf8(left), utf8::encode_utf8(right));
    utf8::encode_utf8_decode_utf8(left);
    utf8::encode_utf8_decode_utf8(right);
}

/// What comes before a text comes before all that follow it.
pub proof fn lemma_text_transitive(first: Seq<char>, second: Seq<char>, third: Seq<char>)
    requires
        text_before(first, second),
        text_before(second, third),
    ensures
        text_before(first, third),
{
    lemma_before_transitive(
        utf8::encode_utf8(first),
        utf8::encode_utf8(second),
        utf8::encode_utf8(third),
    );
}

/// Whether one text comes before another.
pub fn is_text_before(left: &str, right: &str) -> (before: bool)
    ensures
        before == text_before(left@, right@),
{
    is_before(left.as_bytes(), right.as_bytes())
}

/// Whether texts come in strictly ascending order.
pub open spec fn ascending(list: Seq<Seq<char>>) -> bool {
    forall|i: int, j: int| 0 <= i < j < list.len() ==> text_before(#[trigger] list[i], #[trigger] list[j])
}

/// The texts of strings.
pub open spec fn texts(list: Seq<String>) -> Seq<Seq<char>> {
    list.map_values(|text: String| text@)
}

/// Finds where a text stands among ascending texts, or would stand.
pub fn text_position(list: &Vec<String>, text: &str) -> (position: usize)
    requires
        ascending(texts(list@)),
    ensures
        position <= list@.len(),
        forall|i: int| 0 <= i < position ==> text_before((#[trigger] list@[i])@, text@),
        forall|i: int| position <= i < list@.len() ==> !text_before((#[trigger] list@[i])@, text@),
        texts(list@).contains(text@) <==> position < list@.len() && list@[position as int]@
            == text@,
{
    let mut low: usize = 0;
    let mut high: usize = list.len();
    while low < high
        invariant
            low <= high <= list@.len(),
            ascending(texts(list@)),
            forall|i: int| 0 <= i < low ==> text_before((#[trigger] list@[i])@, text@),
            forall|i: int| high <= i < list@.len() ==> !text_before((#[trigger] list@[i])@, text@),
        decreases high - low,
    {
        let middle: usize = low + (high - low) / 2;
        let ghost at = list@[middle as int]@;
        let ghost all = texts(list@);
        if is_text_before(list[middle].as_str(), text) {
            proof {
                assert forall|i: int| 0 <= i < middle + 1 implies text_before(
                    (#[trigger] list@[i])@,
                    text@,
                ) by {
                    if i < middle {
                        assert(text_before(all[i], all[middle as int]));
                        lemma_text_transitive(list@[i]@, at, text@);
                    }
                }
            }
            low = middle + 1;
        } else {
            proof {
                assert forall|i: int| middle <= i < list@.len() implies !text_before(
                    (#[trigger] list@[i])@,
                    text@,
                ) by {
                    if i > middle && text_before(list@[i]@, text@) {
                        assert(text_before(all[middle as int], all[i]));
                        lemma_text_transitive(at, list@[i]@, text@);
                    }
                }
            }
            high = middle;
        }
    }
    proof {
        let all = texts(list@);
        if all.contains(text@) {
            let i = choose|i: int| 0 <= i < all.len() && all[i] == text@;
            assert(list@[i]@ == text@);
            lemma_text_total(text@, text@);
            if i > low {
                assert(text_before(all[low as int], all[i]));
            }
        } else if low < list@.len() && list@[low as int]@ == text@ {
            assert(all[low as int] == text@);
        }
    }
    low
}

/// Texts stay ascending where a new one is put in its place.
pub proof fn lemma_inserted(list: Seq<String>, position: int, text: String)
    requires
        ascending(texts(list)),
        0 <= position <= list.len(),
        forall|i: int| 0 <= i < position ==> text_before((#[trigger] list[i])@, text@),
        forall|i: int| position <= i < list.len() ==> !text_before((#[trigger] list[i])@, text@),
        !texts(list).contains(text@),
    ensures
        ascending(texts(list.insert(position, text))),
        texts(list.insert(position, text)).to_set() == texts(list).to_set().insert(text@),
{
    let before = texts(list);
    let added = list.insert(position, text);
    let after = texts(added);
    assert forall|i: int, j: int| 0 <= i < j < after.len() implies text_before(
        #[trigger] after[i],
        #[trigger] after[j],
    ) by {
        let a = if i < position {
            i
        } else {
            i - 1
        };
        let b = if j < position {
            j
        } else {
            j - 1
        };
        if i != position {
            assert(after[i] == list[a]@);
            assert(before[a] == list[a]@);
        }
        if j != position {
            assert(after[j] == list[b]@);
            assert(before[b] == list[b]@);
        }
        if i != position && j != position {
            assert(text_before(before[a], before[b]));
        } else if i == position {
            lemma_text_total(text@, list[b]@);
        }
    }
    assert forall|t: Seq<char>| after.to_set().contains(t) == before.to_set().insert(
        text@,
    ).contains(t) by {
        if after.contains(t) {
            let i = choose|i: int| 0 <= i < after.len() && after[i] == t;
            if i < position {
                assert(before[i] == t);
            } else if i > position {
                assert(before[i - 1] == t);
            }
        }
        if before.contains(t) {
            let i = choose|i: int| 0 <= i < before.len() && before[i] == t;
            if i < position {
                assert(after[i] == t);
            } else {
                assert(after[i + 1] == t);
            }
        }
        if t == text@ {
            assert(after[position] == t);
        }
    }
    assert(after.to_set() =~= before.to_set().insert(text@));
}

/// Puts a text into its place among ascending texts, unless it is there.
pub fn insert_text(list: &mut Vec<String>, text: String) -> (added: bool)
    requires
        ascending(texts(old(list)@)),
    ensures
        ascending(texts(final(list)@)),
        added == !texts(old(list)@).contains(text@),
        texts(final(list)@).to_set() == texts(old(list)@).to_set().insert(text@),
        !added ==> final(list)@ == old(list)@,
{
    let position: usize = text_position(list, text.as_str());
    if position < list.len() && same_text(list[position].as_str(), text.as_str()) {
        assert(texts(list@).to_set() =~= texts(list@).to_set().insert(text@)) by {
            assert(texts(list@).contains(text@));
        }
        return false;
    }
    proof {
        lemma_inserted(list@, position as int, text);
    }
    list.insert(position, text);
    true
}

/// Whether a character means something in a pattern.
pub open spec fn is_meta(c: char) -> bool {
    ||| c == '\\' || c == '.' || c == '+' || c == '*' || c == '?' || c == '|'
    ||| c == '(' || c == ')' || c == '[' || c == ']' || c == '{' || c == '}'
    ||| c == '^' || c == '$' || c == '#' || c == '&' || c == '-' || c == '~'
}

/// A text with a backslash before every character that means something in a pattern.
pub open spec fn escaped(text: Seq<char>) -> Seq<char>
    decreases text.len(),
{
    if text.len() == 0 {
        Seq::empty()
    } else if is_meta(text.last()) {
        escaped(text.drop_last()).push('\\').push(text.last())
    } else {
        escaped(text.drop_last()).push(text.last())
    }
}

/// `regex::escape`: the text with a backslash before every character that means something in a
/// pattern. As a pattern it matches the text, in UTF-8, and nothing else.
#[verifier::external_body]
pub(crate) fn escape(text: &str) -> (pattern: String)
    ensures
        pattern@ == escaped(text@),
        forall|w: Seq<u8>| #[trigger]
            dense::pattern_matches(pattern@, w) <==> w == utf8::encode_utf8(text@),
{
    regex::escape(text)
}

/// What `String::from_utf8_lossy` makes of bytes.
pub uninterp spec fn lossy(bytes: Seq<u8>) -> Seq<char>;

/// `String::from_utf8_lossy`: the text that the bytes encode, with a replacement character for
/// what is not UTF-8. Bytes that are UTF-8 are the encoding of the text.
#[verifier::external_body]
pub(crate) fn decode_lossy(bytes: &[u8]) -> (text: String)
    ensures
        text@ == lossy(bytes@),
        utf8::valid_utf8(bytes@) ==> utf8::encode_utf8(text@) == bytes@,
{
    String::from_utf8_lossy(bytes).into_owned()
}

/// `String::from_utf8`: the text that the bytes encode, if they are UTF-8.
#[verifier::external_body]
pub(crate) fn decode_text(bytes: Vec<u8>) -> (text: Option<String>)
    ensures
        text is Some <==> utf8::valid_utf8(bytes@),
        text matches Some(found) ==> utf8::encode_utf8(found@) == bytes@,
{
    String::from_utf8(bytes).ok()
}

/// `Arc::from` on a slice: a shared copy of the bytes.
#[verifier::external_body]
pub(crate) fn share(bytes: &[u8]) -> (shared: Arc<[u8]>)
    ensures
        shared@ == bytes@,
{
    Arc::from(bytes)
}

/// An ASCII byte as a text.
pub fn ascii_text(byte: u8) -> (text: String)
    requires
        byte < 128,
    ensures
        text@ == seq![byte as char],
{
    let mut text = String::new();
    push_char(&mut text, byte as char);
    assert(text@ =~= seq![byte as char]);
    text
}

/// The digit of a number below sixteen.
pub open spec fn hex_digit(value: int) -> char {
    if value < 10 {
        (48 + value) as char
    } else {
        (87 + value) as char
    }
}

/// A byte as two hexadecimal digits behind `\\x`.
pub fn escaped_byte(byte: u8) -> (text: String)
    ensures
        text@ == seq!['\\', 'x', hex_digit(byte as int / 16), hex_digit(byte as int % 16)],
{
    let mut text = String::new();
    push_char(&mut text, '\\');
    push_char(&mut text, 'x');
    push_hex(&mut text, byte);
    assert(text@ =~= seq!['\\', 'x', hex_digit(byte as int / 16), hex_digit(byte as int % 16)]);
    text
}

/// How a character stands in a JSON string: quotes, backslashes and control characters are escaped.
pub open spec fn json_char(c: char) -> Seq<char> {
    if c == '"' || c == '\\' {
        seq!['\\', c]
    } else if c == '\u{8}' {
        seq!['\\', 'b']
    } else if c == '\t' {
        seq!['\\', 't']
    } else if c == '\n' {
        seq!['\\', 'n']
    } else if c == '\u{c}' {
        seq!['\\', 'f']
    } else if c == '\r' {
        seq!['\\', 'r']
    } else if (c as int) < 32 {
        seq!['\\', 'u', '0', '0', hex_digit(c as int / 16), hex_digit(c as int % 16)]
    } else {
        seq![c]
    }
}

/// The characters of a text as they stand in a JSON string.
pub open spec fn json_chars(text: Seq<char>) -> Seq<char>
    decreases text.len(),
{
    if text.len() == 0 {
        Seq::empty()
    } else {
        json_chars(text.drop_last()) + json_char(text.last())
    }
}

/// The JSON string of a text.
pub open spec fn json_text(text: Seq<char>) -> Seq<char> {
    seq!['"'] + json_chars(text) + seq!['"']
}

/// `serde_json::to_string` on a string: its JSON form, in quotes, with escapes for quotes,
/// backslashes and the control characters below the space. Writing to memory does not fail, so
/// there is always one.
#[verifier::external_body]
pub(crate) fn encode_json(text: &str) -> (result: Result<String, String>)
    ensures
        result is Ok,
        result matches Ok(json) ==> json@ == json_text(text@),
{
    serde_json::to_string(text).map_err(|error| error.to_string())
}

/// `String::push`: the string with one more character.
#[verifier::external_body]
pub(crate) fn push_char(text: &mut String, character: char)
    ensures
        final(text)@ == old(text)@.push(character),
{
    text.push(character);
}

/// The decimal digits of a number.
pub open spec fn digits(value: nat) -> Seq<char>
    decreases value,
{
    if value < 10 {
        seq![(48 + value) as char]
    } else {
        digits(value / 10).push((48 + value % 10) as char)
    }
}

/// A number in decimal digits.
pub fn long_decimal(value: u64) -> (text: String)
    ensures
        text@ == digits(value as nat),
    decreases value,
{
    let mut text = if value < 10 {
        String::new()
    } else {
        long_decimal(value / 10)
    };
    let digit: u8 = 48 + (value % 10) as u8;
    push_char(&mut text, digit as char);
    assert(value < 10 ==> text@ =~= digits(value as nat));
    text
}

/// Appends the two hexadecimal digits of a byte.
pub fn push_hex(text: &mut String, byte: u8)
    ensures
        final(text)@ == old(text)@.push(hex_digit(byte as int / 16)).push(
            hex_digit(byte as int % 16),
        ),
{
    let high: u8 = byte / 16;
    let low: u8 = byte % 16;
    let first: u8 = if high < 10 {
        48 + high
    } else {
        87 + high
    };
    let second: u8 = if low < 10 {
        48 + low
    } else {
        87 + low
    };
    push_char(text, first as char);
    push_char(text, second as char);
}

/// A number in decimal digits.
pub fn decimal(value: usize) -> (text: String)
    ensures
        text@ == digits(value as nat),
{
    long_decimal(value as u64)
}

/// What the `Debug` form of a string is.
pub uninterp spec fn quoted(text: Seq<char>) -> Seq<char>;

/// The `Debug` form of a string, as `format` writes it: in quotes, with escapes.
#[verifier::external_body]
pub(crate) fn quote(text: &str) -> (form: String)
    ensures
        form@ == quoted(text@),
{
    format!("{text:?}")
}

/// The number that decimal digits stand for.
pub open spec fn decimal_value(text: Seq<char>) -> int
    decreases text.len(),
{
    if text.len() == 0 {
        0
    } else {
        10 * decimal_value(text.drop_last()) + (text.last() as int - 48)
    }
}

/// The decimal digits of a number stand for it, and do not start with a zero unless they are one.
pub proof fn law_digits_are_read_back(value: nat)
    ensures
        decimal_value(digits(value)) == value,
        digits(value).len() > 0,
        forall|i: int| 0 <= i < digits(value).len() ==> '0' <= #[trigger] digits(value)[i] <= '9',
        digits(value)[0] == '0' ==> value == 0 && digits(value).len() == 1,
    decreases value,
{
    reveal_with_fuel(decimal_value, 2);
    if value >= 10 {
        law_digits_are_read_back(value / 10);
        assert(digits(value).drop_last() =~= digits(value / 10));
    } else {
        assert(digits(value).drop_last() =~= Seq::empty());
    }
}

} // verus!
