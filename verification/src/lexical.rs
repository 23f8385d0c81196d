//! The texts of JSON scalars, and the patterns that match just these.

use vstd::prelude::*;
use vstd::utf8;

use crate::dense;
use crate::json_schema;
use crate::syntax;
use crate::syntax::{Mark, Span, Syntax};
use crate::text;

verus! {

/// Whether a byte is a digit.
pub open spec fn digit(byte: u8) -> bool {
    48 <= byte <= 57
}

/// Whether a text is made of digits.
pub open spec fn digits(w: Seq<u8>) -> bool {
    w.len() > 0 && forall|i: int| 0 <= i < w.len() ==> digit(#[trigger] w[i])
}

/// Whether a text is a whole number without a sign: digits, of which the first is zero only if it is
/// the only one.
pub open spec fn natural(w: Seq<u8>) -> bool {
    digits(w) && (w[0] == 48 ==> w.len() == 1)
}

/// Whether a text is a JSON integer: a whole number, maybe behind a minus sign.
pub open spec fn integer(w: Seq<u8>) -> bool {
    natural(w) || (w.len() > 0 && w[0] == 45 && natural(w.skip(1)))
}

/// Whether a text is nothing, or a point with digits behind it.
pub open spec fn fraction(w: Seq<u8>) -> bool {
    w.len() == 0 || (w[0] == 46 && digits(w.skip(1)))
}

/// Whether a text is nothing, or the letter of an exponent with a sign and digits behind it.
pub open spec fn exponent(w: Seq<u8>) -> bool {
    w.len() == 0 || (w.len() > 2 && (w[0] == 101 || w[0] == 69) && (w[1] == 43 || w[1] == 45)
        && digits(w.skip(2)))
}

/// Whether a text is a JSON number whose exponent, if it has one, is written with its sign.
pub open spec fn number(w: Seq<u8>) -> bool {
    exists|i: int, j: int|
        0 <= i <= j <= w.len() && #[trigger] integer(w.take(i)) && #[trigger] exponent(w.skip(j))
            && fraction(w.subrange(i, j))
}

/// Whether a character is no control character.
pub open spec fn clean(c: char) -> bool {
    c as int >= 32 && !(127 <= c as int <= 159)
}

/// Whether no character of a text is a control character.
pub open spec fn all_clean(t: Seq<char>) -> bool {
    forall|i: int| 0 <= i < t.len() ==> clean(#[trigger] t[i])
}

/// Whether a text is the JSON string of some characters, none of them a control character.
pub open spec fn string(w: Seq<u8>) -> bool {
    exists|t: Seq<char>| all_clean(t) && w == utf8::encode_utf8(#[trigger] text::json_text(t))
}

/// Whether a text is a JSON boolean.
pub open spec fn boolean(w: Seq<u8>) -> bool {
    w == utf8::encode_utf8("true"@) || w == utf8::encode_utf8("false"@)
}

/// Whether a text is the JSON null.
pub open spec fn null(w: Seq<u8>) -> bool {
    w == utf8::encode_utf8("null"@)
}

/// Texts one after the other are encoded one after the other.
pub proof fn lemma_encode_join(a: Seq<char>, b: Seq<char>)
    ensures
        utf8::encode_utf8(a + b) == utf8::encode_utf8(a) + utf8::encode_utf8(b),
    decreases a.len(),
{
    if a.len() == 0 {
        assert(a + b =~= b);
        assert(utf8::encode_utf8(a) + utf8::encode_utf8(b) =~= utf8::encode_utf8(b));
    } else {
        lemma_encode_join(a.drop_first(), b);
        assert((a + b).drop_first() =~= a.drop_first() + b);
        assert((a + b)[0] == a[0]);
        let first = utf8::encode_scalar(a[0] as u32);
        assert(first + (utf8::encode_utf8(a.drop_first()) + utf8::encode_utf8(b)) =~= (first
            + utf8::encode_utf8(a.drop_first())) + utf8::encode_utf8(b));
    }
}

/// A character below 128 is encoded as one byte.
pub proof fn lemma_ascii(c: char)
    requires
        (c as int) < 128,
    ensures
        syntax::encoded(c) == seq![c as u8],
{
    let one = seq![c];
    assert(utf8::is_ascii_chars(one));
    utf8::is_ascii_chars_encode_utf8(one);
    assert(utf8::encode_utf8(one)[0] == one[0] as u8);
    assert(utf8::encode_utf8(one) =~= seq![c as u8]);
}

/// Texts that are encoded alike are alike.
pub proof fn lemma_encode_same(a: Seq<char>, b: Seq<char>)
    requires
        utf8::encode_utf8(a) == utf8::encode_utf8(b),
    ensures
        a == b,
{
    utf8::encode_utf8_decode_utf8(a);
    utf8::encode_utf8_decode_utf8(b);
}

/// The pattern of the characters from one to another.
pub open spec fn range(from: char, to: char) -> Syntax {
    Syntax::Class {
        negated: false,
        spans: seq![Span::Range(Mark::Char(from), Mark::Char(to))],
        dash: false,
    }
}

/// A range of characters below 128 matches the bytes in it.
proof fn lemma_range(from: char, to: char, w: Seq<u8>)
    requires
        from <= to,
        (to as int) < 128,
    ensures
        syntax::reads(range(from, to), w) <==> w.len() == 1 && from as int <= w[0] <= to as int,
{
    let spans = seq![Span::Range(Mark::Char(from), Mark::Char(to))];
    if syntax::reads(range(from, to), w) {
        let c = choose|c: char|
            syntax::in_class(false, spans, false, c) && w == #[trigger] syntax::encoded(c);
        let i = choose|i: int| 0 <= i < spans.len() && syntax::spanned(#[trigger] spans[i], c);
        assert(spans[0] == Span::Range(Mark::Char(from), Mark::Char(to)));
        lemma_ascii(c);
    }
    if w.len() == 1 && from as int <= w[0] <= to as int {
        let c = w[0] as char;
        lemma_ascii(c);
        assert(w =~= syntax::encoded(c));
        assert(syntax::spanned(spans[0], c));
        assert(syntax::in_class(false, spans, false, c));
    }
}

/// The pattern of a digit.
pub open spec fn any_digit() -> Syntax {
    range('0', '9')
}

/// Repeated digits match digits.
proof fn lemma_digits(tree: Syntax, n: nat, w: Seq<u8>)
    requires
        tree == Syntax::Star(Box::new(any_digit())) || tree == Syntax::Plus(Box::new(any_digit())),
    ensures
        syntax::repeats(tree, n, w) <==> w.len() == n && forall|i: int|
            0 <= i < w.len() ==> digit(#[trigger] w[i]),
    decreases n,
{
    if n > 0 {
        let m = (n - 1) as nat;
        if syntax::repeats(tree, n, w) {
            let k = choose|k: int| #[trigger]
                syntax::cut(k) && 0 <= k <= w.len() && syntax::repeats(tree, m, w.skip(k))
                    && syntax::reads(any_digit(), w.take(k));
            lemma_digits(tree, m, w.skip(k));
            lemma_range('0', '9', w.take(k));
            assert forall|i: int| 0 <= i < w.len() implies digit(#[trigger] w[i]) by {
                if i == 0 {
                    assert(w.take(k)[0] == w[0]);
                } else {
                    assert(w.skip(k)[i - 1] == w[i]);
                }
            }
        }
        if w.len() == n && forall|i: int| 0 <= i < w.len() ==> digit(#[trigger] w[i]) {
            lemma_digits(tree, m, w.skip(1));
            lemma_range('0', '9', w.take(1));
            assert(w.take(1)[0] == w[0]);
            assert(syntax::cut(1));
            assert(syntax::reads(any_digit(), w.take(1)));
            assert(syntax::repeats(tree, m, w.skip(1)));
        }
    }
}

/// The pattern of digits, maybe none.
pub open spec fn some_digits() -> Syntax {
    Syntax::Star(Box::new(any_digit()))
}

/// The pattern of digits.
pub open spec fn more_digits() -> Syntax {
    Syntax::Plus(Box::new(any_digit()))
}

proof fn lemma_some_digits(w: Seq<u8>)
    ensures
        syntax::reads(some_digits(), w) <==> forall|i: int|
            0 <= i < w.len() ==> digit(#[trigger] w[i]),
        syntax::reads(more_digits(), w) <==> digits(w),
{
    if syntax::reads(some_digits(), w) {
        let n = choose|n: nat| #[trigger]
            syntax::times(n) && syntax::repeats(some_digits(), n, w);
        lemma_digits(some_digits(), n, w);
    }
    if syntax::reads(more_digits(), w) {
        let n = choose|n: nat| #[trigger]
            syntax::times(n) && n > 0 && syntax::repeats(more_digits(), n, w);
        lemma_digits(more_digits(), n, w);
    }
    lemma_digits(some_digits(), w.len(), w);
    lemma_digits(more_digits(), w.len(), w);
    assert(syntax::times(w.len()));
    if forall|i: int| 0 <= i < w.len() ==> digit(#[trigger] w[i]) {
        assert(syntax::repeats(some_digits(), w.len(), w));
        assert(syntax::repeats(more_digits(), w.len(), w));
    }
}

/// The pattern of one part behind another.
pub open spec fn join(left: Syntax, right: Syntax) -> Syntax {
    Syntax::Join(Box::new(left), Box::new(right))
}

/// The pattern of one part or another.
pub open spec fn bar(left: Syntax, right: Syntax) -> Syntax {
    Syntax::Bar(Box::new(left), Box::new(right))
}

/// The pattern of a part in brackets.
pub open spec fn capture(inner: Syntax) -> Syntax {
    Syntax::Capture(Box::new(inner))
}

/// The pattern of a part that may be left out.
pub open spec fn optional(inner: Syntax) -> Syntax {
    Syntax::Optional(Box::new(inner))
}

/// The pattern of a whole number without a sign.
pub open spec fn natural_tree() -> Syntax {
    bar(Syntax::Char('0'), join(range('1', '9'), some_digits()))
}

proof fn lemma_natural(w: Seq<u8>)
    ensures
        syntax::reads(natural_tree(), w) <==> natural(w),
{
    reveal_with_fuel(syntax::reads, 5);
    lemma_ascii('0');
    let tail = join(range('1', '9'), some_digits());
    if syntax::reads(tail, w) {
        let k = choose|k: int| #[trigger]
            syntax::cut(k) && 0 <= k <= w.len() && syntax::reads(range('1', '9'), w.take(k))
                && syntax::reads(some_digits(), w.skip(k));
        lemma_range('1', '9', w.take(k));
        lemma_some_digits(w.skip(k));
        assert(w.take(k)[0] == w[0]);
        assert forall|i: int| 0 <= i < w.len() implies digit(#[trigger] w[i]) by {
            if i > 0 {
                assert(w.skip(k)[i - 1] == w[i]);
            }
        }
    }
    if natural(w) {
        if w[0] == 48 {
            assert(w =~= seq![48u8]);
        } else {
            assert(digit(w[0]));
            lemma_range('1', '9', w.take(1));
            assert(w.take(1)[0] == w[0]);
            lemma_some_digits(w.skip(1));
            assert forall|i: int| 0 <= i < w.skip(1).len() implies digit(
                #[trigger] w.skip(1)[i],
            ) by {
                assert(w.skip(1)[i] == w[i + 1]);
            }
            assert(syntax::cut(1));
            assert(syntax::reads(tail, w));
        }
    }
    if w == syntax::encoded('0') {
        assert(w[0] == 48);
    }
}

/// The pattern of a JSON integer.
pub open spec fn integer_tree() -> Syntax {
    join(optional(capture(Syntax::Char('-'))), capture(natural_tree()))
}

proof fn lemma_integer(w: Seq<u8>)
    ensures
        syntax::reads(integer_tree(), w) <==> integer(w),
{
    reveal_with_fuel(syntax::reads, 5);
    lemma_ascii('-');
    let sign = optional(capture(Syntax::Char('-')));
    if syntax::reads(integer_tree(), w) {
        let k = choose|k: int| #[trigger]
            syntax::cut(k) && 0 <= k <= w.len() && syntax::reads(sign, w.take(k))
                && syntax::reads(capture(natural_tree()), w.skip(k));
        lemma_natural(w.skip(k));
        if k == 0 {
            assert(w.skip(0) =~= w);
        } else {
            assert(w.take(k)[0] == w[0]);
            assert(k == 1);
        }
    }
    if natural(w) {
        assert(w.skip(0) =~= w);
        lemma_natural(w);
        assert(syntax::cut(0));
        assert(syntax::reads(sign, w.take(0)));
        assert(syntax::reads(capture(natural_tree()), w.skip(0)));
    } else if integer(w) {
        lemma_natural(w.skip(1));
        assert(w.take(1) =~= seq![45u8]);
        assert(syntax::cut(1));
        assert(syntax::reads(sign, w.take(1)));
        assert(syntax::reads(capture(natural_tree()), w.skip(1)));
    }
}

/// The pattern of a fraction.
pub open spec fn fraction_tree() -> Syntax {
    optional(capture(join(Syntax::Escaped('.'), more_digits())))
}

proof fn lemma_fraction(w: Seq<u8>)
    ensures
        syntax::reads(fraction_tree(), w) <==> fraction(w),
{
    reveal_with_fuel(syntax::reads, 5);
    lemma_ascii('.');
    let inner = join(Syntax::Escaped('.'), more_digits());
    if syntax::reads(inner, w) {
        let k = choose|k: int| #[trigger]
            syntax::cut(k) && 0 <= k <= w.len() && syntax::reads(Syntax::Escaped('.'), w.take(k))
                && syntax::reads(more_digits(), w.skip(k));
        assert(w.take(k)[0] == w[0] && k == 1);
        lemma_some_digits(w.skip(1));
    }
    if fraction(w) && w.len() > 0 {
        assert(w.take(1) =~= seq![46u8]);
        lemma_some_digits(w.skip(1));
        assert(syntax::cut(1));
        assert(syntax::reads(Syntax::Escaped('.'), w.take(1)));
        assert(syntax::reads(inner, w));
    }
}

/// The pattern of the letter of an exponent.
pub open spec fn letter_tree() -> Syntax {
    Syntax::Class {
        negated: false,
        spans: seq![Span::One(Mark::Char('e')), Span::One(Mark::Char('E'))],
        dash: false,
    }
}

/// The pattern of a sign.
pub open spec fn sign_tree() -> Syntax {
    Syntax::Class { negated: false, spans: seq![Span::One(Mark::Char('+'))], dash: true }
}

proof fn lemma_letter(w: Seq<u8>)
    ensures
        syntax::reads(letter_tree(), w) <==> w == seq![101u8] || w == seq![69u8],
{
    let spans = seq![Span::One(Mark::Char('e')), Span::One(Mark::Char('E'))];
    lemma_ascii('e');
    lemma_ascii('E');
    if syntax::reads(letter_tree(), w) {
        let c = choose|c: char|
            syntax::in_class(false, spans, false, c) && w == #[trigger] syntax::encoded(c);
        let i = choose|i: int| 0 <= i < spans.len() && syntax::spanned(#[trigger] spans[i], c);
        assert(spans[i] == spans[0] || spans[i] == spans[1]);
    }
    assert(syntax::spanned(spans[0], 'e') && syntax::spanned(spans[1], 'E'));
    assert(syntax::in_class(false, spans, false, 'e'));
    assert(syntax::in_class(false, spans, false, 'E'));
}

proof fn lemma_sign(w: Seq<u8>)
    ensures
        syntax::reads(sign_tree(), w) <==> w == seq![43u8] || w == seq![45u8],
{
    let spans = seq![Span::One(Mark::Char('+'))];
    lemma_ascii('+');
    lemma_ascii('-');
    if syntax::reads(sign_tree(), w) {
        let c = choose|c: char|
            syntax::in_class(false, spans, true, c) && w == #[trigger] syntax::encoded(c);
        if c != '-' {
            let i = choose|i: int|
                0 <= i < spans.len() && syntax::spanned(#[trigger] spans[i], c);
            assert(spans[i] == spans[0]);
        }
    }
    assert(syntax::spanned(spans[0], '+'));
    assert(syntax::in_class(false, spans, true, '+'));
    assert(syntax::in_class(false, spans, true, '-'));
}

/// The pattern of an exponent.
pub open spec fn exponent_tree() -> Syntax {
    optional(capture(join(join(letter_tree(), sign_tree()), more_digits())))
}

proof fn lemma_exponent_front(v: Seq<u8>)
    ensures
        syntax::reads(join(letter_tree(), sign_tree()), v) <==> v.len() == 2 && (v[0] == 101 || v[0]
            == 69) && (v[1] == 43 || v[1] == 45),
{
    if syntax::reads(join(letter_tree(), sign_tree()), v) {
        let m = choose|m: int| #[trigger]
            syntax::cut(m) && 0 <= m <= v.len() && syntax::reads(letter_tree(), v.take(m))
                && syntax::reads(sign_tree(), v.skip(m));
        lemma_letter(v.take(m));
        lemma_sign(v.skip(m));
        assert(v.take(m).len() == 1 && v.skip(m).len() == 1);
        assert(v.take(m)[0] == v[0] && v.skip(m)[0] == v[1]);
    }
    if v.len() == 2 && (v[0] == 101 || v[0] == 69) && (v[1] == 43 || v[1] == 45) {
        assert(v.take(1) =~= seq![v[0]]);
        assert(v.skip(1) =~= seq![v[1]]);
        lemma_letter(v.take(1));
        lemma_sign(v.skip(1));
        assert(syntax::cut(1));
    }
}

proof fn lemma_exponent_inner(w: Seq<u8>)
    ensures
        syntax::reads(join(join(letter_tree(), sign_tree()), more_digits()), w) <==> w.len() > 0
            && exponent(w),
{
    let front = join(letter_tree(), sign_tree());
    let inner = join(front, more_digits());
    if syntax::reads(inner, w) {
        let k = choose|k: int| #[trigger]
            syntax::cut(k) && 0 <= k <= w.len() && syntax::reads(front, w.take(k))
                && syntax::reads(more_digits(), w.skip(k));
        lemma_exponent_front(w.take(k));
        assert(k == 2);
        assert(w.take(k)[0] == w[0] && w.take(k)[1] == w[1]);
        lemma_some_digits(w.skip(2));
        assert(w.skip(2).len() > 0);
    }
    if exponent(w) && w.len() > 0 {
        lemma_exponent_front(w.take(2));
        lemma_some_digits(w.skip(2));
        assert(syntax::cut(2));
        assert(syntax::reads(front, w.take(2)));
        assert(syntax::reads(more_digits(), w.skip(2)));
    }
}

proof fn lemma_exponent(w: Seq<u8>)
    ensures
        syntax::reads(exponent_tree(), w) <==> exponent(w),
{
    let inner = join(join(letter_tree(), sign_tree()), more_digits());
    assert(syntax::reads(capture(inner), w) == syntax::reads(inner, w));
    lemma_exponent_inner(w);
}

/// The pattern of a JSON number.
pub open spec fn number_tree() -> Syntax {
    join(join(capture(integer_tree()), fraction_tree()), exponent_tree())
}

proof fn lemma_number(w: Seq<u8>)
    ensures
        syntax::reads(number_tree(), w) <==> number(w),
{
    reveal_with_fuel(syntax::reads, 5);
    let front = join(capture(integer_tree()), fraction_tree());
    if syntax::reads(number_tree(), w) {
        let j = choose|j: int| #[trigger]
            syntax::cut(j) && 0 <= j <= w.len() && syntax::reads(front, w.take(j))
                && syntax::reads(exponent_tree(), w.skip(j));
        let v = w.take(j);
        let i = choose|i: int| #[trigger]
            syntax::cut(i) && 0 <= i <= v.len() && syntax::reads(
                capture(integer_tree()),
                v.take(i),
            ) && syntax::reads(fraction_tree(), v.skip(i));
        lemma_integer(v.take(i));
        lemma_fraction(v.skip(i));
        lemma_exponent(w.skip(j));
        assert(v.take(i) =~= w.take(i));
        assert(v.skip(i) =~= w.subrange(i, j));
        assert(integer(w.take(i)) && exponent(w.skip(j)));
    }
    if number(w) {
        let (i, j) = choose|i: int, j: int|
            0 <= i <= j <= w.len() && #[trigger] integer(w.take(i)) && #[trigger] exponent(
                w.skip(j),
            ) && fraction(w.subrange(i, j));
        let v = w.take(j);
        assert(v.take(i) =~= w.take(i));
        assert(v.skip(i) =~= w.subrange(i, j));
        lemma_integer(v.take(i));
        lemma_fraction(v.skip(i));
        lemma_exponent(w.skip(j));
        assert(syntax::cut(i));
        assert(syntax::reads(front, v));
        assert(syntax::cut(j));
    }
}

/// The pattern of a character that stands for itself in a JSON string.
pub open spec fn clean_tree() -> Syntax {
    Syntax::Class {
        negated: true,
        spans: seq![
            Span::One(Mark::Char('"')),
            Span::One(Mark::Escaped('\\')),
            Span::Range(Mark::Hex(0), Mark::Hex(31)),
            Span::Range(Mark::Hex(127), Mark::Hex(159)),
        ],
        dash: false,
    }
}

/// The pattern of a quote or a backslash.
pub open spec fn quote_tree() -> Syntax {
    Syntax::Class {
        negated: false,
        spans: seq![Span::One(Mark::Char('"')), Span::One(Mark::Escaped('\\'))],
        dash: false,
    }
}

/// The pattern of a character in a JSON string.
pub open spec fn piece_tree() -> Syntax {
    bar(clean_tree(), join(Syntax::Escaped('\\'), quote_tree()))
}

/// The pattern of the characters of a JSON string.
pub open spec fn pieces_tree() -> Syntax {
    Syntax::Star(Box::new(capture(piece_tree())))
}

/// The pattern of a JSON string.
pub open spec fn string_tree() -> Syntax {
    join(join(Syntax::Char('"'), pieces_tree()), Syntax::Char('"'))
}

/// No character comes before the first.
proof fn lemma_low(c: char)
    ensures
        syntax::marked(Mark::Hex(0)) <= c,
{
    let number = c as u32;
    assert(number >= 0);
    assert(number as int == c as int);
}

proof fn lemma_clean(w: Seq<u8>)
    ensures
        syntax::reads(clean_tree(), w) <==> exists|c: char|
            clean(c) && c != '"' && c != '\\' && w == #[trigger] syntax::encoded(c),
{
    let spans = seq![
        Span::One(Mark::Char('"')),
        Span::One(Mark::Escaped('\\')),
        Span::Range(Mark::Hex(0), Mark::Hex(31)),
        Span::Range(Mark::Hex(127), Mark::Hex(159)),
    ];
    assert forall|c: char| #[trigger] syntax::in_class(true, spans, false, c) <==> clean(c) && c
        != '"' && c != '\\' by {
        assert(syntax::marked(Mark::Hex(0)) as int == 0);
        assert(syntax::marked(Mark::Hex(31)) as int == 31);
        assert(syntax::marked(Mark::Hex(127)) as int == 127);
        assert(syntax::marked(Mark::Hex(159)) as int == 159);
        assert(syntax::spanned(spans[0], c) <==> c == '"');
        assert(syntax::spanned(spans[1], c) <==> c == '\\');
        lemma_low(c);
        assert(spans[2] == Span::Range(Mark::Hex(0), Mark::Hex(31)));
        assert(syntax::spanned(spans[2], c) <==> c as int <= 31);
        assert(syntax::spanned(spans[3], c) <==> 127 <= c as int <= 159);
        if exists|i: int| 0 <= i < spans.len() && syntax::spanned(#[trigger] spans[i], c) {
            let i = choose|i: int| 0 <= i < spans.len() && syntax::spanned(#[trigger] spans[i], c);
            assert(i == 0 || i == 1 || i == 2 || i == 3);
        }
    }
    if syntax::reads(clean_tree(), w) {
        let c = choose|c: char|
            syntax::in_class(true, spans, false, c) && w == #[trigger] syntax::encoded(c);
        assert(clean(c));
    }
    if exists|c: char|
        clean(c) && c != '"' && c != '\\' && w == #[trigger] syntax::encoded(c) {
        let c = choose|c: char|
            clean(c) && c != '"' && c != '\\' && w == #[trigger] syntax::encoded(c);
        assert(syntax::in_class(true, spans, false, c));
    }
}

proof fn lemma_quote(w: Seq<u8>)
    ensures
        syntax::reads(quote_tree(), w) <==> w == seq![34u8] || w == seq![92u8],
{
    let spans = seq![Span::One(Mark::Char('"')), Span::One(Mark::Escaped('\\'))];
    lemma_ascii('"');
    lemma_ascii('\\');
    if syntax::reads(quote_tree(), w) {
        let c = choose|c: char|
            syntax::in_class(false, spans, false, c) && w == #[trigger] syntax::encoded(c);
        let i = choose|i: int| 0 <= i < spans.len() && syntax::spanned(#[trigger] spans[i], c);
        assert(spans[i] == spans[0] || spans[i] == spans[1]);
    }
    assert(syntax::spanned(spans[0], '"') && syntax::spanned(spans[1], '\\'));
    assert(syntax::in_class(false, spans, false, '"'));
    assert(syntax::in_class(false, spans, false, '\\'));
}

/// The bytes of a quote or a backslash in a JSON string.
proof fn lemma_quoted(c: char)
    requires
        c == '"' || c == '\\',
    ensures
        utf8::encode_utf8(text::json_char(c)) == seq![92u8, c as u8],
{
    let pair = seq!['\\', c];
    lemma_encode_join(seq!['\\'], seq![c]);
    assert(seq!['\\'] + seq![c] =~= pair);
    lemma_ascii('\\');
    lemma_ascii(c);
    assert(seq![92u8] + seq![c as u8] =~= seq![92u8, c as u8]);
}

/// A character in a JSON string matches just what stands for characters that are no control
/// characters.
proof fn lemma_piece(w: Seq<u8>)
    ensures
        syntax::reads(capture(piece_tree()), w) <==> exists|c: char|
            clean(c) && w == utf8::encode_utf8(#[trigger] text::json_char(c)),
{
    reveal_with_fuel(syntax::reads, 5);
    lemma_clean(w);
    lemma_ascii('\\');
    let pair = join(Syntax::Escaped('\\'), quote_tree());
    if syntax::reads(clean_tree(), w) {
        let c = choose|c: char|
            clean(c) && c != '"' && c != '\\' && w == #[trigger] syntax::encoded(c);
        assert(text::json_char(c) =~= seq![c]);
    }
    if syntax::reads(pair, w) {
        let k = choose|k: int| #[trigger]
            syntax::cut(k) && 0 <= k <= w.len() && syntax::reads(
                Syntax::Escaped('\\'),
                w.take(k),
            ) && syntax::reads(quote_tree(), w.skip(k));
        lemma_quote(w.skip(k));
        assert(w.take(k).len() == 1 && w.skip(k).len() == 1);
        assert(w.take(k)[0] == w[0] && w.skip(k)[0] == w[1]);
        lemma_quoted('"');
        lemma_quoted('\\');
        if w[1] == 34 {
            assert(w =~= seq![92u8, 34u8]);
            assert(clean('"') && w == utf8::encode_utf8(text::json_char('"')));
        } else {
            assert(w =~= seq![92u8, 92u8]);
            assert(clean('\\') && w == utf8::encode_utf8(text::json_char('\\')));
        }
    }
    if exists|c: char| clean(c) && w == utf8::encode_utf8(#[trigger] text::json_char(c)) {
        let c = choose|c: char| clean(c) && w == utf8::encode_utf8(#[trigger] text::json_char(c));
        if c == '"' || c == '\\' {
            lemma_quoted(c);
            lemma_quote(w.skip(1));
            assert(w.take(1) =~= seq![92u8]);
            assert(w.skip(1) =~= seq![c as u8]);
            assert(syntax::cut(1));
            assert(syntax::reads(Syntax::Escaped('\\'), w.take(1)));
            assert(syntax::reads(pair, w));
        } else {
            assert(text::json_char(c) =~= seq![c]);
            assert(w == syntax::encoded(c));
            assert(syntax::reads(clean_tree(), w));
        }
    }
}

/// The characters of a JSON string one after the other.
pub proof fn lemma_json_first(c: char, t: Seq<char>)
    ensures
        text::json_chars(seq![c] + t) == text::json_char(c) + text::json_chars(t),
    decreases t.len(),
{
    let all = seq![c] + t;
    if t.len() == 0 {
        assert(all.drop_last() =~= Seq::empty());
        assert(all.last() == c);
        assert(text::json_chars(all.drop_last()) =~= Seq::empty());
        assert(text::json_chars(all) =~= text::json_char(c));
        assert(text::json_char(c) + text::json_chars(t) =~= text::json_char(c));
    } else {
        lemma_json_first(c, t.drop_last());
        assert(all.drop_last() =~= seq![c] + t.drop_last());
        assert(all.last() == t.last());
        assert(text::json_char(c) + (text::json_chars(t.drop_last()) + text::json_char(t.last()))
            =~= (text::json_char(c) + text::json_chars(t.drop_last())) + text::json_char(t.last()));
    }
}

/// Whether bytes are those of so many characters in a JSON string.
spec fn chars_of(t: Seq<char>, n: nat, w: Seq<u8>) -> bool {
    t.len() == n && all_clean(t) && w == utf8::encode_utf8(text::json_chars(t))
}

proof fn lemma_pieces_apart(n: nat, w: Seq<u8>) -> (t: Seq<char>)
    requires
        syntax::repeats(pieces_tree(), n, w),
    ensures
        chars_of(t, n, w),
    decreases n,
{
    if n == 0 {
        assert(w =~= Seq::empty());
        Seq::empty()
    } else {
        let m = (n - 1) as nat;
        let k = choose|k: int| #[trigger]
            syntax::cut(k) && 0 <= k <= w.len() && syntax::repeats(pieces_tree(), m, w.skip(k))
                && syntax::reads(capture(piece_tree()), w.take(k));
        let rest = lemma_pieces_apart(m, w.skip(k));
        lemma_piece(w.take(k));
        let c = choose|c: char|
            clean(c) && w.take(k) == utf8::encode_utf8(#[trigger] text::json_char(c));
        let t = seq![c] + rest;
        lemma_json_first(c, rest);
        lemma_encode_join(text::json_char(c), text::json_chars(rest));
        assert(w.take(k) + w.skip(k) =~= w);
        assert forall|i: int| 0 <= i < t.len() implies clean(#[trigger] t[i]) by {
            if i > 0 {
                assert(t[i] == rest[i - 1]);
            }
        }
        t
    }
}

proof fn lemma_pieces_together(t: Seq<char>, w: Seq<u8>)
    requires
        chars_of(t, t.len(), w),
    ensures
        syntax::repeats(pieces_tree(), t.len(), w),
    decreases t.len(),
{
    if t.len() > 0 {
        let c = t[0];
        let rest = t.skip(1);
        assert(seq![c] + rest =~= t);
        lemma_json_first(c, rest);
        lemma_encode_join(text::json_char(c), text::json_chars(rest));
        let front = utf8::encode_utf8(text::json_char(c));
        let back = utf8::encode_utf8(text::json_chars(rest));
        let k = front.len() as int;
        assert(w.take(k) =~= front);
        assert(w.skip(k) =~= back);
        assert forall|i: int| 0 <= i < rest.len() implies clean(#[trigger] rest[i]) by {
            assert(rest[i] == t[i + 1]);
        }
        lemma_pieces_together(rest, back);
        assert(clean(c));
        lemma_piece(front);
        assert(syntax::cut(k));
        assert(syntax::reads(capture(piece_tree()), w.take(k)));
        assert(syntax::repeats(pieces_tree(), (t.len() - 1) as nat, w.skip(k)));
    } else {
        assert(text::json_chars(t) =~= Seq::empty());
    }
}

/// The bytes of a JSON string.
pub proof fn lemma_json_bytes(t: Seq<char>)
    ensures
        utf8::encode_utf8(text::json_text(t)) == seq![34u8] + utf8::encode_utf8(text::json_chars(t))
            + seq![34u8],
{
    lemma_ascii('"');
    lemma_encode_join(seq!['"'] + text::json_chars(t), seq!['"']);
    lemma_encode_join(seq!['"'], text::json_chars(t));
}

proof fn lemma_string(w: Seq<u8>)
    ensures
        syntax::reads(string_tree(), w) <==> string(w),
{
    reveal_with_fuel(syntax::reads, 3);
    lemma_ascii('"');
    let mark = Syntax::Char('"');
    let front = join(mark, pieces_tree());
    if syntax::reads(string_tree(), w) {
        let j = choose|j: int| #[trigger]
            syntax::cut(j) && 0 <= j <= w.len() && syntax::reads(front, w.take(j))
                && syntax::reads(mark, w.skip(j));
        let v = w.take(j);
        let i = choose|i: int| #[trigger]
            syntax::cut(i) && 0 <= i <= v.len() && syntax::reads(mark, v.take(i))
                && syntax::reads(pieces_tree(), v.skip(i));
        let inner = v.skip(i);
        let n = choose|n: nat| #[trigger]
            syntax::times(n) && syntax::repeats(pieces_tree(), n, inner);
        let t = lemma_pieces_apart(n, inner);
        lemma_json_bytes(t);
        assert(w =~= seq![34u8] + inner + seq![34u8]) by {
            assert(v.take(i) + inner =~= v);
            assert(v + w.skip(j) =~= w);
        }
        assert(all_clean(t) && w == utf8::encode_utf8(text::json_text(t)));
    }
    if string(w) {
        let t = choose|t: Seq<char>|
            all_clean(t) && w == utf8::encode_utf8(#[trigger] text::json_text(t));
        lemma_json_bytes(t);
        let inner = utf8::encode_utf8(text::json_chars(t));
        lemma_pieces_together(t, inner);
        let j = inner.len() as int + 1;
        let v = w.take(j);
        assert(w.skip(j) =~= seq![34u8]);
        assert(v =~= seq![34u8] + inner);
        assert(v.take(1) =~= seq![34u8]);
        assert(v.skip(1) =~= inner);
        assert(syntax::times(t.len()));
        assert(syntax::reads(pieces_tree(), inner));
        assert(syntax::cut(1));
        assert(syntax::reads(front, v));
        assert(syntax::cut(j));
    }
}

/// The pattern of the first `n` characters of a text, each for itself.
pub open spec fn word_tree(t: Seq<char>, n: nat) -> Syntax
    decreases n,
{
    if n == 0 || n > t.len() {
        Syntax::Nothing
    } else if text::is_meta(t[n - 1]) {
        join(word_tree(t, (n - 1) as nat), Syntax::Escaped(t[n - 1]))
    } else {
        join(word_tree(t, (n - 1) as nat), Syntax::Char(t[n - 1]))
    }
}

/// A character for itself.
proof fn lemma_one(c: char)
    ensures
        syntax::written(Syntax::Char(c)) == seq![c],
        syntax::written(Syntax::Escaped(c)) == seq!['\\', c],
        syntax::valid(Syntax::Char(c)) == !syntax::special(c),
        syntax::valid(Syntax::Escaped(c)) == text::is_meta(c),
{
}

/// The pattern of a text for itself is the text with what means something escaped, and matches just
/// the text.
pub proof fn lemma_word(t: Seq<char>, n: nat)
    requires
        n <= t.len(),
    ensures
        syntax::valid(word_tree(t, n)),
        !(word_tree(t, n) is Bar),
        syntax::written(word_tree(t, n)) == text::escaped(t.take(n as int)),
        forall|w: Seq<u8>| #[trigger]
            syntax::reads(word_tree(t, n), w) <==> w == utf8::encode_utf8(t.take(n as int)),
    decreases n,
{
    if n == 0 {
        assert(t.take(0) =~= Seq::empty());
        assert forall|w: Seq<u8>| #[trigger] syntax::reads(word_tree(t, n), w) <==> w
            == utf8::encode_utf8(t.take(0)) by {
            if w.len() == 0 {
                assert(w =~= Seq::empty());
            }
        }
    } else {
        let m = (n - 1) as nat;
        lemma_word(t, m);
        let c = t[n - 1];
        let front = t.take(m as int);
        assert(t.take(n as int).drop_last() =~= front);
        assert(t.take(n as int) =~= front + seq![c]);
        lemma_encode_join(front, seq![c]);
        let last = if text::is_meta(c) {
            Syntax::Escaped(c)
        } else {
            Syntax::Char(c)
        };
        assert(word_tree(t, n) == join(word_tree(t, m), last));
        lemma_one(c);
        assert(syntax::valid(last));
        assert(syntax::written(last) =~= (if text::is_meta(c) {
            seq!['\\', c]
        } else {
            seq![c]
        }));
        assert(syntax::written(word_tree(t, n)) =~= text::escaped(t.take(n as int)));
        let whole = utf8::encode_utf8(front) + syntax::encoded(c);
        assert forall|w: Seq<u8>| #[trigger] syntax::reads(word_tree(t, n), w) <==> w == whole by {
            if syntax::reads(word_tree(t, n), w) {
                let k = choose|k: int| #[trigger]
                    syntax::cut(k) && 0 <= k <= w.len() && syntax::reads(
                        word_tree(t, m),
                        w.take(k),
                    ) && syntax::reads(last, w.skip(k));
                assert(w.take(k) + w.skip(k) =~= w);
            }
            if w == whole {
                let k = utf8::encode_utf8(front).len() as int;
                assert(w.take(k) =~= utf8::encode_utf8(front));
                assert(w.skip(k) =~= syntax::encoded(c));
                assert(syntax::cut(k));
                assert(syntax::reads(word_tree(t, m), w.take(k)));
                assert(syntax::reads(last, w.skip(k)));
            }
        }
    }
}

proof fn lemma_range_written(from: char, to: char)
    requires
        !syntax::special_inside(from),
        !syntax::special_inside(to),
        from <= to,
    ensures
        syntax::valid(range(from, to)),
        syntax::written(range(from, to)) == seq!['[', from, '-', to, ']'],
{
    let spans = seq![Span::Range(Mark::Char(from), Mark::Char(to))];
    reveal_with_fuel(syntax::spans_text, 2);
    assert(syntax::valid_span(spans[0]));
    assert(syntax::spans_text(spans, 1) =~= seq![from, '-', to]);
    assert(syntax::written(range(from, to)) =~= seq!['[', from, '-', to, ']']);
}

proof fn lemma_natural_written()
    ensures
        syntax::valid(natural_tree()),
        syntax::written(natural_tree()) == "0|[1-9][0-9]*"@,
{
    reveal_strlit("0|[1-9][0-9]*");
    lemma_range_written('0', '9');
    lemma_range_written('1', '9');
    lemma_one('0');
    let some = some_digits();
    assert(syntax::valid(some));
    assert(syntax::written(some) =~= seq!['[', '0', '-', '9', ']', '*']);
    let tail = join(range('1', '9'), some);
    assert(syntax::valid(tail));
    assert(syntax::written(tail) =~= seq!['[', '1', '-', '9', ']', '[', '0', '-', '9', ']', '*']);
    assert(syntax::written(natural_tree()) =~= "0|[1-9][0-9]*"@);
}

proof fn lemma_integer_written()
    ensures
        syntax::valid(integer_tree()),
        syntax::written(integer_tree()) == json_schema::INTEGER@,
{
    reveal_strlit("0|[1-9][0-9]*");
    reveal_strlit("(-)?(0|[1-9][0-9]*)");
    lemma_natural_written();
    lemma_one('-');
    let sign = capture(Syntax::Char('-'));
    assert(syntax::valid(sign));
    assert(syntax::written(sign) =~= seq!['(', '-', ')']);
    let maybe = optional(sign);
    assert(syntax::valid(maybe));
    assert(syntax::written(maybe) =~= seq!['(', '-', ')', '?']);
    let rest = capture(natural_tree());
    assert(syntax::valid(rest));
    assert(syntax::written(rest) =~= seq!['('] + "0|[1-9][0-9]*"@ + seq![')']);
    assert(syntax::written(integer_tree()) =~= seq!['(', '-', ')', '?'] + (seq!['(']
        + "0|[1-9][0-9]*"@ + seq![')']));
    assert(syntax::written(integer_tree()) =~= "(-)?(0|[1-9][0-9]*)"@);
}

proof fn lemma_class_written(first: char, second: char)
    requires
        !syntax::special_inside(first),
        !syntax::special_inside(second),
    ensures
        syntax::valid(
            Syntax::Class {
                negated: false,
                spans: seq![Span::One(Mark::Char(first)), Span::One(Mark::Char(second))],
                dash: false,
            },
        ),
        syntax::written(
            Syntax::Class {
                negated: false,
                spans: seq![Span::One(Mark::Char(first)), Span::One(Mark::Char(second))],
                dash: false,
            },
        ) == seq!['[', first, second, ']'],
{
    let spans = seq![Span::One(Mark::Char(first)), Span::One(Mark::Char(second))];
    reveal_with_fuel(syntax::spans_text, 3);
    assert(syntax::valid_span(spans[0]) && syntax::valid_span(spans[1]));
    assert(syntax::spans_text(spans, 2) =~= seq![first, second]);
    assert(syntax::written(Syntax::Class { negated: false, spans, dash: false }) =~= seq![
        '[',
        first,
        second,
        ']',
    ]);
}

proof fn lemma_more_written()
    ensures
        syntax::valid(more_digits()),
        syntax::written(more_digits()) == seq!['[', '0', '-', '9', ']', '+'],
{
    lemma_range_written('0', '9');
    assert(syntax::written(more_digits()) =~= seq!['[', '0', '-', '9', ']', '+']);
}

proof fn lemma_fraction_written()
    ensures
        syntax::valid(fraction_tree()),
        syntax::written(fraction_tree()) == seq![
            '(',
            '\\',
            '.',
            '[',
            '0',
            '-',
            '9',
            ']',
            '+',
            ')',
            '?',
        ],
{
    lemma_more_written();
    lemma_one('.');
    let point = join(Syntax::Escaped('.'), more_digits());
    assert(syntax::valid(point));
    assert(syntax::written(point) =~= seq!['\\', '.', '[', '0', '-', '9', ']', '+']);
    assert(syntax::valid(capture(point)));
    let inner = seq!['(', '\\', '.', '[', '0', '-', '9', ']', '+', ')'];
    assert(syntax::written(capture(point)) =~= inner);
    assert(syntax::valid(fraction_tree()));
    assert(syntax::written(fraction_tree()) =~= inner + seq!['?']);
}

proof fn lemma_exponent_written()
    ensures
        syntax::valid(exponent_tree()),
        syntax::written(exponent_tree()) == seq![
            '(',
            '[',
            'e',
            'E',
            ']',
            '[',
            '+',
            '-',
            ']',
            '[',
            '0',
            '-',
            '9',
            ']',
            '+',
            ')',
            '?',
        ],
{
    lemma_more_written();
    lemma_class_written('e', 'E');
    let spans = seq![Span::One(Mark::Char('+'))];
    reveal_with_fuel(syntax::spans_text, 2);
    assert(syntax::valid_span(spans[0]));
    assert(syntax::spans_text(spans, 1) =~= seq!['+']);
    assert(syntax::valid(sign_tree()));
    assert(syntax::written(sign_tree()) =~= seq!['[', '+', '-', ']']);
    let front = join(letter_tree(), sign_tree());
    assert(syntax::valid(front));
    assert(syntax::written(front) =~= seq!['[', 'e', 'E', ']', '[', '+', '-', ']']);
    let inner = join(front, more_digits());
    assert(syntax::valid(inner));
    let body = seq!['[', 'e', 'E', ']', '[', '+', '-', ']', '[', '0', '-', '9', ']', '+'];
    assert(syntax::written(inner) =~= body);
    assert(syntax::valid(capture(inner)));
    assert(syntax::written(capture(inner)) =~= seq!['('] + body + seq![')']);
    assert(syntax::valid(exponent_tree()));
    assert(syntax::written(exponent_tree()) =~= seq!['('] + body + seq![')'] + seq!['?']);
}

/// The parts of the pattern of a number, put together.
proof fn lemma_number_text(a: Seq<char>, b: Seq<char>, c: Seq<char>)
    requires
        a == "(-)?(0|[1-9][0-9]*)"@,
        b == seq!['(', '\\', '.', '[', '0', '-', '9', ']', '+', ')', '?'],
        c == seq![
            '(',
            '[',
            'e',
            'E',
            ']',
            '[',
            '+',
            '-',
            ']',
            '[',
            '0',
            '-',
            '9',
            ']',
            '+',
            ')',
            '?',
        ],
    ensures
        seq!['('] + a + seq![')'] + b + c == json_schema::NUMBER@,
{
    reveal_strlit("(-)?(0|[1-9][0-9]*)");
    reveal_strlit("((-)?(0|[1-9][0-9]*))(\\.[0-9]+)?([eE][+-][0-9]+)?");
    assert(seq!['('] + a + seq![')'] + b + c
        =~= "((-)?(0|[1-9][0-9]*))(\\.[0-9]+)?([eE][+-][0-9]+)?"@);
}

proof fn lemma_number_written()
    ensures
        syntax::valid(number_tree()),
        syntax::written(number_tree()) == json_schema::NUMBER@,
{
    lemma_integer_written();
    lemma_fraction_written();
    lemma_exponent_written();
    let whole = capture(integer_tree());
    assert(syntax::valid(whole));
    assert(syntax::written(whole) == seq!['('] + syntax::written(integer_tree()) + seq![')']);
    let start = join(whole, fraction_tree());
    assert(syntax::valid(start));
    assert(syntax::written(start) == syntax::written(whole) + syntax::written(fraction_tree()));
    assert(syntax::written(number_tree()) == syntax::written(start) + syntax::written(
        exponent_tree(),
    ));
    lemma_number_text(
        syntax::written(integer_tree()),
        syntax::written(fraction_tree()),
        syntax::written(exponent_tree()),
    );
}

/// The pattern of a word of letters.
proof fn lemma_letters(t: Seq<char>)
    requires
        forall|i: int| 0 <= i < t.len() ==> !text::is_meta(#[trigger] t[i]),
    ensures
        text::escaped(t) == t,
    decreases t.len(),
{
    if t.len() > 0 {
        lemma_letters(t.drop_last());
        assert(!text::is_meta(t[t.len() - 1]));
        assert(t.drop_last().push(t.last()) =~= t);
    } else {
        assert(text::escaped(t) =~= t);
    }
}

/// The pattern of a text for itself.
pub open spec fn word(t: Seq<char>) -> Syntax {
    word_tree(t, t.len())
}

/// The pattern of a JSON boolean.
pub open spec fn boolean_tree() -> Syntax {
    capture(bar(word("true"@), word("false"@)))
}

proof fn lemma_boolean(w: Seq<u8>)
    ensures
        syntax::valid(boolean_tree()),
        syntax::written(boolean_tree()) == json_schema::BOOLEAN@,
        syntax::reads(boolean_tree(), w) <==> boolean(w),
{
    reveal_strlit("true");
    reveal_strlit("false");
    reveal_strlit("(true|false)");
    let yes = "true"@;
    let no = "false"@;
    lemma_word(yes, yes.len());
    lemma_word(no, no.len());
    assert(yes.take(yes.len() as int) =~= yes);
    assert(no.take(no.len() as int) =~= no);
    lemma_letters(yes);
    lemma_letters(no);
    let both = bar(word(yes), word(no));
    assert(syntax::valid(both));
    assert(syntax::written(both) =~= yes + seq!['|'] + no);
    assert(syntax::written(boolean_tree()) =~= "(true|false)"@);
    assert(syntax::reads(both, w) == (syntax::reads(word(yes), w) || syntax::reads(word(no), w)));
}

/// The characters below the space, in brackets.
spec fn low_text() -> Seq<char> {
    seq!['\\', 'x', '0', '0', '-', '\\', 'x', '1', 'F']
}

/// The other control characters, in brackets.
spec fn high_text() -> Seq<char> {
    seq!['\\', 'x', '7', 'F', '-', '\\', 'x', '9', 'F']
}

proof fn lemma_clean_written()
    ensures
        syntax::valid(clean_tree()),
        syntax::written(clean_tree()) == seq!['[', '^'] + (seq!['"'] + seq!['\\', '\\'] + low_text()
            + high_text()) + seq![']'],
{
    let spans = seq![
        Span::One(Mark::Char('"')),
        Span::One(Mark::Escaped('\\')),
        Span::Range(Mark::Hex(0), Mark::Hex(31)),
        Span::Range(Mark::Hex(127), Mark::Hex(159)),
    ];
    assert(syntax::mark_text(Mark::Hex(0)) =~= seq!['\\', 'x', '0', '0']);
    assert(syntax::mark_text(Mark::Hex(31)) =~= seq!['\\', 'x', '1', 'F']);
    assert(syntax::mark_text(Mark::Hex(127)) =~= seq!['\\', 'x', '7', 'F']);
    assert(syntax::mark_text(Mark::Hex(159)) =~= seq!['\\', 'x', '9', 'F']);
    assert(syntax::span_text(spans[2]) =~= low_text());
    assert(syntax::span_text(spans[3]) =~= high_text());
    assert(syntax::valid_span(spans[0]));
    assert(syntax::valid_span(spans[1]));
    assert(syntax::marked(Mark::Hex(0)) <= syntax::marked(Mark::Hex(31)));
    assert(syntax::marked(Mark::Hex(127)) <= syntax::marked(Mark::Hex(159)));
    assert(syntax::valid_span(spans[2]));
    assert(syntax::valid_span(spans[3]));
    let none = syntax::spans_text(spans, 0);
    assert(none =~= Seq::empty());
    assert(syntax::spans_text(spans, 1) == none + syntax::span_text(spans[0]));
    assert(syntax::spans_text(spans, 1) =~= seq!['"']);
    assert(syntax::spans_text(spans, 2) == syntax::spans_text(spans, 1) + syntax::span_text(
        spans[1],
    ));
    assert(syntax::spans_text(spans, 3) == syntax::spans_text(spans, 2) + syntax::span_text(
        spans[2],
    ));
    assert(syntax::spans_text(spans, 4) == syntax::spans_text(spans, 3) + syntax::span_text(
        spans[3],
    ));
}

proof fn lemma_quote_written()
    ensures
        syntax::valid(quote_tree()),
        syntax::written(quote_tree()) == seq!['[', '"', '\\', '\\', ']'],
{
    let pair = seq![Span::One(Mark::Char('"')), Span::One(Mark::Escaped('\\'))];
    reveal_with_fuel(syntax::spans_text, 3);
    assert(syntax::valid_span(pair[0]) && syntax::valid_span(pair[1]));
    assert(syntax::spans_text(pair, 2) =~= seq!['"', '\\', '\\']);
    assert(syntax::written(quote_tree()) =~= seq!['[', '"', '\\', '\\', ']']);
}

/// The parts of the pattern of a string, put together.
proof fn lemma_string_text(a: Seq<char>, b: Seq<char>)
    requires
        a == seq!['[', '^'] + (seq!['"'] + seq!['\\', '\\'] + low_text() + high_text()) + seq![']'],
        b == seq!['\\', '\\', '[', '"', '\\', '\\', ']'],
    ensures
        seq!['"'] + (seq!['('] + (a + seq!['|'] + b) + seq![')'] + seq!['*']) + seq!['"']
            == json_schema::STRING@,
{
    reveal_strlit("\"([^\"\\\\\\x00-\\x1F\\x7F-\\x9F]|\\\\[\"\\\\])*\"");
    assert(a =~= seq![
        '[',
        '^',
        '"',
        '\\',
        '\\',
        '\\',
        'x',
        '0',
        '0',
        '-',
        '\\',
        'x',
        '1',
        'F',
        '\\',
        'x',
        '7',
        'F',
        '-',
        '\\',
        'x',
        '9',
        'F',
        ']',
    ]);
    assert(seq!['"'] + (seq!['('] + (a + seq!['|'] + b) + seq![')'] + seq!['*']) + seq!['"']
        =~= "\"([^\"\\\\\\x00-\\x1F\\x7F-\\x9F]|\\\\[\"\\\\])*\""@);
}

proof fn lemma_string_written()
    ensures
        syntax::valid(string_tree()),
        syntax::written(string_tree()) == json_schema::STRING@,
{
    lemma_one('"');
    lemma_one('\\');
    lemma_clean_written();
    lemma_quote_written();
    let escape = join(Syntax::Escaped('\\'), quote_tree());
    assert(syntax::valid(escape));
    assert(syntax::written(escape) =~= seq!['\\', '\\', '[', '"', '\\', '\\', ']']);
    assert(syntax::valid(piece_tree()));
    assert(syntax::written(piece_tree()) == syntax::written(clean_tree()) + seq!['|']
        + syntax::written(escape));
    let group = capture(piece_tree());
    assert(syntax::valid(group));
    assert(syntax::written(group) == seq!['('] + syntax::written(piece_tree()) + seq![')']);
    assert(syntax::valid(pieces_tree()));
    assert(syntax::written(pieces_tree()) == syntax::written(group) + seq!['*']);
    let front = join(Syntax::Char('"'), pieces_tree());
    assert(syntax::valid(front));
    assert(syntax::written(front) == seq!['"'] + syntax::written(pieces_tree()));
    assert(syntax::written(string_tree()) == syntax::written(front) + seq!['"']);
    lemma_string_text(syntax::written(clean_tree()), syntax::written(escape));
}

/// In an escaped text every bracket stands behind a backslash.
proof fn lemma_no_bracket(t: Seq<char>, k: int)
    requires
        0 <= k < text::escaped(t).len(),
        text::escaped(t)[k] == '(',
    ensures
        k > 0,
        text::escaped(t)[k - 1] == '\\',
    decreases t.len(),
{
    if t.len() > 0 {
        let front = text::escaped(t.drop_last());
        if k < front.len() {
            assert(front[k] == '(');
            lemma_no_bracket(t.drop_last(), k);
        }
    }
}

/// Escaped texts that are alike are those of the same text.
pub proof fn lemma_escaped_same(a: Seq<char>, b: Seq<char>)
    requires
        text::escaped(a) == text::escaped(b),
    ensures
        a == b,
    decreases a.len(),
{
    let x = text::escaped(a);
    let y = text::escaped(b);
    if a.len() == 0 {
        if b.len() > 0 {
            assert(y.len() > 0);
        }
        assert(a =~= b);
    } else {
        if b.len() == 0 {
            assert(x.len() > 0);
        }
        assert(x.last() == a.last() && y.last() == b.last());
        let m = if text::is_meta(a.last()) {
            2int
        } else {
            1int
        };
        assert(x.take(x.len() - m) =~= text::escaped(a.drop_last()));
        assert(y.take(y.len() - m) =~= text::escaped(b.drop_last()));
        lemma_escaped_same(a.drop_last(), b.drop_last());
        assert(a =~= a.drop_last().push(a.last()));
        assert(b =~= b.drop_last().push(b.last()));
    }
}

/// An escaped text is none of the patterns of the scalars but null.
proof fn lemma_escaped_apart(t: Seq<char>)
    ensures
        text::escaped(t) != json_schema::STRING@,
        text::escaped(t) != json_schema::INTEGER@,
        text::escaped(t) != json_schema::NUMBER@,
        text::escaped(t) != json_schema::BOOLEAN@,
{
    reveal_strlit("\"([^\"\\\\\\x00-\\x1F\\x7F-\\x9F]|\\\\[\"\\\\])*\"");
    reveal_strlit("(-)?(0|[1-9][0-9]*)");
    reveal_strlit("((-)?(0|[1-9][0-9]*))(\\.[0-9]+)?([eE][+-][0-9]+)?");
    reveal_strlit("(true|false)");
    let x = text::escaped(t);
    if x == json_schema::STRING@ {
        assert(x[1] == '(' && x[0] == '"');
        lemma_no_bracket(t, 1);
    }
    if x.len() > 0 && x[0] == '(' {
        lemma_no_bracket(t, 0);
    }
    if x == json_schema::INTEGER@ {
        assert(x[0] == '(');
    }
    if x == json_schema::NUMBER@ {
        assert(x[0] == '(');
    }
    if x == json_schema::BOOLEAN@ {
        assert(x[0] == '(');
    }
}

/// An escaped text matches the text and nothing else.
pub proof fn lemma_literal(t: Seq<char>, w: Seq<u8>)
    ensures
        dense::matches(text::escaped(t), w) <==> w == utf8::encode_utf8(t),
{
    lemma_escaped_apart(t);
    if text::escaped(t) == json_schema::NULL@ {
        reveal_strlit("null");
        lemma_letters("null"@);
        lemma_escaped_same(t, "null"@);
    } else {
        if dense::matches(text::escaped(t), w) {
            let other = choose|other: Seq<char>|
                text::escaped(t) == #[trigger] text::escaped(other) && w == utf8::encode_utf8(
                    other,
                );
            lemma_escaped_same(t, other);
        }
    }
}

/// A plain pattern can be read, and what it says is what it matches.
pub proof fn lemma_plain_tree(pattern: Seq<char>) -> (tree: Syntax)
    requires
        dense::plain_pattern(pattern),
    ensures
        syntax::valid(tree),
        syntax::written(tree) == pattern,
        forall|w: Seq<u8>| #[trigger] syntax::reads(tree, w) <==> dense::matches(pattern, w),
{
    if exists|t: Seq<char>| pattern == #[trigger] text::escaped(t) {
        let t = choose|t: Seq<char>| pattern == #[trigger] text::escaped(t);
        lemma_word(t, t.len());
        assert(t.take(t.len() as int) =~= t);
        assert forall|w: Seq<u8>| #[trigger] syntax::reads(word(t), w) <==> dense::matches(
            pattern,
            w,
        ) by {
            lemma_literal(t, w);
        }
        word(t)
    } else {
        reveal_strlit("null");
        lemma_letters("null"@);
        assert(pattern != json_schema::NULL@) by {
            if pattern == json_schema::NULL@ {
                assert(pattern == text::escaped("null"@));
            }
        }
        lemma_scalar_tree(pattern)
    }
}

/// The patterns of the scalars differ.
proof fn lemma_scalars_apart()
    ensures
        json_schema::STRING@ != json_schema::INTEGER@,
        json_schema::STRING@ != json_schema::NUMBER@,
        json_schema::STRING@ != json_schema::BOOLEAN@,
        json_schema::INTEGER@ != json_schema::NUMBER@,
        json_schema::INTEGER@ != json_schema::BOOLEAN@,
        json_schema::NUMBER@ != json_schema::BOOLEAN@,
        json_schema::NULL@ != json_schema::STRING@,
        json_schema::NULL@ != json_schema::INTEGER@,
        json_schema::NULL@ != json_schema::NUMBER@,
        json_schema::NULL@ != json_schema::BOOLEAN@,
{
    reveal_strlit("\"([^\"\\\\\\x00-\\x1F\\x7F-\\x9F]|\\\\[\"\\\\])*\"");
    reveal_strlit("(-)?(0|[1-9][0-9]*)");
    reveal_strlit("((-)?(0|[1-9][0-9]*))(\\.[0-9]+)?([eE][+-][0-9]+)?");
    reveal_strlit("(true|false)");
    reveal_strlit("null");
    assert(json_schema::STRING@[0] == '"');
    assert(json_schema::INTEGER@[0] == '(' && json_schema::INTEGER@[1] == '-');
    assert(json_schema::NUMBER@[0] == '(' && json_schema::NUMBER@[1] == '(');
    assert(json_schema::BOOLEAN@[0] == '(' && json_schema::BOOLEAN@[1] == 't');
    assert(json_schema::NULL@[0] == 'n');
}

proof fn lemma_scalar_tree(pattern: Seq<char>) -> (tree: Syntax)
    requires
        pattern == json_schema::STRING@ || pattern == json_schema::INTEGER@ || pattern
            == json_schema::NUMBER@ || pattern == json_schema::BOOLEAN@,
    ensures
        syntax::valid(tree),
        syntax::written(tree) == pattern,
        forall|w: Seq<u8>| #[trigger] syntax::reads(tree, w) <==> dense::matches(pattern, w),
{
    lemma_scalars_apart();
    lemma_string_written();
    lemma_integer_written();
    lemma_number_written();
    lemma_boolean(Seq::empty());
    let tree = if pattern == json_schema::STRING@ {
        string_tree()
    } else if pattern == json_schema::INTEGER@ {
        integer_tree()
    } else if pattern == json_schema::NUMBER@ {
        number_tree()
    } else {
        boolean_tree()
    };
    assert forall|w: Seq<u8>| #[trigger] syntax::reads(tree, w) <==> dense::matches(
        pattern,
        w,
    ) by {
        lemma_string(w);
        lemma_integer(w);
        lemma_number(w);
        lemma_boolean(w);
    }
    tree
}

/// The patterns of the scalars match the texts of the scalars.
pub proof fn law_scalar_patterns(w: Seq<u8>)
    ensures
        dense::matches(json_schema::STRING@, w) == string(w),
        dense::matches(json_schema::INTEGER@, w) == integer(w),
        dense::matches(json_schema::NUMBER@, w) == number(w),
        dense::matches(json_schema::BOOLEAN@, w) == boolean(w),
        dense::matches(json_schema::NULL@, w) == null(w),
{
    lemma_scalars_apart();
}

/// A word that a plain pattern is known to match is one that it matches.
pub proof fn lemma_known_word(pattern: Seq<char>, w: Seq<u8>)
    requires
        dense::plain_word(pattern, w),
    ensures
        dense::matches(pattern, w),
{
    law_scalar_patterns(w);
    lemma_scalars_apart();
    if exists|t: Seq<char>| pattern == #[trigger] text::escaped(t) && w == utf8::encode_utf8(t) {
        let t = choose|t: Seq<char>|
            pattern == #[trigger] text::escaped(t) && w == utf8::encode_utf8(t);
        lemma_literal(t, w);
    } else if pattern == json_schema::STRING@ {
        reveal_strlit("\"\"");
        let t = Seq::<char>::empty();
        assert(text::json_text(t) =~= "\"\""@);
        assert(all_clean(t));
    } else if pattern == json_schema::INTEGER@ || pattern == json_schema::NUMBER@ {
        reveal_strlit("0");
        assert("0"@ =~= seq!['0']);
        lemma_ascii('0');
        assert(w == seq![48u8]);
        assert(natural(w));
        assert(w.take(1) =~= w);
        assert(integer(w.take(1)) && exponent(w.skip(1)));
        assert(fraction(w.subrange(1, 1)));
    }
}

} // verus!
