//! The syntax of patterns, as far as it is used: what a text says as a pattern.

use vstd::prelude::*;
use vstd::utf8;

use crate::text;

verus! {

/// How a character is written in brackets: as itself, behind a backslash, or by its number.
pub enum Mark {
    Char(char),
    Escaped(char),
    Hex(u8),
}

/// What stands in brackets: a character, or all from one to another.
pub enum Span {
    One(Mark),
    Range(Mark, Mark),
}

/// The parts of a pattern.
pub enum Syntax {
    Nothing,
    Char(char),
    Escaped(char),
    Class { negated: bool, spans: Seq<Span>, dash: bool },
    Capture(Box<Syntax>),
    Group(Box<Syntax>),
    Bar(Box<Syntax>, Box<Syntax>),
    Join(Box<Syntax>, Box<Syntax>),
    Star(Box<Syntax>),
    Plus(Box<Syntax>),
    Optional(Box<Syntax>),
}

/// A digit in base sixteen.
pub open spec fn upper_digit(value: int) -> char {
    if value < 10 {
        (48 + value) as char
    } else {
        (55 + value) as char
    }
}

/// How a character in brackets is written.
pub open spec fn mark_text(mark: Mark) -> Seq<char> {
    match mark {
        Mark::Char(c) => seq![c],
        Mark::Escaped(c) => seq!['\\', c],
        Mark::Hex(b) => seq!['\\', 'x', upper_digit(b as int / 16), upper_digit(b as int % 16)],
    }
}

/// How a part of what stands in brackets is written.
pub open spec fn span_text(span: Span) -> Seq<char> {
    match span {
        Span::One(mark) => mark_text(mark),
        Span::Range(from, to) => mark_text(from) + seq!['-'] + mark_text(to),
    }
}

/// How the first `n` parts of what stands in brackets are written.
pub open spec fn spans_text(spans: Seq<Span>, n: nat) -> Seq<char>
    decreases n,
{
    if n == 0 || n > spans.len() {
        Seq::empty()
    } else {
        spans_text(spans, (n - 1) as nat) + span_text(spans[n - 1])
    }
}

/// How a pattern is written.
pub open spec fn written(tree: Syntax) -> Seq<char>
    decreases tree,
{
    match tree {
        Syntax::Nothing => Seq::empty(),
        Syntax::Char(c) => seq![c],
        Syntax::Escaped(c) => seq!['\\', c],
        Syntax::Class { negated, spans, dash } => (if negated {
            seq!['[', '^']
        } else {
            seq!['[']
        }) + spans_text(spans, spans.len()) + (if dash {
            seq!['-', ']']
        } else {
            seq![']']
        }),
        Syntax::Capture(inner) => seq!['('] + written(*inner) + seq![')'],
        Syntax::Group(inner) => seq!['(', '?', ':'] + written(*inner) + seq![')'],
        Syntax::Bar(left, right) => written(*left) + seq!['|'] + written(*right),
        Syntax::Join(left, right) => written(*left) + written(*right),
        Syntax::Star(inner) => written(*inner) + seq!['*'],
        Syntax::Plus(inner) => written(*inner) + seq!['+'],
        Syntax::Optional(inner) => written(*inner) + seq!['?'],
    }
}

/// Whether a character does more outside brackets than stand for itself.
pub open spec fn special(c: char) -> bool {
    ||| c == '\\' || c == '.' || c == '+' || c == '*' || c == '?' || c == '|'
    ||| c == '(' || c == ')' || c == '[' || c == ']' || c == '{' || c == '}'
    ||| c == '^' || c == '$'
}

/// Whether a character does more in brackets than stand for itself.
pub open spec fn special_inside(c: char) -> bool {
    c == '\\' || c == '[' || c == ']' || c == '^' || c == '-' || c == '&' || c == '~'
}

/// Whether a character in brackets is written right.
pub open spec fn valid_mark(mark: Mark) -> bool {
    match mark {
        Mark::Char(c) => !special_inside(c),
        Mark::Escaped(c) => text::is_meta(c),
        Mark::Hex(_) => true,
    }
}

/// The character that is meant.
pub open spec fn marked(mark: Mark) -> char {
    match mark {
        Mark::Char(c) => c,
        Mark::Escaped(c) => c,
        Mark::Hex(b) => b as char,
    }
}

/// Whether a part of what stands in brackets is written right.
pub open spec fn valid_span(span: Span) -> bool {
    match span {
        Span::One(mark) => valid_mark(mark),
        Span::Range(from, to) => valid_mark(from) && valid_mark(to) && marked(from) <= marked(to),
    }
}

/// Whether a part of what stands in brackets means a character.
pub open spec fn spanned(span: Span, c: char) -> bool {
    match span {
        Span::One(mark) => c == marked(mark),
        Span::Range(from, to) => marked(from) <= c <= marked(to),
    }
}

/// Whether a part can be repeated as it is written.
pub open spec fn unit(tree: Syntax) -> bool {
    match tree {
        Syntax::Char(_) => true,
        Syntax::Escaped(_) => true,
        Syntax::Class { .. } => true,
        Syntax::Capture(_) => true,
        Syntax::Group(_) => true,
        _ => false,
    }
}

/// Whether a pattern is written so that it is read as it is meant: what stands for itself does no
/// more, what is repeated is one part, and bars are in brackets where something stands beside them.
pub open spec fn valid(tree: Syntax) -> bool
    decreases tree,
{
    match tree {
        Syntax::Nothing => true,
        Syntax::Char(c) => !special(c),
        Syntax::Escaped(c) => text::is_meta(c),
        Syntax::Class { negated: _, spans, dash: _ } => spans.len() > 0 && forall|i: int|
            0 <= i < spans.len() ==> valid_span(#[trigger] spans[i]),
        Syntax::Capture(inner) => valid(*inner),
        Syntax::Group(inner) => valid(*inner),
        Syntax::Bar(left, right) => valid(*left) && valid(*right),
        Syntax::Join(left, right) => valid(*left) && valid(*right) && !(*left is Bar) && !(
        *right is Bar),
        Syntax::Star(inner) => valid(*inner) && unit(*inner),
        Syntax::Plus(inner) => valid(*inner) && unit(*inner),
        Syntax::Optional(inner) => valid(*inner) && unit(*inner),
    }
}

/// Whether brackets mean a character.
pub open spec fn in_class(negated: bool, spans: Seq<Span>, dash: bool, c: char) -> bool {
    negated != ((dash && c == '-') || exists|i: int|
        0 <= i < spans.len() && spanned(#[trigger] spans[i], c))
}

/// A character in UTF-8.
pub open spec fn encoded(c: char) -> Seq<u8> {
    utf8::encode_utf8(seq![c])
}

/// Marks a number of repetitions.
pub open spec fn times(n: nat) -> bool {
    true
}

/// Marks a place in a text.
pub open spec fn cut(k: int) -> bool {
    true
}

/// Whether a pattern matches the whole of a byte string.
pub open spec fn reads(tree: Syntax, w: Seq<u8>) -> bool
    decreases tree, 1nat, 0nat,
{
    match tree {
        Syntax::Nothing => w.len() == 0,
        Syntax::Char(c) => w == encoded(c),
        Syntax::Escaped(c) => w == encoded(c),
        Syntax::Class { negated, spans, dash } => exists|c: char|
            in_class(negated, spans, dash, c) && w == #[trigger] encoded(c),
        Syntax::Capture(inner) => reads(*inner, w),
        Syntax::Group(inner) => reads(*inner, w),
        Syntax::Bar(left, right) => reads(*left, w) || reads(*right, w),
        Syntax::Join(left, right) => exists|k: int| #[trigger]
            cut(k) && 0 <= k <= w.len() && reads(*left, w.take(k)) && reads(*right, w.skip(k)),
        Syntax::Star(inner) => exists|n: nat| #[trigger] times(n) && repeats(tree, n, w),
        Syntax::Plus(inner) => exists|n: nat| #[trigger] times(n) && n > 0 && repeats(tree, n, w),
        Syntax::Optional(inner) => w.len() == 0 || reads(*inner, w),
    }
}

/// Whether so many repetitions of what is repeated match a byte string.
pub open spec fn repeats(tree: Syntax, n: nat, w: Seq<u8>) -> bool
    decreases tree, 0nat, n,
{
    if n == 0 {
        w.len() == 0
    } else {
        exists|k: int| #[trigger]
            cut(k) && 0 <= k <= w.len() && repeats(tree, (n - 1) as nat, w.skip(k)) && match tree {
                Syntax::Star(inner) => reads(*inner, w.take(k)),
                Syntax::Plus(inner) => reads(*inner, w.take(k)),
                _ => false,
            }
    }
}

} // verus!
