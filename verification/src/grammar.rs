//! Context-free grammars over regular terminals.

use vstd::prelude::*;
use vstd::utf8;

use crate::dense;
use crate::lexical;
use crate::derivation;
use crate::derivation::{Lex, Rule};
use crate::residual;
use crate::text;
use crate::schema::{clone_optional, Provenance};
use crate::symbol::{NonterminalId, ProductionId, Symbol, TerminalId};

verus! {

/// A nonterminal and where it comes from.
#[derive(Debug, PartialEq, Eq)]
pub struct Nonterminal {
    pub id: NonterminalId,
    pub name: String,
    pub provenance: Provenance,
}

/// The language of a terminal: one byte string, or that of a pattern.
#[derive(Debug, PartialEq, Eq)]
pub enum RegularTerminalKind {
    Literal(Vec<u8>),
    Pattern { forward: String, reverse: Option<String> },
}

/// A terminal and where it comes from.
#[derive(Debug, PartialEq, Eq)]
pub struct RegularTerminal {
    pub id: TerminalId,
    pub kind: RegularTerminalKind,
    pub provenance: Provenance,
}

/// A production and where it comes from.
#[derive(Debug, PartialEq, Eq)]
pub struct Production {
    pub id: ProductionId,
    pub lhs: NonterminalId,
    pub rhs: Vec<Symbol>,
    pub provenance: Provenance,
}

/// A grammar.
#[derive(Debug, PartialEq, Eq)]
pub struct Grammar {
    pub start: NonterminalId,
    pub nonterminals: Vec<Nonterminal>,
    pub terminals: Vec<RegularTerminal>,
    pub productions: Vec<Production>,
}

/// What a terminal stands for, as a mathematical value.
pub enum TerminalKind {
    Literal(Seq<u8>),
    Pattern { forward: Seq<char>, reverse: Option<Seq<char>> },
}

/// The languages of all kinds of terminals.
pub type KindLex = spec_fn(TerminalKind, Seq<u8>) -> bool;

/// The view of an optional string.
pub open spec fn optional_view(text: Option<String>) -> Option<Seq<char>> {
    match text {
        Some(text) => Some(text@),
        None => None,
    }
}

impl View for RegularTerminalKind {
    type V = TerminalKind;

    open spec fn view(&self) -> TerminalKind {
        match self {
            RegularTerminalKind::Literal(bytes) => TerminalKind::Literal(bytes@),
            RegularTerminalKind::Pattern { forward, reverse } => TerminalKind::Pattern {
                forward: forward@,
                reverse: optional_view(*reverse),
            },
        }
    }
}

/// The pattern that a kind of terminal is matched by.
pub open spec fn kind_pattern(kind: TerminalKind) -> Seq<char> {
    match kind {
        TerminalKind::Literal(bytes) => text::escaped(text::lossy(bytes)),
        TerminalKind::Pattern { forward, .. } => forward,
    }
}

/// The pattern that the reversed words of a kind of terminal are matched by.
pub open spec fn kind_reverse(kind: TerminalKind) -> Option<Seq<char>> {
    match kind {
        TerminalKind::Literal(bytes) => Some(text::escaped(text::lossy(bytes.reverse()))),
        TerminalKind::Pattern { reverse, .. } => reverse,
    }
}

/// What a kind of terminal stands for: a literal for itself, a pattern for what it matches.
pub open spec fn kind_matches(kind: TerminalKind, w: Seq<u8>) -> bool {
    match kind {
        TerminalKind::Literal(bytes) => w == bytes,
        TerminalKind::Pattern { forward, .. } => dense::matches(forward, w),
    }
}

/// What every kind of terminal stands for.
pub open spec fn terminal_kinds() -> KindLex {
    |kind: TerminalKind, w: Seq<u8>| kind_matches(kind, w)
}

/// Whether the pattern of a kind of terminal matches what the kind stands for, where a literal is
/// UTF-8.
pub open spec fn kind_read(kind: TerminalKind) -> bool {
    kind matches TerminalKind::Literal(bytes) ==> utf8::valid_utf8(bytes) ==> forall|w: Seq<u8>|
        #[trigger] dense::matches(kind_pattern(kind), w) <==> w == bytes
}

/// Whether the reverse pattern of a kind of terminal matches just the reversed words, where the
/// reversed literal is UTF-8.
pub open spec fn kind_read_back(kind: TerminalKind) -> bool {
    kind matches TerminalKind::Literal(bytes) ==> utf8::valid_utf8(bytes.reverse()) ==> (
    kind_reverse(kind) matches Some(backward) && forall|w: Seq<u8>| #[trigger]
        dense::matches(backward, w) <==> w.reverse() == bytes)
}

impl RegularTerminal {
    /// The pattern that the terminal is matched by: a literal's text, escaped, or the pattern
    /// itself.
    pub fn forward_pattern(&self) -> (pattern: String)
        ensures
            pattern@ == kind_pattern(self.kind@),
            kind_read(self.kind@),
    {
        match &self.kind {
            RegularTerminalKind::Literal(bytes) => {
                let decoded = text::decode_lossy(bytes.as_slice());
                proof {
                    assert forall|w: Seq<u8>| #[trigger] dense::matches(
                        text::escaped(decoded@),
                        w,
                    ) <==> w == utf8::encode_utf8(decoded@) by {
                        lexical::lemma_literal(decoded@, w);
                    }
                }
                text::escape(decoded.as_str())
            },
            RegularTerminalKind::Pattern { forward, .. } => forward.clone(),
        }
    }

    /// The pattern that the terminal's reversed words are matched by, if it is known.
    pub fn reverse_pattern(&self) -> (pattern: Option<String>)
        ensures
            optional_view(pattern) == kind_reverse(self.kind@),
            kind_read_back(self.kind@),
    {
        match &self.kind {
            RegularTerminalKind::Literal(bytes) => {
                let mut reversed: Vec<u8> = Vec::new();
                let mut index: usize = bytes.len();
                while index > 0
                    invariant
                        index <= bytes@.len(),
                        reversed@ == bytes@.skip(index as int).reverse(),
                    decreases index,
                {
                    index -= 1;
                    reversed.push(bytes[index]);
                    assert(reversed@ =~= bytes@.skip(index as int).reverse());
                }
                assert(reversed@ =~= bytes@.reverse());
                let decoded = text::decode_lossy(reversed.as_slice());
                proof {
                    assert forall|w: Seq<u8>| utf8::valid_utf8(reversed@) implies (
                    #[trigger] dense::matches(text::escaped(decoded@), w) <==> w.reverse()
                        == bytes@) by {
                        lexical::lemma_literal(decoded@, w);
                        assert(w.reverse().reverse() =~= w);
                        assert(bytes@.reverse().reverse() =~= bytes@);
                    }
                }
                Some(text::escape(decoded.as_str()))
            },
            RegularTerminalKind::Pattern { reverse, .. } => clone_optional(reverse),
        }
    }
}

impl Clone for Nonterminal {
    fn clone(&self) -> (copy: Self)
        ensures
            copy == *self,
    {
        Nonterminal {
            id: self.id,
            name: self.name.clone(),
            provenance: self.provenance.clone(),
        }
    }
}

impl Clone for RegularTerminalKind {
    fn clone(&self) -> (copy: Self)
        ensures
            copy@ == self@,
    {
        match self {
            RegularTerminalKind::Literal(bytes) => {
                let copied = bytes.clone();
                assert(copied@ =~= bytes@);
                RegularTerminalKind::Literal(copied)
            },
            RegularTerminalKind::Pattern { forward, reverse } => RegularTerminalKind::Pattern {
                forward: forward.clone(),
                reverse: clone_optional(reverse),
            },
        }
    }
}

impl Clone for RegularTerminal {
    fn clone(&self) -> (copy: Self)
        ensures
            copy.id == self.id,
            copy.kind@ == self.kind@,
            copy.provenance == self.provenance,
    {
        RegularTerminal {
            id: self.id,
            kind: self.kind.clone(),
            provenance: self.provenance.clone(),
        }
    }
}

impl Clone for Production {
    fn clone(&self) -> (copy: Self)
        ensures
            copy.id == self.id,
            copy.lhs == self.lhs,
            copy.rhs@ == self.rhs@,
            copy.provenance == self.provenance,
    {
        let rhs = self.rhs.clone();
        assert(rhs@ =~= self.rhs@);
        Production { id: self.id, lhs: self.lhs, rhs, provenance: self.provenance.clone() }
    }
}

/// The mathematical value of a production.
pub open spec fn production_rule(production: Production) -> Rule {
    Rule { lhs: production.lhs, rhs: production.rhs@ }
}

/// The languages of a list of terminals, from those of their kinds.
pub open spec fn kinds_lex(terminals: Seq<RegularTerminal>, kinds: KindLex) -> Lex {
    |t: u32, w: Seq<u8>| t < terminals.len() && kinds(terminals[t as int].kind@, w)
}

impl Grammar {
    /// The productions.
    pub open spec fn rules(&self) -> Seq<Rule> {
        self.productions@.map_values(|production: Production| production_rule(production))
    }

    /// The languages of the terminals, from those of their kinds.
    pub open spec fn lex(&self, kinds: KindLex) -> Lex {
        kinds_lex(self.terminals@, kinds)
    }

    /// The language of a nonterminal.
    pub open spec fn generates(&self, kinds: KindLex, nonterminal: u32, w: Seq<u8>) -> bool {
        derivation::generates(self.rules(), self.lex(kinds), nonterminal, w)
    }

    /// The language of the grammar.
    pub open spec fn language(&self, kinds: KindLex, w: Seq<u8>) -> bool {
        self.generates(kinds, self.start, w)
    }

    /// Whether the nonterminals of every production are there.
    pub open spec fn refers_within(&self) -> bool {
        forall|p: int|
            0 <= p < self.productions@.len() ==> (#[trigger] self.productions@[p]).lhs
                < self.nonterminals@.len() && forall|i: int|
                0 <= i < self.productions@[p].rhs@.len() ==> (
                #[trigger] self.productions@[p].rhs@[i] matches Symbol::Nonterminal(a) ==> a
                    < self.nonterminals@.len())
    }

    /// Whether identifiers are positions, and every symbol names something.
    pub open spec fn wf(&self) -> bool {
        &&& self.start < self.nonterminals@.len()
        &&& forall|a: int|
            0 <= a < self.nonterminals@.len() ==> (#[trigger] self.nonterminals@[a]).id == a
        &&& forall|t: int|
            0 <= t < self.terminals@.len() ==> (#[trigger] self.terminals@[t]).id == t
        &&& forall|p: int|
            0 <= p < self.productions@.len() ==> (#[trigger] self.productions@[p]).id == p
                && self.productions@[p].lhs < self.nonterminals@.len() && residual::symbols_in(
                self.productions@[p].rhs@,
                self.nonterminals@.len(),
                self.terminals@.len(),
            )
    }

    /// The positions of the productions of a nonterminal, in order.
    pub fn productions_for(&self, nonterminal: NonterminalId) -> (positions: Vec<usize>)
        ensures
            forall|p: int|
                0 <= p < self.productions@.len() && (#[trigger] self.productions@[p]).lhs
                    == nonterminal ==> positions@.contains(p as usize),
            forall|i: int|
                0 <= i < positions@.len() ==> #[trigger] positions@[i] < self.productions@.len()
                    && self.productions@[positions@[i] as int].lhs == nonterminal,
            forall|i: int, j: int|
                0 <= i < j < positions@.len() ==> positions@[i] < positions@[j],
    {
        let mut positions: Vec<usize> = Vec::new();
        let mut index: usize = 0;
        while index < self.productions.len()
            invariant
                index <= self.productions@.len(),
                forall|p: int|
                    0 <= p < index && (#[trigger] self.productions@[p]).lhs == nonterminal
                        ==> positions@.contains(p as usize),
                forall|i: int|
                    0 <= i < positions@.len() ==> #[trigger] positions@[i] < index
                        && self.productions@[positions@[i] as int].lhs == nonterminal,
                forall|i: int, j: int|
                    0 <= i < j < positions@.len() ==> positions@[i] < positions@[j],
            decreases self.productions@.len() - index,
        {
            if self.productions[index].lhs == nonterminal {
                let ghost then = positions@;
                positions.push(index);
                proof {
                    assert forall|p: int|
                        0 <= p < index + 1 && (#[trigger] self.productions@[p]).lhs
                            == nonterminal implies positions@.contains(p as usize) by {
                        crate::earley::lemma_push_contains(then, index, p as usize);
                    }
                }
            }
            index += 1;
        }
        positions
    }
}

} // verus!
