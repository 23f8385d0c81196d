//! Residual grammars: productions over literal and automaton terminals.

use std::sync::Arc;

use vstd::prelude::*;

use crate::automaton::CompiledByteDfa;
use crate::derivation::{Lex, Rule};
use crate::schema::Provenance;
use crate::symbol::{NonterminalId, ProductionId, Symbol};

verus! {

/// How far a terminal has been read.
#[derive(Clone, Copy, Debug, PartialEq, Eq, Structural, Hash)]
pub enum TerminalCursorState {
    Literal(u32),
    Dfa(u32),
}

/// A terminal: a fixed byte string, or the language of an automaton without the empty string.
#[derive(Clone, Debug, PartialEq, Eq)]
pub enum CompiledTerminal {
    Literal(Arc<[u8]>),
    Dfa(CompiledByteDfa),
}

impl CompiledTerminal {
    /// What holds of every compiled terminal.
    pub open spec fn wf(&self) -> bool {
        match self {
            CompiledTerminal::Literal(bytes) => bytes@.len() <= u32::MAX,
            CompiledTerminal::Dfa(dfa) => dfa.wf(),
        }
    }

    /// The cursor before the first byte.
    pub open spec fn spec_start(&self) -> TerminalCursorState {
        match self {
            CompiledTerminal::Literal(_) => TerminalCursorState::Literal(0),
            CompiledTerminal::Dfa(_) => TerminalCursorState::Dfa(0),
        }
    }

    /// Whether a cursor can belong to this terminal.
    pub open spec fn holds(&self, cursor: TerminalCursorState) -> bool {
        match (self, cursor) {
            (CompiledTerminal::Literal(bytes), TerminalCursorState::Literal(offset)) => offset
                <= bytes@.len(),
            (CompiledTerminal::Dfa(dfa), TerminalCursorState::Dfa(state)) => state < dfa.states(),
            _ => false,
        }
    }

    /// The cursor after one more byte, if the terminal can be read on.
    pub open spec fn spec_advance(
        &self,
        cursor: TerminalCursorState,
        byte: u8,
    ) -> Option<TerminalCursorState> {
        match (self, cursor) {
            (CompiledTerminal::Literal(bytes), TerminalCursorState::Literal(offset)) => {
                if offset < bytes@.len() && bytes@[offset as int] == byte {
                    Some(TerminalCursorState::Literal((offset + 1) as u32))
                } else {
                    None
                }
            },
            (CompiledTerminal::Dfa(dfa), TerminalCursorState::Dfa(state)) => {
                if dfa.step(state, byte) < dfa.states() {
                    Some(TerminalCursorState::Dfa(dfa.step(state, byte)))
                } else {
                    None
                }
            },
            _ => None,
        }
    }

    /// Whether what was read so far is a word of the terminal.
    pub open spec fn spec_accepting(&self, cursor: TerminalCursorState) -> bool {
        match (self, cursor) {
            (CompiledTerminal::Literal(bytes), TerminalCursorState::Literal(offset)) => offset
                == bytes@.len(),
            (CompiledTerminal::Dfa(dfa), TerminalCursorState::Dfa(state)) => dfa.accepts_at(state),
            _ => false,
        }
    }

    /// Whether what was read so far is a proper prefix of a word of the terminal.
    pub open spec fn spec_live(&self, cursor: TerminalCursorState) -> bool {
        match (self, cursor) {
            (CompiledTerminal::Literal(bytes), TerminalCursorState::Literal(offset)) => offset
                < bytes@.len(),
            (CompiledTerminal::Dfa(dfa), TerminalCursorState::Dfa(state)) => dfa.extendable_at(
                state,
            ),
            _ => false,
        }
    }

    /// The cursor after reading `w` from the start, if the terminal can be read so far.
    pub open spec fn read(&self, w: Seq<u8>) -> Option<TerminalCursorState>
        decreases w.len(),
    {
        if w.len() == 0 {
            Some(self.spec_start())
        } else {
            match self.read(w.drop_last()) {
                Some(cursor) => self.spec_advance(cursor, w.last()),
                None => None,
            }
        }
    }

    /// Whether `w` is a word of the terminal. The empty string never is one.
    pub open spec fn matches(&self, w: Seq<u8>) -> bool {
        w.len() > 0 && self.read(w) is Some && self.spec_accepting(self.read(w)->0)
    }

    /// The cursor before the first byte.
    pub fn start(&self) -> (cursor: TerminalCursorState)
        ensures
            cursor == self.spec_start(),
            self.wf() ==> self.holds(cursor),
    {
        match self {
            CompiledTerminal::Literal(_) => TerminalCursorState::Literal(0),
            CompiledTerminal::Dfa(_) => TerminalCursorState::Dfa(0),
        }
    }

    /// The cursor after one more byte, if the terminal can be read on.
    pub fn advance(&self, cursor: TerminalCursorState, byte: u8) -> (next: Option<
        TerminalCursorState,
    >)
        requires
            self.wf(),
        ensures
            next == self.spec_advance(cursor, byte),
            next matches Some(c) ==> self.holds(c),
    {
        match (self, cursor) {
            (CompiledTerminal::Literal(bytes), TerminalCursorState::Literal(offset)) => {
                if (offset as usize) < bytes.len() && bytes[offset as usize] == byte {
                    Some(TerminalCursorState::Literal(offset + 1))
                } else {
                    None
                }
            },
            (CompiledTerminal::Dfa(dfa), TerminalCursorState::Dfa(state)) => {
                let next: u32 = dfa.next_state(state, byte);
                if dfa.is_dead(next) {
                    None
                } else {
                    Some(TerminalCursorState::Dfa(next))
                }
            },
            _ => None,
        }
    }

    /// Whether what was read so far is a word of the terminal.
    pub fn is_accepting(&self, cursor: TerminalCursorState) -> (accepting: bool)
        ensures
            accepting == self.spec_accepting(cursor),
    {
        match (self, cursor) {
            (CompiledTerminal::Literal(bytes), TerminalCursorState::Literal(offset)) => {
                offset as usize == bytes.len()
            },
            (CompiledTerminal::Dfa(dfa), TerminalCursorState::Dfa(state)) => dfa.is_accepting(
                state,
            ),
            _ => false,
        }
    }

    /// Whether what was read so far is a proper prefix of a word of the terminal.
    pub fn is_live(&self, cursor: TerminalCursorState) -> (live: bool)
        requires
            self.wf(),
        ensures
            live == self.spec_live(cursor),
    {
        match (self, cursor) {
            (CompiledTerminal::Literal(bytes), TerminalCursorState::Literal(offset)) => {
                (offset as usize) < bytes.len()
            },
            (CompiledTerminal::Dfa(dfa), TerminalCursorState::Dfa(state)) => dfa.can_extend(state),
            _ => false,
        }
    }

    /// Reading never leaves the terminal.
    pub proof fn lemma_read_holds(&self, w: Seq<u8>)
        requires
            self.wf(),
        ensures
            self.read(w) matches Some(cursor) ==> self.holds(cursor),
        decreases w.len(),
    {
        if w.len() > 0 {
            self.lemma_read_holds(w.drop_last());
        }
    }

    /// What can be read can be read in part.
    pub proof fn lemma_read_prefix(&self, w: Seq<u8>, k: int)
        requires
            self.read(w) is Some,
            0 <= k <= w.len(),
        ensures
            self.read(w.take(k)) is Some,
        decreases w.len(),
    {
        if k == w.len() {
            assert(w.take(k) =~= w);
        } else {
            self.lemma_read_prefix(w.drop_last(), k);
            assert(w.drop_last().take(k) =~= w.take(k));
        }
    }

    /// A proper part of a word, read from its start, can be read on.
    pub proof fn lemma_match_live(&self, w: Seq<u8>, k: int)
        requires
            self.wf(),
            self.matches(w),
            0 <= k < w.len(),
        ensures
            self.read(w.take(k)) is Some,
            self.spec_live(self.read(w.take(k))->0),
    {
        self.lemma_read_prefix(w, k);
        match self {
            CompiledTerminal::Literal(bytes) => {
                self.lemma_literal_matches(w);
                self.lemma_literal_matches(w.take(k));
            },
            CompiledTerminal::Dfa(dfa) => {
                self.lemma_dfa_matches(w);
                self.lemma_dfa_matches(w.take(k));
                dfa.lemma_run_concat(0, w.take(k), w.skip(k));
                assert(w.take(k) + w.skip(k) =~= w);
                assert(dfa.accepts_at(dfa.run(dfa.run(0, w.take(k)), w.skip(k))));
            },
        }
    }

    /// What can be read on could be read on before its last byte.
    pub proof fn lemma_live_before(&self, w: Seq<u8>)
        requires
            self.wf(),
            w.len() > 0,
            self.read(w) is Some,
            self.spec_live(self.read(w)->0),
        ensures
            self.read(w.drop_last()) is Some,
            self.spec_live(self.read(w.drop_last())->0),
    {
        match self {
            CompiledTerminal::Literal(bytes) => {
                self.lemma_literal_matches(w);
                self.lemma_literal_matches(w.drop_last());
            },
            CompiledTerminal::Dfa(dfa) => {
                self.lemma_dfa_matches(w);
                self.lemma_dfa_matches(w.drop_last());
                let state = dfa.run(0, w.drop_last());
                let next = dfa.run(0, w);
                let v = choose|v: Seq<u8>| v.len() > 0 && dfa.accepts_at(#[trigger] dfa.run(next, v));
                let first = seq![w.last()];
                assert(first.drop_last() =~= Seq::empty());
                assert(dfa.run(state, first) == dfa.step(dfa.run(state, first.drop_last()), w.last()));
                dfa.lemma_run_concat(state, first, v);
                assert(dfa.accepts_at(dfa.run(state, first + v)));
            },
        }
    }

    /// A literal matches itself, if it is not empty, and nothing else.
    pub proof fn lemma_literal_matches(&self, w: Seq<u8>)
        requires
            self is Literal,
            self.wf(),
        ensures
            self.matches(w) <==> w.len() > 0 && w == (self->Literal_0)@,
            self.read(w) is Some <==> w.is_prefix_of((self->Literal_0)@),
            self.read(w) matches Some(cursor) ==> cursor == TerminalCursorState::Literal(
                w.len() as u32,
            ),
        decreases w.len(),
    {
        let bytes = (self->Literal_0)@;
        if w.len() > 0 {
            self.lemma_literal_matches(w.drop_last());
            if self.read(w) is Some {
                assert forall|i: int| 0 <= i < w.len() implies w[i] == bytes[i] by {
                    if i < w.len() - 1 {
                        assert(w.drop_last()[i] == bytes[i]);
                    }
                }
            }
            if w.is_prefix_of(bytes) {
                assert(w.drop_last().is_prefix_of(bytes));
                assert(w.last() == bytes[w.len() - 1]);
            }
            if self.matches(w) {
                assert(w =~= bytes);
            }
        }
    }

    /// An automaton terminal matches what its automaton accepts, without the empty string.
    pub proof fn lemma_dfa_matches(&self, w: Seq<u8>)
        requires
            self is Dfa,
            self.wf(),
        ensures
            self.matches(w) <==> w.len() > 0 && (self->Dfa_0).accepts(w),
            self.read(w) matches Some(cursor) ==> cursor == TerminalCursorState::Dfa(
                (self->Dfa_0).run(0, w),
            ),
            self.read(w) is None ==> (self->Dfa_0).run(0, w) >= (self->Dfa_0).states(),
        decreases w.len(),
    {
        let dfa = self->Dfa_0;
        if w.len() > 0 {
            self.lemma_dfa_matches(w.drop_last());
        }
    }
}

/// A nonterminal of a residual grammar.
#[derive(Debug, PartialEq, Eq)]
pub struct ResidualNonterminal {
    pub id: NonterminalId,
    pub original: NonterminalId,
    pub name: String,
    pub provenance: Provenance,
}

/// A production of a residual grammar.
#[derive(Debug, PartialEq, Eq)]
pub struct ResidualProduction {
    pub id: ProductionId,
    pub original: ProductionId,
    pub lhs: NonterminalId,
    pub rhs: Vec<Symbol>,
    pub provenance: Provenance,
}

/// A grammar over compiled terminals.
#[derive(Debug, PartialEq, Eq)]
pub struct ResidualGrammar {
    pub start: NonterminalId,
    pub nonterminals: Vec<ResidualNonterminal>,
    pub terminals: Vec<CompiledTerminal>,
    pub terminal_provenance: Vec<Provenance>,
    pub productions: Vec<ResidualProduction>,
    pub productions_by_lhs: Vec<Vec<ProductionId>>,
    pub nullable: Vec<bool>,
    pub productive_suffixes: Vec<Vec<bool>>,
    pub collapsed_nonterminals: usize,
    pub collapsed_regions: usize,
    pub terminal_dfa_states: usize,
    pub terminal_dfa_bytes: usize,
}

/// The languages of a list of terminals.
pub open spec fn terminal_lex(terminals: Seq<CompiledTerminal>) -> Lex {
    |t: u32, w: Seq<u8>| t < terminals.len() && terminals[t as int].matches(w)
}

/// The mathematical value of a production.
pub open spec fn residual_rule(production: ResidualProduction) -> Rule {
    Rule { lhs: production.lhs, rhs: production.rhs@ }
}

/// Whether a symbol names a nonterminal or a terminal within the counts.
pub open spec fn symbol_in(symbol: Symbol, nonterminals: nat, terminals: nat) -> bool {
    match symbol {
        Symbol::Nonterminal(a) => a < nonterminals,
        Symbol::Terminal(t) => t < terminals,
    }
}

/// Whether every symbol of a sequence is within the counts.
pub open spec fn symbols_in(symbols: Seq<Symbol>, nonterminals: nat, terminals: nat) -> bool {
    forall|i: int|
        0 <= i < symbols.len() ==> symbol_in(#[trigger] symbols[i], nonterminals, terminals)
}

impl ResidualGrammar {
    /// The productions.
    pub open spec fn rules(&self) -> Seq<Rule> {
        self.productions@.map_values(|production: ResidualProduction| residual_rule(production))
    }

    /// The languages of the terminals.
    pub open spec fn lex(&self) -> Lex {
        terminal_lex(self.terminals@)
    }

    /// The language of the grammar.
    pub open spec fn generates(&self, w: Seq<u8>) -> bool {
        crate::derivation::generates(self.rules(), self.lex(), self.start, w)
    }

    /// Whether every identifier names something.
    pub open spec fn wf(&self) -> bool {
        &&& self.start < self.nonterminals@.len()
        &&& self.nullable@.len() == self.nonterminals@.len()
        &&& forall|p: int|
            0 <= p < self.productions@.len() ==> (#[trigger] self.productions@[p]).lhs
                < self.nonterminals@.len() && symbols_in(
                self.productions@[p].rhs@,
                self.nonterminals@.len(),
                self.terminals@.len(),
            )
        &&& forall|t: int|
            0 <= t < self.terminals@.len() ==> (#[trigger] self.terminals@[t]).wf()
    }

    /// Whether the marks of the nullable nonterminals are right.
    pub open spec fn nullable_exact(&self) -> bool {
        forall|a: u32|
            a < self.nonterminals@.len() ==> #[trigger] self.nullable@[a as int]
                == crate::derivation::generates(self.rules(), self.lex(), a, Seq::empty())
    }
}

} // verus!
