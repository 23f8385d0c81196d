//! Choosing what becomes of each symbol of a grammar when its regular parts become terminals.

use std::sync::Arc;

use vstd::prelude::*;

use crate::automaton::CompiledByteDfa;
use crate::certificate;
use crate::certificate::RegularAnalysis;
use crate::count;
use crate::dense;
use crate::error::{resource_error, CompileError, CompileStage};
use crate::grammar;
use crate::grammar::{Grammar, RegularTerminalKind};
use crate::regular;
use crate::regular::RegularExpression;
use crate::residual::CompiledTerminal;
use crate::schema::{CompileLimits, Provenance};
use crate::symbol::{NonterminalId, Symbol, TerminalId};
use crate::tabulate;
use crate::text;
use crate::viability;

verus! {

/// What becomes of a nonterminal: it is not met, it stays, or a terminal takes its place.
#[derive(Clone, Copy, Debug, PartialEq, Eq, Structural)]
pub enum Fate {
    Unseen,
    Kept,
    Collapsed(TerminalId),
}

/// The terminals that were compiled, and what they stand for.
#[derive(Debug)]
pub struct Collapse {
    pub fates: Vec<Fate>,
    pub slots: Vec<Option<TerminalId>>,
    pub terminals: Vec<CompiledTerminal>,
    pub terminal_provenance: Vec<Provenance>,
    pub collapsed: usize,
    pub dfa_states: usize,
    pub dfa_bytes: usize,
}

/// Whether a compiled terminal matches what a kind of terminal stands for.
pub open spec fn stands_for(terminal: CompiledTerminal, kind: grammar::TerminalKind) -> bool {
    forall|w: Seq<u8>| #[trigger] terminal.matches(w) <==> grammar::kind_matches(kind, w)
}

/// Whether a compiled terminal matches what an expression does.
pub open spec fn covers(terminal: CompiledTerminal, e: RegularExpression) -> bool {
    &&& forall|w: Seq<u8>| #[trigger] terminal.matches(w) <==> tabulate::pattern_language(e, w)
    &&& dense::plain(e) ==> forall|w: Seq<u8>| #[trigger]
        terminal.matches(w) <==> regular::denotes(
            e,
            dense::pattern_lex(),
            false,
            w,
            0,
            w.len() as int,
        )
}

/// Whether two terminals are the same: the same bytes, or the same tables.
pub open spec fn alike(a: CompiledTerminal, b: CompiledTerminal) -> bool {
    match (a, b) {
        (CompiledTerminal::Literal(x), CompiledTerminal::Literal(y)) => x@ == y@,
        (CompiledTerminal::Dfa(x), CompiledTerminal::Dfa(y)) => x.transitions@ == y.transitions@
            && x.accepting@ == y.accepting@,
        _ => false,
    }
}

/// Whether no terminal occurs twice.
pub open spec fn no_repeats(terminals: Seq<CompiledTerminal>) -> bool {
    forall|c: int, d: int|
        0 <= c < d < terminals.len() ==> !alike(#[trigger] terminals[c], #[trigger] terminals[d])
}

/// The same terminals read a string alike.
proof fn lemma_alike_read(a: CompiledTerminal, b: CompiledTerminal, w: Seq<u8>)
    requires
        alike(a, b),
    ensures
        a.read(w) == b.read(w),
    decreases w.len(),
{
    if w.len() > 0 {
        lemma_alike_read(a, b, w.drop_last());
    }
}

/// The same terminals match the same strings.
pub proof fn lemma_alike_matches(a: CompiledTerminal, b: CompiledTerminal)
    requires
        alike(a, b),
    ensures
        forall|w: Seq<u8>| #[trigger] a.matches(w) <==> b.matches(w),
{
    assert forall|w: Seq<u8>| #[trigger] a.matches(w) <==> b.matches(w) by {
        lemma_alike_read(a, b, w);
    }
}

/// Whether two literals have the same bytes.
fn same_literal(left: &Arc<[u8]>, right: &Arc<[u8]>) -> (same: bool)
    ensures
        same == (left@ == right@),
{
    if left.len() != right.len() {
        return false;
    }
    let mut index: usize = 0;
    while index < left.len()
        invariant
            index <= left@.len() == right@.len(),
            forall|i: int| 0 <= i < index ==> left@[i] == right@[i],
        decreases left@.len() - index,
    {
        if left[index] != right[index] {
            return false;
        }
        index += 1;
    }
    assert(left@ =~= right@);
    true
}

/// Whether two automata have the same tables.
fn same_tables(left: &CompiledByteDfa, right: &CompiledByteDfa) -> (same: bool)
    ensures
        same == (left.transitions@ == right.transitions@ && left.accepting@ == right.accepting@),
{
    if left.transitions.len() != right.transitions.len() || left.accepting.len()
        != right.accepting.len() {
        return false;
    }
    let mut index: usize = 0;
    while index < left.accepting.len()
        invariant
            index <= left.accepting@.len() == right.accepting@.len(),
            forall|i: int| 0 <= i < index ==> left.accepting@[i] == right.accepting@[i],
        decreases left.accepting@.len() - index,
    {
        if left.accepting[index] != right.accepting[index] {
            return false;
        }
        index += 1;
    }
    assert(left.accepting@ =~= right.accepting@);
    let mut index: usize = 0;
    while index < left.transitions.len()
        invariant
            index <= left.transitions@.len() == right.transitions@.len(),
            forall|i: int| 0 <= i < index ==> left.transitions@[i] == right.transitions@[i],
        decreases left.transitions@.len() - index,
    {
        if left.transitions[index] != right.transitions[index] {
            return false;
        }
        index += 1;
    }
    assert(left.transitions@ =~= right.transitions@);
    true
}

/// Whether two terminals are the same.
fn same_terminal(left: &CompiledTerminal, right: &CompiledTerminal) -> (same: bool)
    ensures
        same == alike(*left, *right),
{
    match (left, right) {
        (CompiledTerminal::Literal(x), CompiledTerminal::Literal(y)) => same_literal(x, y),
        (CompiledTerminal::Dfa(x), CompiledTerminal::Dfa(y)) => same_tables(x, y),
        _ => false,
    }
}

/// Where a terminal stands in a list, if it is there.
fn find_terminal(terminals: &Vec<CompiledTerminal>, terminal: &CompiledTerminal) -> (found: Option<
    usize,
>)
    ensures
        match found {
            Some(c) => c < terminals@.len() && alike(terminals@[c as int], *terminal),
            None => forall|c: int|
                0 <= c < terminals@.len() ==> !alike(#[trigger] terminals@[c], *terminal),
        },
{
    let mut index: usize = 0;
    while index < terminals.len()
        invariant
            index <= terminals@.len(),
            forall|c: int| 0 <= c < index ==> !alike(#[trigger] terminals@[c], *terminal),
        decreases terminals@.len() - index,
    {
        if same_terminal(&terminals[index], terminal) {
            return Some(index);
        }
        index += 1;
    }
    None
}

impl Collapse {
    /// What holds while symbols are given their places.
    pub open spec fn wf(&self, grammar: &Grammar, analysis: &RegularAnalysis) -> bool {
        &&& self.fates@.len() == grammar.nonterminals@.len()
        &&& self.slots@.len() == grammar.terminals@.len()
        &&& self.terminals@.len() == self.terminal_provenance@.len() <= u32::MAX
        &&& no_repeats(self.terminals@)
        &&& forall|c: int|
            0 <= c < self.terminals@.len() ==> #[trigger] has_source(self.slots@, self.fates@, c)
        &&& self.fates@[grammar.start as int] == Fate::Kept
        &&& forall|c: int| 0 <= c < self.terminals@.len() ==> (#[trigger] self.terminals@[c]).wf()
        &&& forall|t: int|
            0 <= t < self.slots@.len() ==> (#[trigger] self.slots@[t] matches Some(c) ==> c
                < self.terminals@.len() && stands_for(
                self.terminals@[c as int],
                grammar.terminals@[t].kind@,
            ))
        &&& forall|a: int|
            0 <= a < self.fates@.len() ==> (#[trigger] self.fates@[a] matches Fate::Collapsed(c)
                ==> c < self.terminals@.len() && analysis.expressions@[a] is Some && covers(
                self.terminals@[c as int],
                analysis.expressions@[a]->0,
            ))
        &&& certificate::clean(grammar) ==> forall|c: int|
            0 <= c < self.terminals@.len() ==> viability::has_word(#[trigger] self.terminals@[c])
    }

    /// Whether a symbol has its place.
    pub open spec fn placed(&self, symbol: Symbol) -> bool {
        match symbol {
            Symbol::Terminal(t) => t < self.slots@.len() && self.slots@[t as int] is Some,
            Symbol::Nonterminal(a) => a < self.fates@.len() && self.fates@[a as int]
                != Fate::Unseen,
        }
    }

    /// Whether every symbol of a sequence has its place.
    pub open spec fn all_placed(&self, symbols: Seq<Symbol>) -> bool {
        forall|i: int| 0 <= i < symbols.len() ==> self.placed(#[trigger] symbols[i])
    }

    /// The place of a symbol.
    pub open spec fn place(&self, symbol: Symbol) -> Symbol {
        match symbol {
            Symbol::Terminal(t) => Symbol::Terminal(self.slots@[t as int]->0),
            Symbol::Nonterminal(a) => match self.fates@[a as int] {
                Fate::Collapsed(c) => Symbol::Terminal(c),
                _ => symbol,
            },
        }
    }

    /// The places of a sequence of symbols.
    pub open spec fn places(&self, symbols: Seq<Symbol>) -> Seq<Symbol> {
        symbols.map_values(|symbol: Symbol| self.place(symbol))
    }

    /// Whether what had a place still has it.
    pub open spec fn keeps(&self, before: &Self) -> bool {
        &&& self.fates@.len() == before.fates@.len()
        &&& self.slots@.len() == before.slots@.len()
        &&& forall|a: int|
            0 <= a < before.fates@.len() && #[trigger] before.fates@[a] != Fate::Unseen
                ==> self.fates@[a] == before.fates@[a]
        &&& forall|t: int|
            0 <= t < before.slots@.len() && #[trigger] before.slots@[t] is Some ==> self.slots@[t]
                == before.slots@[t]
    }

    /// Nothing but the start has a place yet.
    fn start(grammar: &Grammar) -> (collapse: Self)
        requires
            grammar.wf(),
        ensures
            forall|analysis: &RegularAnalysis| collapse.wf(grammar, analysis),
            forall|a: int|
                0 <= a < collapse.fates@.len() && a != grammar.start
                    ==> #[trigger] collapse.fates@[a] == Fate::Unseen,
    {
        let mut fates: Vec<Fate> = Vec::new();
        let nonterminals: usize = grammar.nonterminals.len();
        while fates.len() < nonterminals
            invariant
                fates@.len() <= nonterminals,
                forall|a: int| 0 <= a < fates@.len() ==> #[trigger] fates@[a] == Fate::Unseen,
            decreases nonterminals - fates@.len(),
        {
            fates.push(Fate::Unseen);
        }
        fates.set(grammar.start as usize, Fate::Kept);
        let mut slots: Vec<Option<TerminalId>> = Vec::new();
        let terminals: usize = grammar.terminals.len();
        while slots.len() < terminals
            invariant
                slots@.len() <= terminals,
                forall|t: int| 0 <= t < slots@.len() ==> #[trigger] slots@[t] is None,
            decreases terminals - slots@.len(),
        {
            slots.push(None);
        }
        Collapse {
            fates,
            slots,
            terminals: Vec::new(),
            terminal_provenance: Vec::new(),
            collapsed: 0,
            dfa_states: 0,
            dfa_bytes: 0,
        }
    }

    /// Adds a compiled terminal, unless it is there already, and says where it stands.
    fn push(&mut self, terminal: CompiledTerminal, provenance: Provenance) -> (result: Result<
        TerminalId,
        CompileError,
    >)
        requires
            old(self).terminals@.len() == old(self).terminal_provenance@.len() <= u32::MAX,
            no_repeats(old(self).terminals@),
            terminal.wf(),
        ensures
            final(self).fates == old(self).fates,
            final(self).slots == old(self).slots,
            no_repeats(final(self).terminals@),
            final(self).terminals@ == old(self).terminals@ || final(self).terminals@ == old(
                self,
            ).terminals@.push(terminal),
            final(self).terminals@.len() == final(self).terminal_provenance@.len() <= u32::MAX,
            result matches Ok(id) ==> id < final(self).terminals@.len() && alike(
                final(self).terminals@[id as int],
                terminal,
            ),
            result matches Ok(id) ==> final(self).terminals@.len() == old(self).terminals@.len() || id
                == old(self).terminals@.len(),
            result is Err ==> old(self).terminals@.len() == u32::MAX,
            result matches Err(error) ==> crowded(error),
    {
        if let Some(c) = find_terminal(&self.terminals, &terminal) {
            return Ok(c as u32);
        }
        if self.terminals.len() >= u32::MAX as usize {
            return Err(
                resource_error(
                    CompileStage::TerminalCompilation,
                    self.terminals.len(),
                    u32::MAX as usize,
                ),
            );
        }
        let id: u32 = self.terminals.len() as u32;
        if let CompiledTerminal::Dfa(dfa) = &terminal {
            self.dfa_states = self.dfa_states.saturating_add(dfa.state_count());
            self.dfa_bytes = self.dfa_bytes.saturating_add(dfa.memory_bytes());
        }
        self.terminals.push(terminal);
        self.terminal_provenance.push(provenance);
        Ok(id)
    }

    /// Gives a terminal its place.
    fn place_terminal(
        &mut self,
        grammar: &Grammar,
        analysis: &RegularAnalysis,
        limits: &CompileLimits,
        t: TerminalId,
    ) -> (result: Result<(), CompileError>)
        requires
            grammar.wf(),
            old(self).wf(grammar, analysis),
            t < grammar.terminals@.len(),
        ensures
            result matches Err(error) ==> refused(grammar, analysis, *limits, error),
            result is Ok ==> final(self).wf(grammar, analysis),
            result is Ok ==> final(self).keeps(old(self)),
            result is Ok ==> final(self).placed(Symbol::Terminal(t)),
    {
        if self.slots[t as usize].is_some() {
            return Ok(());
        }
        let source = &grammar.terminals[t as usize];
        let terminal: CompiledTerminal = match &source.kind {
            RegularTerminalKind::Literal(bytes) => {
                if bytes.len() == 0 || bytes.len() > u32::MAX as usize {
                    let error = CompileError::InternalInvariant {
                        message: "a literal terminal has no bytes, or too many",
                    };
                    assert(terminal_refused(grammar, t as int, *limits, error));
                    return Err(error);
                }
                let terminal = CompiledTerminal::Literal(text::share(bytes.as_slice()));
                proof {
                    assert forall|w: Seq<u8>| #[trigger]
                        terminal.matches(w) <==> grammar::kind_matches(source.kind@, w) by {
                        terminal.lemma_literal_matches(w);
                    }
                    assert(grammar::kind_matches(source.kind@, bytes@));
                    assert(terminal.matches(bytes@));
                }
                terminal
            },
            RegularTerminalKind::Pattern { forward, .. } => {
                let atom = RegularExpression::Atom { forward: forward.clone(), reverse: None };
                let dfa = match CompiledByteDfa::compile(&atom, limits, &source.provenance.pointer) {
                    Ok(dfa) => dfa,
                    Err(error) => {
                        assert(terminal_refused(grammar, t as int, *limits, error));
                        return Err(error);
                    },
                };
                if dfa.is_accepting(0) {
                    let error = CompileError::InternalInvariant {
                        message: "a terminal matches the empty string",
                    };
                    proof {
                        assert(dfa.run(0, Seq::<u8>::empty()) == 0);
                        assert(dfa.accepts(Seq::<u8>::empty()));
                        assert(terminal_refused(grammar, t as int, *limits, error));
                    }
                    return Err(error);
                }
                let terminal = CompiledTerminal::Dfa(dfa);
                proof {
                    assert forall|w: Seq<u8>| #[trigger]
                        terminal.matches(w) <==> grammar::kind_matches(source.kind@, w) by {
                        terminal.lemma_dfa_matches(w);
                        assert(dfa.accepts(w) <==> tabulate::pattern_language(atom, w));
                        assert(w.len() == 0 ==> dfa.run(0, w) == 0);
                    }
                    if certificate::clean(grammar) {
                        reveal(certificate::clean);
                        assert(certificate::clean_kind(grammar.terminals@[t as int].kind@));
                        let w = dense::lemma_plain_word(forward@);
                        assert(regular::spec_pattern(atom) == Some(forward@));
                        assert(dfa.accepts(w));
                        assert(terminal.matches(w));
                    }
                }
                terminal
            },
        };
        let ghost before = *self;
        let slot: u32 = match self.push(terminal, source.provenance.clone()) {
            Ok(slot) => slot,
            Err(error) => {
                proof {
                    lemma_crowd(before.slots@, before.fates@, before.terminals@.len());
                }
                return Err(error);
            },
        };
        self.slots.set(t as usize, Some(slot));
        proof {
            assert forall|c: int| 0 <= c < self.terminals@.len() implies #[trigger] has_source(
                self.slots@,
                self.fates@,
                c,
            ) by {
                if c < before.terminals@.len() {
                    assert(has_source(before.slots@, before.fates@, c));
                    let source = choose|source: int| #[trigger]
                        taken(before.slots@, before.fates@, c, source);
                    assert(taken(self.slots@, self.fates@, c, source));
                } else {
                    assert(taken(self.slots@, self.fates@, c, t as int));
                }
            }
            lemma_alike_matches(self.terminals@[slot as int], terminal);
            assert forall|c: int| 0 <= c < before.terminals@.len() implies self.terminals@[c]
                == before.terminals@[c] by {}
            assert(certificate::clean(grammar) ==> viability::has_word(terminal));
        }
        Ok(())
    }

    /// Gives a nonterminal its place: one with an expression that matches something, but not the
    /// empty string, becomes a terminal.
    fn place_nonterminal(
        &mut self,
        grammar: &Grammar,
        analysis: &RegularAnalysis,
        limits: &CompileLimits,
        a: NonterminalId,
    ) -> (result: Result<(), CompileError>)
        requires
            grammar.wf(),
            analysis.exact(grammar),
            old(self).wf(grammar, analysis),
            a < grammar.nonterminals@.len(),
        ensures
            result matches Err(error) ==> refused(grammar, analysis, *limits, error),
            result is Ok ==> final(self).wf(grammar, analysis),
            result is Ok ==> final(self).keeps(old(self)),
            result is Ok ==> final(self).placed(Symbol::Nonterminal(a)),
    {
        if self.fates[a as usize] != Fate::Unseen {
            return Ok(());
        }
        let source = &grammar.nonterminals[a as usize];
        if let Some(e) = &analysis.expressions[a as usize] {
            let dfa = match CompiledByteDfa::compile(e, limits, &source.provenance.pointer) {
                Ok(dfa) => dfa,
                Err(error) => {
                    assert(region_refused(grammar, analysis, a as int, *limits, error));
                    return Err(error);
                },
            };
            if !dfa.is_accepting(0) && dfa.is_live(0) {
                let terminal = CompiledTerminal::Dfa(dfa);
                proof {
                    assert forall|w: Seq<u8>| #[trigger] terminal.matches(w) <==> dfa.accepts(
                        w,
                    ) by {
                        terminal.lemma_dfa_matches(w);
                        assert(w.len() == 0 ==> dfa.run(0, w) == 0);
                    }
                    let w = choose|w: Seq<u8>| dfa.accepts_at(#[trigger] dfa.run(0, w));
                    assert(dfa.accepts(w));
                    assert(terminal.matches(w));
                }
                let ghost before = *self;
                let slot: u32 = match self.push(terminal, source.provenance.clone()) {
                    Ok(slot) => slot,
                    Err(error) => {
                        proof {
                            lemma_crowd(before.slots@, before.fates@, before.terminals@.len());
                        }
                        return Err(error);
                    },
                };
                self.collapsed = self.collapsed.saturating_add(1);
                self.fates.set(a as usize, Fate::Collapsed(slot));
                proof {
                    assert forall|c: int|
                        0 <= c < self.terminals@.len() implies #[trigger] has_source(
                        self.slots@,
                        self.fates@,
                        c,
                    ) by {
                        if c < before.terminals@.len() {
                            assert(has_source(before.slots@, before.fates@, c));
                            let source = choose|source: int| #[trigger]
                                taken(before.slots@, before.fates@, c, source);
                            assert(taken(self.slots@, self.fates@, c, source));
                        } else {
                            assert(taken(
                                self.slots@,
                                self.fates@,
                                c,
                                self.slots@.len() + a as int,
                            ));
                        }
                    }
                    lemma_alike_matches(self.terminals@[slot as int], terminal);
                    assert forall|c: int| 0 <= c < before.terminals@.len() implies self.terminals@[c]
                        == before.terminals@[c] by {}
                    assert(viability::has_word(terminal));
                }
                return Ok(());
            }
        }
        let ghost before = *self;
        self.fates.set(a as usize, Fate::Kept);
        proof {
            assert forall|c: int| 0 <= c < self.terminals@.len() implies #[trigger] has_source(
                self.slots@,
                self.fates@,
                c,
            ) by {
                assert(has_source(before.slots@, before.fates@, c));
                let source = choose|source: int| #[trigger]
                    taken(before.slots@, before.fates@, c, source);
                assert(taken(self.slots@, self.fates@, c, source));
            }
        }
        Ok(())
    }

    /// Gives every symbol of a production its place.
    fn place_symbols(
        &mut self,
        grammar: &Grammar,
        analysis: &RegularAnalysis,
        limits: &CompileLimits,
        symbols: &Vec<Symbol>,
    ) -> (result: Result<(), CompileError>)
        requires
            grammar.wf(),
            analysis.exact(grammar),
            old(self).wf(grammar, analysis),
            crate::residual::symbols_in(
                symbols@,
                grammar.nonterminals@.len(),
                grammar.terminals@.len(),
            ),
        ensures
            result matches Err(error) ==> refused(grammar, analysis, *limits, error),
            result is Ok ==> final(self).wf(grammar, analysis),
            result is Ok ==> final(self).keeps(old(self)),
            result is Ok ==> final(self).all_placed(symbols@),
    {
        let ghost before = *self;
        let mut index: usize = 0;
        while index < symbols.len()
            invariant
                grammar.wf(),
                analysis.exact(grammar),
                self.wf(grammar, analysis),
                crate::residual::symbols_in(
                    symbols@,
                    grammar.nonterminals@.len(),
                    grammar.terminals@.len(),
                ),
                index <= symbols@.len(),
                *old(self) == before,
                self.keeps(&before),
                forall|i: int| 0 <= i < index ==> self.placed(#[trigger] symbols@[i]),
            decreases symbols@.len() - index,
        {
            assert(crate::residual::symbol_in(
                symbols@[index as int],
                grammar.nonterminals@.len(),
                grammar.terminals@.len(),
            ));
            let ghost middle = *self;
            match symbols[index] {
                Symbol::Terminal(t) => {
                    self.place_terminal(grammar, analysis, limits, t)?;
                },
                Symbol::Nonterminal(a) => {
                    self.place_nonterminal(grammar, analysis, limits, a)?;
                },
            }
            proof {
                assert forall|i: int| 0 <= i < index + 1 implies self.placed(
                    #[trigger] symbols@[i],
                ) by {
                    if i < index {
                        assert(middle.placed(symbols@[i]));
                    }
                }
            }
            index += 1;
        }
        Ok(())
    }

    /// Whether the symbols of every production of a nonterminal that stays have their places.
    pub open spec fn closed(&self, grammar: &Grammar) -> bool {
        forall|p: int|
            0 <= p < grammar.productions@.len() && self.fates@[(
            #[trigger] grammar.productions@[p]).lhs as int] == Fate::Kept ==> self.all_placed(
                grammar.productions@[p].rhs@,
            )
    }

    /// Gives a place to everything that the start needs.
    pub fn build(
        grammar: &Grammar,
        analysis: &RegularAnalysis,
        limits: &CompileLimits,
    ) -> (result: Result<Self, CompileError>)
        requires
            grammar.wf(),
            analysis.exact(grammar),
        ensures
            result matches Ok(collapse) ==> collapse.wf(grammar, analysis) && collapse.closed(grammar),
            result matches Err(error) ==> refused(grammar, analysis, *limits, error),
    {
        let mut collapse = Collapse::start(grammar);
        let mut done: Vec<bool> = count::unset_marks(grammar.productions.len());
        let mut changed = true;
        while changed
            invariant
                grammar.wf(),
                analysis.exact(grammar),
                collapse.wf(grammar, analysis),
                done@.len() == grammar.productions@.len(),
                forall|p: int|
                    0 <= p < done@.len() && #[trigger] done@[p] ==> collapse.all_placed(
                        grammar.productions@[p].rhs@,
                    ),
                !changed ==> collapse.closed(grammar),
            decreases
                    done@.len() - count::count_true(done@),
                    if changed {
                        1nat
                    } else {
                        0nat
                    },
        {
            changed = false;
            let ghost start = done@;
            proof {
                count::lemma_count_bound(done@);
            }
            let mut p: usize = 0;
            while p < grammar.productions.len()
                invariant
                    grammar.wf(),
                    analysis.exact(grammar),
                    collapse.wf(grammar, analysis),
                    p <= done@.len() == grammar.productions@.len(),
                    forall|p: int|
                        0 <= p < done@.len() && #[trigger] done@[p] ==> collapse.all_placed(
                            grammar.productions@[p].rhs@,
                        ),
                    changed ==> count::count_true(done@) > count::count_true(start),
                    !changed ==> done@ == start && forall|q: int|
                        0 <= q < p && collapse.fates@[(
                        #[trigger] grammar.productions@[q]).lhs as int] == Fate::Kept
                            ==> collapse.all_placed(grammar.productions@[q].rhs@),
                decreases grammar.productions@.len() - p,
            {
                let production = &grammar.productions[p];
                if !done[p] && collapse.fates[production.lhs as usize] == Fate::Kept {
                    let ghost middle = collapse;
                    collapse.place_symbols(grammar, analysis, limits, &production.rhs)?;
                    proof {
                        count::lemma_count_set(done@, p as int);
                        assert forall|q: int| 0 <= q < done@.len() && #[trigger] done@[q] implies
                            collapse.all_placed(grammar.productions@[q].rhs@) by {
                            let rhs = grammar.productions@[q].rhs@;
                            assert forall|i: int| 0 <= i < rhs.len() implies collapse.placed(
                                #[trigger] rhs[i],
                            ) by {
                                assert(middle.placed(rhs[i]));
                            }
                        }
                    }
                    done.set(p, true);
                    changed = true;
                }
                p += 1;
            }
            proof {
                count::lemma_count_bound(done@);
            }
        }
        Ok(collapse)
    }
}

/// Whether an error says why a terminal of a grammar cannot be compiled: a literal has no bytes or
/// too many, a pattern matches the empty string, or its automaton could not be made.
pub open spec fn terminal_refused(
    grammar: &Grammar,
    t: int,
    limits: CompileLimits,
    error: CompileError,
) -> bool {
    &&& 0 <= t < grammar.terminals@.len()
    &&& match grammar.terminals@[t].kind {
        RegularTerminalKind::Literal(bytes) => error is InternalInvariant && (bytes@.len() == 0
            || bytes@.len() > u32::MAX),
        RegularTerminalKind::Pattern { forward, .. } => {
            let atom = RegularExpression::Atom { forward, reverse: None };
            ||| tabulate::automaton_refused(atom, limits, error, grammar.terminals@[t].provenance.pointer)
            ||| error is InternalInvariant && tabulate::pattern_language(atom, Seq::empty())
        },
    }
}

/// Whether an error says that the automaton of a nonterminal with an expression could not be made.
pub open spec fn region_refused(
    grammar: &Grammar,
    analysis: &RegularAnalysis,
    a: int,
    limits: CompileLimits,
    error: CompileError,
) -> bool {
    &&& 0 <= a < grammar.nonterminals@.len()
    &&& analysis.expressions@[a] matches Some(e) && tabulate::automaton_refused(
        e,
        limits,
        error,
        grammar.nonterminals@[a].provenance.pointer,
    )
}

/// Whether an error says why a grammar has no compiled terminals: that of a terminal, that of a
/// nonterminal that would become one, or too many symbols.
pub open spec fn refused(
    grammar: &Grammar,
    analysis: &RegularAnalysis,
    limits: CompileLimits,
    error: CompileError,
) -> bool {
    ||| exists|t: int| #[trigger] terminal_refused(grammar, t, limits, error)
    ||| exists|a: int| #[trigger] region_refused(grammar, analysis, a, limits, error)
    ||| (crowded(error) && grammar.terminals@.len() + grammar.nonterminals@.len() >= u32::MAX)
}

/// Whether an error says that there are too many terminals.
pub open spec fn crowded(error: CompileError) -> bool {
    error matches CompileError::ResourceLimitExceeded { stage, .. } && stage
        == CompileStage::TerminalCompilation
}

/// Whether a terminal is the place of a symbol: terminals count first, then nonterminals.
pub open spec fn taken(
    slots: Seq<Option<TerminalId>>,
    fates: Seq<Fate>,
    c: int,
    source: int,
) -> bool {
    ||| 0 <= source < slots.len() && slots[source] == Some(c as u32)
    ||| slots.len() <= source < slots.len() + fates.len() && fates[source - slots.len()]
        == Fate::Collapsed(c as u32)
}

/// Whether a terminal is the place of some symbol.
pub open spec fn has_source(slots: Seq<Option<TerminalId>>, fates: Seq<Fate>, c: int) -> bool {
    exists|source: int| #[trigger] taken(slots, fates, c, source)
}

/// Terminals that are all places of symbols are no more than the symbols.
proof fn lemma_crowd(slots: Seq<Option<TerminalId>>, fates: Seq<Fate>, count: nat)
    requires
        count <= u32::MAX + 1,
        forall|c: int| 0 <= c < count ==> #[trigger] has_source(slots, fates, c),
    ensures
        count <= slots.len() + fates.len(),
{
    let sources = Seq::new(count, |c: int| choose|source: int| #[trigger] taken(slots, fates, c, source));
    assert forall|c: int| 0 <= c < count implies taken(slots, fates, c, #[trigger] sources[c]) by {
        assert(has_source(slots, fates, c));
    }
    assert forall|c: int, d: int| 0 <= c < d < count implies sources[c] != sources[d] by {
        assert(taken(slots, fates, c, sources[c]));
        assert(taken(slots, fates, d, sources[d]));
    }
    let all = vstd::set_lib::set_int_range(0, (slots.len() + fates.len()) as int);
    vstd::set_lib::lemma_int_range(0, (slots.len() + fates.len()) as int);
    assert(sources.no_duplicates());
    sources.unique_seq_to_set();
    assert(sources.to_set().subset_of(all)) by {
        assert forall|x: int| sources.to_set().contains(x) implies all.contains(x) by {
            let c = choose|c: int| 0 <= c < sources.len() && sources[c] == x;
            assert(taken(slots, fates, c, sources[c]));
        }
    }
    vstd::set_lib::lemma_len_subset(sources.to_set(), all);
}

} // verus!
