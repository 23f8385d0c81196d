//! Residual grammars from certified ones: the regular parts become automaton terminals.

use vstd::prelude::*;
use vstd::utf8;

use crate::certificate;
use crate::certificate::RegularAnalysis;
use crate::collapse;
use crate::collapse::{Collapse, Fate};
use crate::count;
use crate::dense;
use crate::derivation;
use crate::derivation::{Lex, Rule};
use crate::error::{to_u32, CompileError, CompileStage};
use crate::grammar;
use crate::grammar::Grammar;
use crate::reduction;
use crate::residual;
use crate::residual::{ResidualGrammar, ResidualNonterminal, ResidualProduction};
use crate::schema::CompileLimits;
use crate::symbol::{ProductionId, Symbol};

verus! {

/// Whether every literal of a grammar is UTF-8.
pub open spec fn textual(grammar: &Grammar) -> bool {
    forall|t: int|
        0 <= t < grammar.terminals@.len() ==> (
        #[trigger] grammar.terminals@[t].kind@ matches grammar::TerminalKind::Literal(bytes)
            ==> utf8::valid_utf8(bytes))
}

/// Whether every expression that was found has plain atoms.
pub open spec fn plain_analysis(analysis: &RegularAnalysis) -> bool {
    forall|a: int|
        0 <= a < analysis.expressions@.len() ==> (#[trigger] analysis.expressions@[a] matches Some(e)
            ==> dense::plain(e))
}

/// Where the literals are UTF-8, terminals match what their patterns do.
pub proof fn lemma_same_lex(grammar: &Grammar)
    requires
        textual(grammar),
        certificate::terminals_read(grammar),
    ensures
        grammar.lex(grammar::terminal_kinds()) == grammar.lex(
            certificate::kinds(dense::pattern_lex()),
        ),
{
    let f = grammar.lex(grammar::terminal_kinds());
    let g = grammar.lex(certificate::kinds(dense::pattern_lex()));
    assert forall|t: u32, w: Seq<u8>| #[trigger] f(t, w) == g(t, w) by {
        if t < grammar.terminals@.len() {
            let kind = grammar.terminals@[t as int].kind@;
            assert(grammar::kind_read(kind));
            assert(dense::matches(grammar::kind_pattern(kind), w)
                == grammar::kind_matches(kind, w));
        }
    }
    assert(f =~= g);
}

/// Whether rules are the rules of the nonterminals that stay, with every symbol in its place.
pub open spec fn mapped(
    grammar: &Grammar,
    collapse: &Collapse,
    productions: Seq<ResidualProduction>,
) -> bool {
    &&& forall|q: int|
        0 <= q < productions.len() ==> {
            let p = (#[trigger] productions[q]).original as int;
            &&& p < grammar.productions@.len()
            &&& productions[q].lhs == grammar.productions@[p].lhs
            &&& collapse.fates@[productions[q].lhs as int] == Fate::Kept
            &&& productions[q].rhs@ == collapse.places(grammar.productions@[p].rhs@)
        }
    &&& forall|p: int|
        0 <= p < grammar.productions@.len() && collapse.fates@[(
        #[trigger] grammar.productions@[p]).lhs as int] == Fate::Kept ==> exists|q: int|
            0 <= q < productions.len() && (#[trigger] productions[q]).original == p
}

/// The mathematical values of residual productions.
pub open spec fn residual_rules(productions: Seq<ResidualProduction>) -> Seq<Rule> {
    productions.map_values(|production: ResidualProduction| residual::residual_rule(production))
}

/// What a symbol derives, its place derives too.
proof fn lemma_forth(
    grammar: &Grammar,
    analysis: &RegularAnalysis,
    collapse: &Collapse,
    productions: Seq<ResidualProduction>,
    n: nat,
    symbol: Symbol,
    w: Seq<u8>,
    i: int,
    j: int,
)
    requires
        law_holds(grammar, analysis, collapse, productions),
        collapse.placed(symbol),
        derivation::derives(
            grammar.rules(),
            grammar.lex(grammar::terminal_kinds()),
            n,
            symbol,
            w,
            i,
            j,
        ),
    ensures
        derivation::yields(
            residual_rules(productions),
            residual::terminal_lex(collapse.terminals@),
            collapse.place(symbol),
            w,
            i,
            j,
        ),
    decreases n, 0nat, 0nat,
{
    reveal(law_holds);
    let rules = grammar.rules();
    let lex = grammar.lex(grammar::terminal_kinds());
    let more = residual_rules(productions);
    let target = residual::terminal_lex(collapse.terminals@);
    derivation::lemma_derives_bounds(rules, lex, n, symbol, w, i, j);
    match symbol {
        Symbol::Terminal(t) => {
            let c = collapse.slots@[t as int]->0;
            assert(collapse.terminals@[c as int].matches(w.subrange(i, j)));
            assert(derivation::derives(more, target, 0, Symbol::Terminal(c), w, i, j));
        },
        Symbol::Nonterminal(a) => {
            match collapse.fates@[a as int] {
                Fate::Collapsed(c) => {
                    assert(derivation::yields(rules, lex, symbol, w, i, j));
                    lemma_collapsed(grammar, analysis, collapse, productions, a, c, w, i, j);
                    assert(derivation::derives(more, target, 0, Symbol::Terminal(c), w, i, j));
                },
                _ => {
                    let p = choose|p: int|
                        #![trigger rules[p]]
                        0 <= p < rules.len() && rules[p].lhs == a && derivation::derives_seq(
                            rules,
                            lex,
                            (n - 1) as nat,
                            rules[p].rhs,
                            w,
                            i,
                            j,
                        );
                    let production = grammar.productions@[p];
                    let q = choose|q: int|
                        0 <= q < productions.len() && (#[trigger] productions[q]).original == p;
                    assert(more[q] == residual::residual_rule(productions[q]));
                    lemma_forth_seq(
                        grammar,
                        analysis,
                        collapse,
                        productions,
                        (n - 1) as nat,
                        production.rhs@,
                        w,
                        i,
                        j,
                    );
                    derivation::lemma_yields_rule(more, target, q, w, i, j);
                },
            }
        },
    }
}

proof fn lemma_forth_seq(
    grammar: &Grammar,
    analysis: &RegularAnalysis,
    collapse: &Collapse,
    productions: Seq<ResidualProduction>,
    n: nat,
    symbols: Seq<Symbol>,
    w: Seq<u8>,
    i: int,
    j: int,
)
    requires
        law_holds(grammar, analysis, collapse, productions),
        collapse.all_placed(symbols),
        derivation::derives_seq(
            grammar.rules(),
            grammar.lex(grammar::terminal_kinds()),
            n,
            symbols,
            w,
            i,
            j,
        ),
    ensures
        derivation::yields_seq(
            residual_rules(productions),
            residual::terminal_lex(collapse.terminals@),
            collapse.places(symbols),
            w,
            i,
            j,
        ),
    decreases n, 1nat, symbols.len(),
{
    reveal(law_holds);
    let rules = grammar.rules();
    let lex = grammar.lex(grammar::terminal_kinds());
    let more = residual_rules(productions);
    let target = residual::terminal_lex(collapse.terminals@);
    if symbols.len() == 0 {
        assert(collapse.places(symbols) =~= Seq::<Symbol>::empty());
        assert(derivation::derives_seq(more, target, 0, collapse.places(symbols), w, i, j));
    } else {
        let k = choose|k: int| #[trigger]
            derivation::at(k) && derivation::derives_seq(
                rules,
                lex,
                n,
                symbols.drop_last(),
                w,
                i,
                k,
            ) && derivation::derives(rules, lex, n, symbols.last(), w, k, j);
        assert(collapse.all_placed(symbols.drop_last())) by {
            assert forall|x: int| 0 <= x < symbols.drop_last().len() implies collapse.placed(
                #[trigger] symbols.drop_last()[x],
            ) by {
                assert(collapse.placed(symbols[x]));
            }
        }
        lemma_forth_seq(
            grammar,
            analysis,
            collapse,
            productions,
            n,
            symbols.drop_last(),
            w,
            i,
            k,
        );
        lemma_forth(grammar, analysis, collapse, productions, n, symbols.last(), w, k, j);
        derivation::lemma_yields_seq_push(
            more,
            target,
            collapse.places(symbols.drop_last()),
            collapse.place(symbols.last()),
            w,
            i,
            k,
            j,
        );
        assert(collapse.places(symbols.drop_last()).push(collapse.place(symbols.last()))
            =~= collapse.places(symbols));
    }
}

/// What the place of a symbol derives, the symbol derives too.
proof fn lemma_back(
    grammar: &Grammar,
    analysis: &RegularAnalysis,
    collapse: &Collapse,
    productions: Seq<ResidualProduction>,
    n: nat,
    symbol: Symbol,
    w: Seq<u8>,
    i: int,
    j: int,
)
    requires
        law_holds(grammar, analysis, collapse, productions),
        collapse.placed(symbol),
        derivation::derives(
            residual_rules(productions),
            residual::terminal_lex(collapse.terminals@),
            n,
            collapse.place(symbol),
            w,
            i,
            j,
        ),
    ensures
        derivation::yields(
            grammar.rules(),
            grammar.lex(grammar::terminal_kinds()),
            symbol,
            w,
            i,
            j,
        ),
    decreases n, 0nat, 0nat,
{
    reveal(law_holds);
    let rules = grammar.rules();
    let lex = grammar.lex(grammar::terminal_kinds());
    let more = residual_rules(productions);
    let target = residual::terminal_lex(collapse.terminals@);
    match symbol {
        Symbol::Terminal(t) => {
            let c = collapse.slots@[t as int]->0;
            assert(collapse.terminals@[c as int].matches(w.subrange(i, j)));
            assert(derivation::derives(rules, lex, 0, symbol, w, i, j));
        },
        Symbol::Nonterminal(a) => {
            match collapse.fates@[a as int] {
                Fate::Collapsed(c) => {
                    assert(collapse.terminals@[c as int].matches(w.subrange(i, j)));
                    lemma_collapsed(grammar, analysis, collapse, productions, a, c, w, i, j);
                },
                _ => {
                    let q = choose|q: int|
                        #![trigger more[q]]
                        0 <= q < more.len() && more[q].lhs == a && derivation::derives_seq(
                            more,
                            target,
                            (n - 1) as nat,
                            more[q].rhs,
                            w,
                            i,
                            j,
                        );
                    assert(more[q] == residual::residual_rule(productions[q]));
                    let p = productions[q].original as int;
                    let production = grammar.productions@[p];
                    assert(rules[p] == grammar::production_rule(production));
                    lemma_back_seq(
                        grammar,
                        analysis,
                        collapse,
                        productions,
                        (n - 1) as nat,
                        production.rhs@,
                        w,
                        i,
                        j,
                    );
                    derivation::lemma_yields_rule(rules, lex, p, w, i, j);
                },
            }
        },
    }
}

proof fn lemma_back_seq(
    grammar: &Grammar,
    analysis: &RegularAnalysis,
    collapse: &Collapse,
    productions: Seq<ResidualProduction>,
    n: nat,
    symbols: Seq<Symbol>,
    w: Seq<u8>,
    i: int,
    j: int,
)
    requires
        law_holds(grammar, analysis, collapse, productions),
        collapse.all_placed(symbols),
        derivation::derives_seq(
            residual_rules(productions),
            residual::terminal_lex(collapse.terminals@),
            n,
            collapse.places(symbols),
            w,
            i,
            j,
        ),
    ensures
        derivation::yields_seq(
            grammar.rules(),
            grammar.lex(grammar::terminal_kinds()),
            symbols,
            w,
            i,
            j,
        ),
    decreases n, 1nat, symbols.len(),
{
    reveal(law_holds);
    let rules = grammar.rules();
    let lex = grammar.lex(grammar::terminal_kinds());
    let more = residual_rules(productions);
    let target = residual::terminal_lex(collapse.terminals@);
    let placed = collapse.places(symbols);
    if symbols.len() == 0 {
        assert(derivation::derives_seq(rules, lex, 0, symbols, w, i, j));
    } else {
        let k = choose|k: int| #[trigger]
            derivation::at(k) && derivation::derives_seq(
                more,
                target,
                n,
                placed.drop_last(),
                w,
                i,
                k,
            ) && derivation::derives(more, target, n, placed.last(), w, k, j);
        assert(collapse.all_placed(symbols.drop_last())) by {
            assert forall|x: int| 0 <= x < symbols.drop_last().len() implies collapse.placed(
                #[trigger] symbols.drop_last()[x],
            ) by {
                assert(collapse.placed(symbols[x]));
            }
        }
        assert(placed.drop_last() =~= collapse.places(symbols.drop_last()));
        assert(placed.last() == collapse.place(symbols.last()));
        lemma_back_seq(grammar, analysis, collapse, productions, n, symbols.drop_last(), w, i, k);
        lemma_back(grammar, analysis, collapse, productions, n, symbols.last(), w, k, j);
        derivation::lemma_yields_seq_push(
            rules,
            lex,
            symbols.drop_last(),
            symbols.last(),
            w,
            i,
            k,
            j,
        );
        assert(symbols.drop_last().push(symbols.last()) =~= symbols);
    }
}

/// Everything that the equality of the two languages rests on.
#[verifier::opaque]
spec fn law_holds(
    grammar: &Grammar,
    analysis: &RegularAnalysis,
    collapse: &Collapse,
    productions: Seq<ResidualProduction>,
) -> bool {
    &&& grammar.wf()
    &&& analysis.exact(grammar)
    &&& collapse.wf(grammar, analysis)
    &&& collapse.closed(grammar)
    &&& mapped(grammar, collapse, productions)
    &&& textual(grammar)
    &&& certificate::terminals_read(grammar)
    &&& plain_analysis(analysis)
}

/// The terminal of a nonterminal matches what the nonterminal derives.
proof fn lemma_collapsed(
    grammar: &Grammar,
    analysis: &RegularAnalysis,
    collapse: &Collapse,
    productions: Seq<ResidualProduction>,
    a: u32,
    c: u32,
    w: Seq<u8>,
    i: int,
    j: int,
)
    requires
        law_holds(grammar, analysis, collapse, productions),
        a < grammar.nonterminals@.len(),
        collapse.fates@[a as int] == Fate::Collapsed(c),
        0 <= i <= j <= w.len(),
    ensures
        c < collapse.terminals@.len(),
        collapse.terminals@[c as int].matches(w.subrange(i, j)) <==> derivation::yields(
            grammar.rules(),
            grammar.lex(grammar::terminal_kinds()),
            Symbol::Nonterminal(a),
            w,
            i,
            j,
        ),
{
    reveal(law_holds);
    let e = analysis.expressions@[a as int]->0;
    let part = w.subrange(i, j);
    lemma_same_lex(grammar);
    assert(dense::plain(e));
    certificate::lemma_expression_yields(
        grammar,
        analysis,
        a,
        dense::pattern_lex(),
        part,
        0,
        part.len() as int,
    );
    let rules = grammar.rules();
    let lex = grammar.lex(grammar::terminal_kinds());
    let symbol = Symbol::Nonterminal(a);
    if derivation::yields(rules, lex, symbol, w, i, j) {
        let n = choose|n: nat| derivation::derives(rules, lex, n, symbol, w, i, j);
        derivation::lemma_derives_shift(rules, lex, n, symbol, w, i, j, i, j);
        assert(derivation::derives(rules, lex, n, symbol, part, 0, j - i));
    }
    let length = part.len() as int;
    if derivation::yields(rules, lex, symbol, part, 0, length) {
        let n = choose|n: nat| derivation::derives(rules, lex, n, symbol, part, 0, length);
        derivation::lemma_derives_shift(rules, lex, n, symbol, w, i, j, i, j);
        assert(derivation::derives(rules, lex, n, symbol, w, i, j));
    }
}

/// Maps the productions of the nonterminals that stay.
fn map_productions(grammar: &Grammar, analysis: &RegularAnalysis, collapse: &Collapse) -> (result:
    Result<Vec<ResidualProduction>, CompileError>)
    requires
        grammar.wf(),
        collapse.wf(grammar, analysis),
        collapse.closed(grammar),
    ensures
        result matches Ok(productions) ==> productions@.len() <= grammar.productions@.len(),
        result matches Ok(productions) ==> mapped(grammar, collapse, productions@) && forall|q: int|
            0 <= q < productions@.len() ==> (#[trigger] productions@[q]).id == q
                && residual::symbols_in(
                productions@[q].rhs@,
                grammar.nonterminals@.len(),
                collapse.terminals@.len(),
            ) && productions@[q].provenance == grammar.productions@[productions@[q].original as int].provenance,
        result is Err ==> grammar.productions@.len() > u32::MAX,
        result matches Err(error) ==> error is ResourceLimitExceeded,
{
    let mut productions: Vec<ResidualProduction> = Vec::new();
    let mut p: usize = 0;
    while p < grammar.productions.len()
        invariant
            grammar.wf(),
            collapse.wf(grammar, analysis),
            collapse.closed(grammar),
            p <= grammar.productions@.len(),
            productions@.len() <= p,
            forall|q: int|
                0 <= q < productions@.len() ==> {
                    let origin = (#[trigger] productions@[q]).original as int;
                    &&& origin < p
                    &&& productions@[q].lhs == grammar.productions@[origin].lhs
                    &&& productions@[q].provenance == grammar.productions@[origin].provenance
                    &&& collapse.fates@[productions@[q].lhs as int] == Fate::Kept
                    &&& productions@[q].rhs@ == collapse.places(grammar.productions@[origin].rhs@)
                    &&& productions@[q].id == q
                    &&& residual::symbols_in(
                        productions@[q].rhs@,
                        grammar.nonterminals@.len(),
                        collapse.terminals@.len(),
                    )
                },
            forall|o: int|
                0 <= o < p && collapse.fates@[(#[trigger] grammar.productions@[o]).lhs as int]
                    == Fate::Kept ==> exists|q: int|
                    0 <= q < productions@.len() && (#[trigger] productions@[q]).original == o,
        decreases grammar.productions@.len() - p,
    {
        let source = &grammar.productions[p];
        if collapse.fates[source.lhs as usize] == Fate::Kept {
            let original: u32 = match to_u32(p, CompileStage::ResidualGrammar) {
                Ok(original) => original,
                Err(error) => {
                    return Err(error);
                },
            };
            let mut rhs: Vec<Symbol> = Vec::new();
            while rhs.len() < source.rhs.len()
                invariant
                    grammar.wf(),
                    collapse.wf(grammar, analysis),
                    collapse.closed(grammar),
                    p < grammar.productions@.len(),
                    *source == grammar.productions@[p as int],
                    collapse.fates@[source.lhs as int] == Fate::Kept,
                    rhs@.len() <= source.rhs@.len(),
                    forall|i: int|
                        0 <= i < rhs@.len() ==> #[trigger] rhs@[i] == collapse.place(source.rhs@[i])
                            && residual::symbol_in(
                            rhs@[i],
                            grammar.nonterminals@.len(),
                            collapse.terminals@.len(),
                        ),
                decreases source.rhs@.len() - rhs@.len(),
            {
                let symbol: Symbol = source.rhs[rhs.len()];
                assert(collapse.placed(source.rhs@[rhs@.len() as int]));
                let place: Symbol = match symbol {
                    Symbol::Terminal(t) => match collapse.slots[t as usize] {
                        Some(slot) => Symbol::Terminal(slot),
                        None => symbol,
                    },
                    Symbol::Nonterminal(a) => match collapse.fates[a as usize] {
                        Fate::Collapsed(slot) => Symbol::Terminal(slot),
                        _ => symbol,
                    },
                };
                rhs.push(place);
            }
            assert(rhs@ =~= collapse.places(source.rhs@));
            let id: u32 = productions.len() as u32;
            let ghost before = productions@;
            productions.push(
                ResidualProduction {
                    id,
                    original,
                    lhs: source.lhs,
                    rhs,
                    provenance: source.provenance.clone(),
                },
            );
            proof {
                assert(productions@[before.len() as int].original == p);
                assert forall|o: int|
                    0 <= o < p && collapse.fates@[(#[trigger] grammar.productions@[o]).lhs as int]
                        == Fate::Kept implies exists|q: int|
                    0 <= q < productions@.len() && (#[trigger] productions@[q]).original == o by {
                    let q = choose|q: int|
                        0 <= q < before.len() && (#[trigger] before[q]).original == o;
                    assert(productions@[q].original == o);
                }
            }
        }
        p += 1;
    }
    Ok(productions)
}

/// Whether every symbol is a nonterminal that is marked.
pub open spec fn all_marked(symbols: Seq<Symbol>, marks: Seq<bool>) -> bool {
    forall|i: int| 0 <= i < symbols.len() ==> is_marked(#[trigger] symbols[i], marks)
}

/// Whether a symbol is a nonterminal that is marked.
pub open spec fn is_marked(symbol: Symbol, marks: Seq<bool>) -> bool {
    match symbol {
        Symbol::Nonterminal(a) => marks[a as int],
        Symbol::Terminal(_) => false,
    }
}

/// Whether the symbols from `from` on are nonterminals that are marked.
fn rest_marked(symbols: &Vec<Symbol>, from: usize, marks: &Vec<bool>, Ghost(terminals): Ghost<nat>) -> (marked: bool)
    requires
        from <= symbols@.len(),
        residual::symbols_in(symbols@, marks@.len(), terminals),
    ensures
        marked == all_marked(symbols@.skip(from as int), marks@),
{
    let mut index: usize = from;
    while index < symbols.len()
        invariant
            from <= index <= symbols@.len(),
            residual::symbols_in(symbols@, marks@.len(), terminals),
            forall|i: int| from <= i < index ==> is_marked(#[trigger] symbols@[i], marks@),
        decreases symbols@.len() - index,
    {
        let ghost rest = symbols@.skip(from as int);
        assert(rest[index - from] == symbols@[index as int]);
        assert(residual::symbol_in(symbols@[index as int], marks@.len(), terminals));
        match symbols[index] {
            Symbol::Nonterminal(a) => {
                if !marks[a as usize] {
                    return false;
                }
            },
            Symbol::Terminal(_) => {
                return false;
            },
        }
        index += 1;
    }
    proof {
        assert forall|i: int| 0 <= i < symbols@.skip(from as int).len() implies is_marked(
            #[trigger] symbols@.skip(from as int)[i],
            marks@,
        ) by {
            assert(is_marked(symbols@[from + i], marks@));
        }
    }
    true
}

/// Whether the lexicon has no empty words.
pub open spec fn no_empty(lex: Lex) -> bool {
    forall|t: u32| !#[trigger] lex(t, Seq::<u8>::empty())
}

/// Symbols that are all marked derive the empty string, where marks are right.
proof fn lemma_marked_empty(rules: Seq<Rule>, lex: Lex, symbols: Seq<Symbol>, marks: Seq<bool>)
    requires
        all_marked(symbols, marks),
        forall|i: int|
            0 <= i < symbols.len() && #[trigger] symbols[i] is Nonterminal
                ==> symbols[i]->Nonterminal_0 < marks.len(),
        forall|a: int|
            0 <= a < marks.len() && #[trigger] marks[a] ==> derivation::generates(
                rules,
                lex,
                a as u32,
                Seq::empty(),
            ),
    ensures
        derivation::yields_seq(rules, lex, symbols, Seq::empty(), 0, 0),
    decreases symbols.len(),
{
    let w = Seq::<u8>::empty();
    if symbols.len() == 0 {
        assert(derivation::derives_seq(rules, lex, 0, symbols, w, 0, 0));
    } else {
        let front = symbols.drop_last();
        assert forall|i: int| 0 <= i < front.len() implies is_marked(#[trigger] front[i], marks) by {
            assert(is_marked(symbols[i], marks));
        }
        assert forall|i: int| 0 <= i < front.len() && #[trigger] front[i] is Nonterminal implies
            front[i]->Nonterminal_0 < marks.len() by {
            assert(symbols[i] is Nonterminal);
        }
        lemma_marked_empty(rules, lex, front, marks);
        assert(is_marked(symbols[symbols.len() - 1], marks));
        let a = symbols.last()->Nonterminal_0;
        assert(marks[a as int]);
        derivation::lemma_yields_seq_push(rules, lex, front, symbols.last(), w, 0, 0, 0);
        assert(front.push(symbols.last()) =~= symbols);
    }
}

/// Marks to which no production adds hold of whatever derives the empty string.
proof fn lemma_empty_marked(
    rules: Seq<Rule>,
    lex: Lex,
    marks: Seq<bool>,
    n: nat,
    symbol: Symbol,
)
    requires
        no_empty(lex),
        forall|p: int|
            0 <= p < rules.len() && all_marked((#[trigger] rules[p]).rhs, marks)
                ==> marks[rules[p].lhs as int],
        derivation::derives(rules, lex, n, symbol, Seq::empty(), 0, 0),
    ensures
        is_marked(symbol, marks),
    decreases n, 0nat, 0nat,
{
    let w = Seq::<u8>::empty();
    match symbol {
        Symbol::Terminal(t) => {
            assert(w.subrange(0, 0) =~= w);
            assert(lex(t, w));
        },
        Symbol::Nonterminal(a) => {
            let p = choose|p: int|
                #![trigger rules[p]]
                0 <= p < rules.len() && rules[p].lhs == a && derivation::derives_seq(
                    rules,
                    lex,
                    (n - 1) as nat,
                    rules[p].rhs,
                    w,
                    0,
                    0,
                );
            lemma_empty_marked_seq(rules, lex, marks, (n - 1) as nat, rules[p].rhs);
        },
    }
}

proof fn lemma_empty_marked_seq(
    rules: Seq<Rule>,
    lex: Lex,
    marks: Seq<bool>,
    n: nat,
    symbols: Seq<Symbol>,
)
    requires
        no_empty(lex),
        forall|p: int|
            0 <= p < rules.len() && all_marked((#[trigger] rules[p]).rhs, marks)
                ==> marks[rules[p].lhs as int],
        derivation::derives_seq(rules, lex, n, symbols, Seq::empty(), 0, 0),
    ensures
        all_marked(symbols, marks),
    decreases n, 1nat, symbols.len(),
{
    let w = Seq::<u8>::empty();
    if symbols.len() > 0 {
        let k = choose|k: int| #[trigger]
            derivation::at(k) && derivation::derives_seq(
                rules,
                lex,
                n,
                symbols.drop_last(),
                w,
                0,
                k,
            ) && derivation::derives(rules, lex, n, symbols.last(), w, k, 0);
        derivation::lemma_derives_bounds(rules, lex, n, symbols.last(), w, k, 0);
        derivation::lemma_derives_seq_bounds(rules, lex, n, symbols.drop_last(), w, 0, k);
        lemma_empty_marked_seq(rules, lex, marks, n, symbols.drop_last());
        lemma_empty_marked(rules, lex, marks, n, symbols.last());
        assert forall|i: int| 0 <= i < symbols.len() implies is_marked(
            #[trigger] symbols[i],
            marks,
        ) by {
            if i < symbols.len() - 1 {
                assert(is_marked(symbols.drop_last()[i], marks));
            }
        }
    }
}

/// Marks the nonterminals that derive the empty string.
fn mark_nullable(
    productions: &Vec<ResidualProduction>,
    nonterminals: usize,
    Ghost(terminals): Ghost<Seq<residual::CompiledTerminal>>,
) -> (marks: Vec<bool>)
    requires
        forall|q: int|
            0 <= q < productions@.len() ==> (#[trigger] productions@[q]).lhs < nonterminals
                && residual::symbols_in(productions@[q].rhs@, nonterminals as nat, terminals.len()),
    ensures
        marks@.len() == nonterminals,
        forall|a: int|
            0 <= a < marks@.len() ==> (#[trigger] marks@[a] <==> a <= u32::MAX
                && derivation::generates(
                residual_rules(productions@),
                residual::terminal_lex(terminals),
                a as u32,
                Seq::empty(),
            )),
{
    let mut marks: Vec<bool> = count::unset_marks(nonterminals);
    let ghost rules = residual_rules(productions@);
    let ghost lex = residual::terminal_lex(terminals);
    let mut changed = true;
    while changed
        invariant
            marks@.len() == nonterminals,
            rules == residual_rules(productions@),
            lex == residual::terminal_lex(terminals),
            forall|q: int|
                0 <= q < productions@.len() ==> (#[trigger] productions@[q]).lhs < nonterminals
                    && residual::symbols_in(
                    productions@[q].rhs@,
                    nonterminals as nat,
                    terminals.len(),
                ),
            forall|a: int|
                0 <= a < marks@.len() && #[trigger] marks@[a] ==> a <= u32::MAX
                    && derivation::generates(rules, lex, a as u32, Seq::empty()),
            !changed ==> forall|q: int|
                0 <= q < productions@.len() && all_marked(
                    (#[trigger] productions@[q]).rhs@,
                    marks@,
                ) ==> marks@[productions@[q].lhs as int],
        decreases
                nonterminals - count::count_true(marks@),
                if changed {
                    1nat
                } else {
                    0nat
                },
    {
        changed = false;
        let ghost start = marks@;
        proof {
            count::lemma_count_bound(marks@);
        }
        let mut q: usize = 0;
        while q < productions.len()
            invariant
                q <= productions@.len(),
                marks@.len() == nonterminals,
                rules == residual_rules(productions@),
                lex == residual::terminal_lex(terminals),
                forall|q: int|
                    0 <= q < productions@.len() ==> (#[trigger] productions@[q]).lhs < nonterminals
                        && residual::symbols_in(
                        productions@[q].rhs@,
                        nonterminals as nat,
                        terminals.len(),
                    ),
                forall|a: int|
                    0 <= a < marks@.len() && #[trigger] marks@[a] ==> a <= u32::MAX
                        && derivation::generates(rules, lex, a as u32, Seq::empty()),
                changed ==> count::count_true(marks@) > count::count_true(start),
                !changed ==> marks@ == start && forall|o: int|
                    0 <= o < q && all_marked((#[trigger] productions@[o]).rhs@, marks@)
                        ==> marks@[productions@[o].lhs as int],
            decreases productions@.len() - q,
        {
            let production = &productions[q];
            let lhs: u32 = production.lhs;
            let marked = rest_marked(&production.rhs, 0, &marks, Ghost(terminals.len()));
            proof {
                assert(production.rhs@.skip(0) =~= production.rhs@);
            }
            if marked && !marks[lhs as usize] {
                proof {
                    count::lemma_count_set(marks@, lhs as int);
                    let rhs = production.rhs@;
                    assert forall|i: int|
                        0 <= i < rhs.len() && #[trigger] rhs[i] is Nonterminal implies
                        rhs[i]->Nonterminal_0 < marks@.len() by {
                        assert(residual::symbol_in(rhs[i], nonterminals as nat, terminals.len()));
                    }
                    lemma_marked_empty(rules, lex, rhs, marks@);
                    assert(rules[q as int] == residual::residual_rule(productions@[q as int]));
                    derivation::lemma_yields_rule(rules, lex, q as int, Seq::empty(), 0, 0);
                }
                marks.set(lhs as usize, true);
                changed = true;
            }
            q += 1;
        }
        proof {
            count::lemma_count_bound(marks@);
        }
    }
    proof {
        assert(no_empty(lex));
        assert forall|p: int| 0 <= p < rules.len() && all_marked((#[trigger] rules[p]).rhs, marks@)
            implies marks@[rules[p].lhs as int] by {
            assert(rules[p] == residual::residual_rule(productions@[p]));
        }
        assert forall|a: int| 0 <= a < marks@.len() && a <= u32::MAX && derivation::generates(
            rules,
            lex,
            a as u32,
            Seq::empty(),
        ) implies #[trigger] marks@[a] by {
            let symbol = Symbol::Nonterminal(a as u32);
            let n = choose|n: nat|
                derivation::derives(rules, lex, n, symbol, Seq::<u8>::empty(), 0, 0);
            lemma_empty_marked(rules, lex, marks@, n, symbol);
        }
    }
    marks
}

/// Whether the lists hold, for every production and place in it, whether what follows can be empty.
pub open spec fn suffixes_exact(residual: &ResidualGrammar) -> bool {
    &&& residual.productive_suffixes@.len() == residual.productions@.len()
    &&& forall|q: int|
        0 <= q < residual.productions@.len() ==> suffix_list(
            residual.productions@[q].rhs@,
            (#[trigger] residual.productive_suffixes@[q])@,
            residual.nullable@,
        )
}

/// Whether a list says for every place of a production whether what follows can be empty.
pub open spec fn suffix_list(rhs: Seq<Symbol>, list: Seq<bool>, nullable: Seq<bool>) -> bool {
    &&& list.len() == rhs.len() + 1
    &&& forall|i: int|
        0 <= i < list.len() ==> #[trigger] list[i] == all_marked(rhs.skip(i), nullable)
}

/// Says for every place of every production whether what follows can be empty.
fn list_suffixes(
    productions: &Vec<ResidualProduction>,
    nullable: &Vec<bool>,
    Ghost(terminals): Ghost<nat>,
) -> (lists: Vec<Vec<bool>>)
    requires
        forall|q: int|
            0 <= q < productions@.len() ==> residual::symbols_in(
                (#[trigger] productions@[q]).rhs@,
                nullable@.len(),
                terminals,
            ),
    ensures
        lists@.len() == productions@.len(),
        forall|q: int|
            0 <= q < productions@.len() ==> suffix_list(
                productions@[q].rhs@,
                (#[trigger] lists@[q])@,
                nullable@,
            ),
{
    let mut lists: Vec<Vec<bool>> = Vec::new();
    while lists.len() < productions.len()
        invariant
            lists@.len() <= productions@.len(),
            forall|q: int|
                0 <= q < productions@.len() ==> residual::symbols_in(
                    (#[trigger] productions@[q]).rhs@,
                    nullable@.len(),
                    terminals,
                ),
            forall|q: int|
                0 <= q < lists@.len() ==> suffix_list(
                    productions@[q].rhs@,
                    (#[trigger] lists@[q])@,
                    nullable@,
                ),
        decreases productions@.len() - lists@.len(),
    {
        let production = &productions[lists.len()];
        let length: usize = production.rhs.len();
        let mut list: Vec<bool> = Vec::new();
        let mut index: usize = 0;
        while index < length
            invariant
                index == list@.len() <= length == production.rhs@.len(),
                residual::symbols_in(production.rhs@, nullable@.len(), terminals),
                forall|i: int|
                    0 <= i < list@.len() ==> #[trigger] list@[i] == all_marked(
                        production.rhs@.skip(i),
                        nullable@,
                    ),
            decreases length - index,
        {
            let marked = rest_marked(&production.rhs, index, nullable, Ghost(terminals));
            list.push(marked);
            index += 1;
        }
        list.push(true);
        assert(all_marked(production.rhs@.skip(length as int), nullable@));
        lists.push(list);
    }
    lists
}

/// Whether the lists hold the productions of each nonterminal, in order.
pub open spec fn grouped(lists: Seq<Vec<ProductionId>>, productions: Seq<ResidualProduction>) -> bool {
    &&& forall|a: int, i: int|
        #![trigger lists[a]@[i]]
        0 <= a < lists.len() && 0 <= i < lists[a]@.len() ==> lists[a]@[i] < productions.len()
            && productions[lists[a]@[i] as int].lhs == a
    &&& forall|a: int, i: int, j: int|
        #![trigger lists[a]@[i], lists[a]@[j]]
        0 <= a < lists.len() && 0 <= i < j < lists[a]@.len() ==> lists[a]@[i] < lists[a]@[j]
    &&& forall|q: int|
        0 <= q < productions.len() ==> lists[(#[trigger] productions[q]).lhs as int]@.contains(
            q as u32,
        )
}

/// Groups productions by their left-hand sides.
fn group(productions: &Vec<ResidualProduction>, nonterminals: usize) -> (lists: Vec<Vec<ProductionId>>)
    requires
        productions@.len() <= u32::MAX,
        forall|q: int|
            0 <= q < productions@.len() ==> (#[trigger] productions@[q]).lhs < nonterminals,
    ensures
        lists@.len() == nonterminals,
        grouped(lists@, productions@),
{
    let mut lists: Vec<Vec<ProductionId>> = count::empty_lists(nonterminals);
    let mut q: usize = 0;
    while q < productions.len()
        invariant
            q <= productions@.len() <= u32::MAX,
            lists@.len() == nonterminals,
            forall|q: int|
                0 <= q < productions@.len() ==> (#[trigger] productions@[q]).lhs < nonterminals,
            forall|a: int, i: int|
                #![trigger lists@[a]@[i]]
                0 <= a < lists@.len() && 0 <= i < lists@[a]@.len() ==> lists@[a]@[i] < q
                    && productions@[lists@[a]@[i] as int].lhs == a,
            forall|a: int, i: int, j: int|
                #![trigger lists@[a]@[i], lists@[a]@[j]]
                0 <= a < lists@.len() && 0 <= i < j < lists@[a]@.len() ==> lists@[a]@[i]
                    < lists@[a]@[j],
            forall|o: int|
                0 <= o < q ==> lists@[(#[trigger] productions@[o]).lhs as int]@.contains(o as u32),
        decreases productions@.len() - q,
    {
        let lhs: usize = productions[q].lhs as usize;
        let ghost before = lists@;
        lists[lhs].push(q as u32);
        proof {
            let grown = lists@[lhs as int]@;
            assert(grown == before[lhs as int]@.push(q as u32));
            assert(grown[before[lhs as int]@.len() as int] == q as u32);
            assert forall|o: int| 0 <= o < q implies lists@[(
            #[trigger] productions@[o]).lhs as int]@.contains(o as u32) by {
                let list = before[productions@[o].lhs as int]@;
                assert(list.contains(o as u32));
                let i = choose|i: int| 0 <= i < list.len() && list[i] == o as u32;
                assert(lists@[productions@[o].lhs as int]@[i] == o as u32);
            }
        }
        q += 1;
    }
    lists
}

/// The residual grammar derives what the grammar does.
proof fn lemma_same_language(
    grammar: &Grammar,
    analysis: &RegularAnalysis,
    collapse: &Collapse,
    residual: &ResidualGrammar,
)
    requires
        law_holds(grammar, analysis, collapse, residual.productions@),
        residual.terminals@ == collapse.terminals@,
        residual.start == grammar.start,
    ensures
        forall|w: Seq<u8>| #[trigger]
            residual.generates(w) <==> grammar.language(grammar::terminal_kinds(), w),
{
    reveal(law_holds);
    let rules = grammar.rules();
    let lex = grammar.lex(grammar::terminal_kinds());
    let productions = residual.productions@;
    assert(residual.rules() == residual_rules(productions));
    let symbol = Symbol::Nonterminal(grammar.start);
    assert(collapse.placed(symbol));
    assert forall|w: Seq<u8>| #[trigger] residual.generates(w) <==> grammar.language(
        grammar::terminal_kinds(),
        w,
    ) by {
        let end = w.len() as int;
        if residual.generates(w) {
            let n = choose|n: nat|
                derivation::derives(residual.rules(), residual.lex(), n, symbol, w, 0, end);
            lemma_back(grammar, analysis, collapse, productions, n, symbol, w, 0, end);
        }
        if grammar.language(grammar::terminal_kinds(), w) {
            let n = choose|n: nat| derivation::derives(rules, lex, n, symbol, w, 0, end);
            lemma_forth(grammar, analysis, collapse, productions, n, symbol, w, 0, end);
        }
    }
}

/// Marks that are right for the rules are right for the grammar.
proof fn lemma_nullable(residual: &ResidualGrammar)
    requires
        residual.nullable@.len() == residual.nonterminals@.len(),
        forall|a: int|
            0 <= a < residual.nullable@.len() ==> (#[trigger] residual.nullable@[a] <==> a
                <= u32::MAX && derivation::generates(
                residual_rules(residual.productions@),
                residual::terminal_lex(residual.terminals@),
                a as u32,
                Seq::empty(),
            )),
    ensures
        residual.nullable_exact(),
{
    assert(residual.rules() == residual_rules(residual.productions@));
}

/// What is promised of a residual grammar beside its language.
pub open spec fn assembled(grammar: &Grammar, residual: &ResidualGrammar) -> bool {
    &&& residual.wf()
    &&& residual.nullable_exact()
    &&& suffixes_exact(residual)
    &&& residual.productions_by_lhs@.len() == residual.nonterminals@.len()
    &&& grouped(residual.productions_by_lhs@, residual.productions@)
    &&& residual.start == grammar.start
    &&& residual.nonterminals@.len() == grammar.nonterminals@.len()
    &&& residual.terminals@.len() == residual.terminal_provenance@.len() <= u32::MAX
    &&& collapse::no_repeats(residual.terminals@)
}

/// What is promised of a residual grammar.
pub open spec fn residual_exact(grammar: &Grammar, residual: &ResidualGrammar) -> bool {
    &&& assembled(grammar, residual)
    &&& textual(grammar) && certificate::clean(grammar) ==> forall|w: Seq<u8>| #[trigger]
        residual.generates(w) <==> grammar.language(grammar::terminal_kinds(), w)
    &&& reduction::sown(grammar) ==> residual.fertile()
    &&& certificate::clean(grammar) ==> residual.worded()
}

/// What has a derivation tree and stays still has one.
proof fn lemma_stays_productive(
    grammar: &Grammar,
    collapse: &Collapse,
    productions: Seq<ResidualProduction>,
    n: nat,
    a: u32,
)
    requires
        grammar.wf(),
        collapse.fates@.len() == grammar.nonterminals@.len(),
        collapse.closed(grammar),
        mapped(grammar, collapse, productions),
        a < grammar.nonterminals@.len(),
        collapse.fates@[a as int] == Fate::Kept,
        reduction::productive_within(grammar.rules(), n, a),
    ensures
        reduction::productive_within(residual_rules(productions), n, a),
    decreases n,
{
    let rules = grammar.rules();
    let kept = residual_rules(productions);
    let p = choose|p: int|
        #![trigger rules[p]]
        0 <= p < rules.len() && rules[p].lhs == a && forall|i: int|
            0 <= i < rules[p].rhs.len() ==> (#[trigger] rules[p].rhs[i] matches Symbol::Nonterminal(
                b,
            ) ==> reduction::productive_within(rules, (n - 1) as nat, b));
    assert(rules[p] == grammar::production_rule(grammar.productions@[p]));
    let q = choose|q: int|
        0 <= q < productions.len() && (#[trigger] productions[q]).original == p;
    assert(kept[q] == residual::residual_rule(productions[q]));
    assert forall|i: int| 0 <= i < kept[q].rhs.len() implies (
    #[trigger] kept[q].rhs[i] matches Symbol::Nonterminal(b) ==> reduction::productive_within(
        kept,
        (n - 1) as nat,
        b,
    )) by {
        if let Symbol::Nonterminal(b) = kept[q].rhs[i] {
            let rhs = grammar.productions@[p].rhs@;
            assert(collapse.placed(rhs[i]));
            assert(collapse.place(rhs[i]) == Symbol::Nonterminal(b));
            assert(rules[p].rhs[i] == Symbol::Nonterminal(b));
            lemma_stays_productive(grammar, collapse, productions, (n - 1) as nat, b);
        }
    }
}

/// A residual grammar has derivation trees where its grammar has them.
proof fn lemma_fertile(grammar: &Grammar, collapse: &Collapse, residual: &ResidualGrammar)
    requires
        grammar.wf(),
        collapse.fates@.len() == grammar.nonterminals@.len(),
        collapse.fates@[grammar.start as int] == Fate::Kept,
        collapse.closed(grammar),
        mapped(grammar, collapse, residual.productions@),
        residual.start == grammar.start,
        reduction::sown(grammar),
    ensures
        residual.fertile(),
{
    let productions = residual.productions@;
    let rules = residual.rules();
    assert(rules == residual_rules(productions));
    if productions.len() > 0 {
        assert(grammar.productions@.len() > 0) by {
            assert(productions[0].original < grammar.productions@.len());
        }
        assert(reduction::productive(grammar.rules(), grammar.start));
        let n = choose|n: nat| reduction::productive_within(grammar.rules(), n, grammar.start);
        lemma_stays_productive(grammar, collapse, productions, n, grammar.start);
        assert forall|q: int, i: int|
            0 <= q < residual.rules().len() && 0 <= i < residual.rules()[q].rhs.len() implies (
        #[trigger] residual.rules()[q].rhs[i] matches Symbol::Nonterminal(a)
            ==> reduction::productive(residual.rules(), a)) by {
            if let Symbol::Nonterminal(a) = residual.rules()[q].rhs[i] {
                assert(rules[q] == residual::residual_rule(productions[q]));
                let p = productions[q].original as int;
                let rhs = grammar.productions@[p].rhs@;
                assert(collapse.all_placed(rhs));
                assert(collapse.placed(rhs[i]));
                assert(collapse.place(rhs[i]) == Symbol::Nonterminal(a));
                assert(reduction::productive(grammar.rules(), a));
                let n = choose|n: nat| reduction::productive_within(grammar.rules(), n, a);
                lemma_stays_productive(grammar, collapse, productions, n, a);
            }
        }
    }
}

/// Puts a residual grammar together.
fn assemble(
    grammar: &Grammar,
    collapse: Collapse,
    productions: Vec<ResidualProduction>,
) -> (residual: ResidualGrammar)
    requires
        grammar.wf(),
        collapse.terminals@.len() == collapse.terminal_provenance@.len() <= u32::MAX,
        collapse::no_repeats(collapse.terminals@),
        forall|c: int|
            0 <= c < collapse.terminals@.len() ==> (#[trigger] collapse.terminals@[c]).wf(),
        productions@.len() <= u32::MAX,
        forall|q: int|
            0 <= q < productions@.len() ==> (#[trigger] productions@[q]).lhs
                < grammar.nonterminals@.len() && residual::symbols_in(
                productions@[q].rhs@,
                grammar.nonterminals@.len(),
                collapse.terminals@.len(),
            ),
    ensures
        assembled(grammar, &residual),
        residual.productions@ == productions@,
        residual.terminals@ == collapse.terminals@,
        residual.collapsed_nonterminals == collapse.collapsed,
        residual.collapsed_regions == collapse.collapsed,
        residual.terminal_dfa_states == collapse.dfa_states,
        residual.terminal_dfa_bytes == collapse.dfa_bytes,
{
    let count: usize = grammar.nonterminals.len();
    let nullable = mark_nullable(&productions, count, Ghost(collapse.terminals@));
    let productive_suffixes = list_suffixes(
        &productions,
        &nullable,
        Ghost(collapse.terminals@.len()),
    );
    let productions_by_lhs = group(&productions, count);
    let mut nonterminals: Vec<ResidualNonterminal> = Vec::new();
    while nonterminals.len() < count
        invariant
            nonterminals@.len() <= count == grammar.nonterminals@.len(),
        decreases count - nonterminals@.len(),
    {
        let source = &grammar.nonterminals[nonterminals.len()];
        nonterminals.push(
            ResidualNonterminal {
                id: source.id,
                original: source.id,
                name: source.name.clone(),
                provenance: source.provenance.clone(),
            },
        );
    }
    let Collapse { terminals, terminal_provenance, collapsed, dfa_states, dfa_bytes, .. } = collapse;
    let residual = ResidualGrammar {
        start: grammar.start,
        nonterminals,
        terminals,
        terminal_provenance,
        productions,
        productions_by_lhs,
        nullable,
        productive_suffixes,
        collapsed_nonterminals: collapsed,
        collapsed_regions: collapsed,
        terminal_dfa_states: dfa_states,
        terminal_dfa_bytes: dfa_bytes,
    };
    proof {
        lemma_nullable(&residual);
    }
    residual
}

/// Turns the certified parts of a grammar into terminals. The language stays the same.
pub fn build_residual(
    grammar: &Grammar,
    analysis: &RegularAnalysis,
    limits: &CompileLimits,
) -> (result: Result<ResidualGrammar, CompileError>)
    requires
        grammar.wf(),
        analysis.exact(grammar),
    ensures
        result matches Ok(residual) ==> residual_exact(grammar, &residual),
        result matches Err(error) ==> collapse::refused(grammar, analysis, *limits, error) || (error matches
            CompileError::ResourceLimitExceeded { stage, .. } && stage
            == CompileStage::ResidualGrammar && grammar.productions@.len() > u32::MAX),
{
    let collapse = match Collapse::build(grammar, analysis, limits) {
        Ok(collapse) => collapse,
        Err(error) => {
            return Err(error);
        },
    };
    if grammar.productions.len() > u32::MAX as usize {
        return Err(
            CompileError::ResourceLimitExceeded {
                stage: CompileStage::ResidualGrammar,
                observed: grammar.productions.len(),
                limit: u32::MAX as usize,
            },
        );
    }
    let productions = match map_productions(grammar, analysis, &collapse) {
        Ok(productions) => productions,
        Err(error) => {
            return Err(error);
        },
    };
    let ghost map = collapse;
    let residual = assemble(grammar, collapse, productions);
    proof {
        if textual(grammar) && certificate::clean(grammar) {
            certificate::lemma_clean_expressions(grammar, analysis);
            assert(plain_analysis(analysis));
            assert(law_holds(grammar, analysis, &map, residual.productions@)) by {
                reveal(law_holds);
            }
            lemma_same_language(grammar, analysis, &map, &residual);
        }
        if reduction::sown(grammar) {
            lemma_fertile(grammar, &map, &residual);
        }
    }
    Ok(residual)
}

} // verus!
