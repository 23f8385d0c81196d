//! Certificates that parts of a grammar are regular, with their expressions.

use vstd::prelude::*;

use crate::count;
use crate::dense;
use crate::derivation;
use crate::error::CompileError;
use crate::grammar;
use crate::grammar::Grammar;
use crate::kleene;
use crate::regular;
use crate::regular::RegularExpression;
use crate::residual;
use crate::scc;
use crate::scc::{Scc, SccAnalysis};
use crate::sorting;
use crate::symbol::{NonterminalId, SccId, Symbol};

verus! {

/// How a component was found to be regular.
#[derive(Clone, Copy, Debug, PartialEq, Eq, Structural)]
pub enum RegularCertificateKind {
    Acyclic,
    RightLinear,
    LeftLinear,
}

/// Why a component has no certificate.
#[derive(Clone, Copy, Debug, PartialEq, Eq, Structural)]
pub enum CertificateFailureReason {
    MultipleRecursiveOccurrences,
    MixedLinearOrientation,
    RecursiveSymbolInInterior,
    UncertifiedDependency,
    UnsupportedRegularOperation,
}

/// What was found of a component.
#[derive(Clone, Debug, PartialEq, Eq)]
pub struct SccCertificate {
    pub scc: SccId,
    pub kind: Option<RegularCertificateKind>,
    pub failure_reason: Option<CertificateFailureReason>,
}

/// The components of a grammar, what was found of each, and the expressions of the nonterminals of
/// the regular ones.
#[derive(Debug, PartialEq, Eq)]
pub struct RegularAnalysis {
    pub sccs: SccAnalysis,
    pub certificates: Vec<SccCertificate>,
    pub expressions: Vec<Option<RegularExpression>>,
    pub whole_language: Option<RegularExpression>,
}

/// The side on which a component's productions recur.
#[derive(Clone, Copy, Debug, PartialEq, Eq, Structural)]
pub enum LinearOrientation {
    Neutral,
    Right,
    Left,
}

/// The languages of the kinds of terminals, from those of patterns.
pub open spec fn kinds(patterns: regular::PatternLex) -> grammar::KindLex {
    |kind: grammar::TerminalKind, w: Seq<u8>| patterns(grammar::kind_pattern(kind), w)
}

/// Whether a symbol of a grammar derives `w[i..j]`.
pub open spec fn symbol_yields(
    grammar: &Grammar,
    patterns: regular::PatternLex,
    symbol: Symbol,
    w: Seq<u8>,
    i: int,
    j: int,
) -> bool {
    derivation::yields(grammar.rules(), grammar.lex(kinds(patterns)), symbol, w, i, j)
}

/// Whether symbols of a grammar derive `w[i..j]`.
pub open spec fn symbols_yield(
    grammar: &Grammar,
    patterns: regular::PatternLex,
    symbols: Seq<Symbol>,
    w: Seq<u8>,
    i: int,
    j: int,
) -> bool {
    derivation::yields_seq(grammar.rules(), grammar.lex(kinds(patterns)), symbols, w, i, j)
}

/// Whether an expression, read as `flip` says, matches what a symbol derives, whatever the patterns
/// match.
#[verifier::opaque]
pub open spec fn expresses(
    grammar: &Grammar,
    flip: bool,
    e: RegularExpression,
    symbol: Symbol,
) -> bool {
    forall|patterns: regular::PatternLex, w: Seq<u8>, i: int, j: int|
        regular::denotes(e, patterns, flip, w, i, j) == symbol_yields(
            grammar,
            patterns,
            symbol,
            w,
            i,
            j,
        )
}

/// Whether an expression, read as `flip` says, matches what symbols derive, whatever the patterns
/// match.
#[verifier::opaque]
pub open spec fn expresses_seq(
    grammar: &Grammar,
    flip: bool,
    e: RegularExpression,
    symbols: Seq<Symbol>,
) -> bool {
    forall|patterns: regular::PatternLex, w: Seq<u8>, i: int, j: int|
        regular::denotes(e, patterns, flip, w, i, j) == symbols_yield(
            grammar,
            patterns,
            symbols,
            w,
            i,
            j,
        )
}

proof fn lemma_expresses_use(
    grammar: &Grammar,
    flip: bool,
    e: RegularExpression,
    symbol: Symbol,
    patterns: regular::PatternLex,
    w: Seq<u8>,
    i: int,
    j: int,
)
    requires
        expresses(grammar, flip, e, symbol),
    ensures
        regular::denotes(e, patterns, flip, w, i, j) == symbol_yields(
            grammar,
            patterns,
            symbol,
            w,
            i,
            j,
        ),
{
    reveal(expresses);
}

/// A copy expresses what the original does.
proof fn lemma_expresses_alike(
    grammar: &Grammar,
    flip: bool,
    e: RegularExpression,
    copy: RegularExpression,
    symbol: Symbol,
)
    requires
        expresses(grammar, flip, e, symbol),
        regular::alike(e, copy),
    ensures
        expresses(grammar, flip, copy, symbol),
{
    reveal(expresses);
    assert forall|patterns: regular::PatternLex, w: Seq<u8>, i: int, j: int|
        regular::denotes(copy, patterns, flip, w, i, j) == symbol_yields(
            grammar,
            patterns,
            symbol,
            w,
            i,
            j,
        ) by {
        regular::lemma_alike_denotes(e, copy, patterns, flip, w, i, j);
    }
}

/// A flipped expression, read the other way, expresses what the original does.
proof fn lemma_expresses_flipped(
    grammar: &Grammar,
    flip: bool,
    e: RegularExpression,
    other: RegularExpression,
    symbol: Symbol,
)
    requires
        expresses(grammar, flip, e, symbol),
        regular::flipped(e, other),
    ensures
        expresses(grammar, !flip, other, symbol),
{
    reveal(expresses);
    assert forall|patterns: regular::PatternLex, w: Seq<u8>, i: int, j: int|
        regular::denotes(other, patterns, !flip, w, i, j) == symbol_yields(
            grammar,
            patterns,
            symbol,
            w,
            i,
            j,
        ) by {
        regular::lemma_flipped_use(e, other, patterns, !flip, w, i, j);
    }
}

/// The atom of a terminal expresses it.
proof fn lemma_expresses_terminal(grammar: &Grammar, e: RegularExpression, t: u32)
    requires
        t < grammar.terminals@.len(),
        e matches RegularExpression::Atom { forward, .. } && forward@ == grammar::kind_pattern(
            grammar.terminals@[t as int].kind@,
        ),
    ensures
        expresses(grammar, false, e, Symbol::Terminal(t)),
{
    reveal(expresses);
    assert forall|patterns: regular::PatternLex, w: Seq<u8>, i: int, j: int|
        regular::denotes(e, patterns, false, w, i, j) == symbol_yields(
            grammar,
            patterns,
            Symbol::Terminal(t),
            w,
            i,
            j,
        ) by {
        let lex = grammar.lex(kinds(patterns));
        let symbol = Symbol::Terminal(t);
        if regular::denotes(e, patterns, false, w, i, j) {
            assert(derivation::derives(grammar.rules(), lex, 0, symbol, w, i, j));
        }
        if symbol_yields(grammar, patterns, symbol, w, i, j) {
            let n = choose|n: nat|
                derivation::derives(grammar.rules(), lex, n, symbol, w, i, j);
            assert(lex(t, w.subrange(i, j)));
        }
    }
}

/// Whether expressions, one after the other and read as `flip` says, match what symbols derive.
spec fn parts_express(
    grammar: &Grammar,
    flip: bool,
    parts: Seq<RegularExpression>,
    symbols: Seq<Symbol>,
) -> bool {
    &&& parts.len() == symbols.len()
    &&& forall|x: int|
        0 <= x < symbols.len() ==> expresses(
            grammar,
            flip,
            parts[if flip {
                symbols.len() - 1 - x
            } else {
                x
            }],
            #[trigger] symbols[x],
        )
}

proof fn lemma_parts_forward(
    grammar: &Grammar,
    parts: Seq<RegularExpression>,
    symbols: Seq<Symbol>,
    patterns: regular::PatternLex,
    w: Seq<u8>,
    i: int,
    j: int,
)
    requires
        parts_express(grammar, false, parts, symbols),
    ensures
        regular::denotes_seq(parts, patterns, false, w, i, j) == symbols_yield(
            grammar,
            patterns,
            symbols,
            w,
            i,
            j,
        ),
    decreases symbols.len(),
{
    let rules = grammar.rules();
    let lex = grammar.lex(kinds(patterns));
    if symbols.len() == 0 {
        if regular::denotes_seq(parts, patterns, false, w, i, j) {
            assert(derivation::derives_seq(rules, lex, 0, symbols, w, i, j));
        }
        if symbols_yield(grammar, patterns, symbols, w, i, j) {
            let n = choose|n: nat| derivation::derives_seq(rules, lex, n, symbols, w, i, j);
        }
    } else {
        let fronts = parts.drop_last();
        let front = symbols.drop_last();
        assert(expresses(grammar, false, parts.last(), symbols[symbols.len() - 1]));
        assert forall|x: int| 0 <= x < front.len() implies expresses(
            grammar,
            false,
            fronts[x],
            #[trigger] front[x],
        ) by {
            assert(front[x] == symbols[x]);
        }
        if regular::denotes_seq(parts, patterns, false, w, i, j) {
            let k = choose|k: int| #[trigger]
                derivation::at(k) && regular::denotes_seq(fronts, patterns, false, w, i, k)
                    && regular::denotes(parts.last(), patterns, false, w, k, j);
            lemma_parts_forward(grammar, fronts, front, patterns, w, i, k);
            lemma_expresses_use(
                grammar,
                false,
                parts.last(),
                symbols.last(),
                patterns,
                w,
                k,
                j,
            );
            derivation::lemma_yields_seq_push(rules, lex, front, symbols.last(), w, i, k, j);
            assert(front.push(symbols.last()) =~= symbols);
        }
        if symbols_yield(grammar, patterns, symbols, w, i, j) {
            let k = derivation::lemma_yields_seq_pop(rules, lex, symbols, w, i, j);
            lemma_parts_forward(grammar, fronts, front, patterns, w, i, k);
            lemma_expresses_use(
                grammar,
                false,
                parts.last(),
                symbols.last(),
                patterns,
                w,
                k,
                j,
            );
            assert(derivation::at(k));
        }
    }
}

proof fn lemma_parts_backward(
    grammar: &Grammar,
    parts: Seq<RegularExpression>,
    symbols: Seq<Symbol>,
    patterns: regular::PatternLex,
    w: Seq<u8>,
    i: int,
    j: int,
)
    requires
        parts_express(grammar, true, parts, symbols),
    ensures
        regular::denotes_seq(parts, patterns, true, w, i, j) == symbols_yield(
            grammar,
            patterns,
            symbols,
            w,
            i,
            j,
        ),
    decreases symbols.len(),
{
    let rules = grammar.rules();
    let lex = grammar.lex(kinds(patterns));
    if symbols.len() == 0 {
        if regular::denotes_seq(parts, patterns, true, w, i, j) {
            assert(derivation::derives_seq(rules, lex, 0, symbols, w, i, j));
        }
        if symbols_yield(grammar, patterns, symbols, w, i, j) {
            let n = choose|n: nat| derivation::derives_seq(rules, lex, n, symbols, w, i, j);
        }
    } else {
        let fronts = parts.drop_last();
        let rest = symbols.skip(1);
        assert(expresses(grammar, true, parts.last(), symbols[0]));
        assert forall|x: int| 0 <= x < rest.len() implies expresses(
            grammar,
            true,
            fronts[rest.len() - 1 - x],
            #[trigger] rest[x],
        ) by {
            assert(rest[x] == symbols[x + 1]);
        }
        if regular::denotes_seq(parts, patterns, true, w, i, j) {
            let k = choose|k: int| #[trigger]
                derivation::at(k) && regular::denotes(parts.last(), patterns, true, w, i, k)
                    && regular::denotes_seq(fronts, patterns, true, w, k, j);
            lemma_parts_backward(grammar, fronts, rest, patterns, w, k, j);
            lemma_expresses_use(grammar, true, parts.last(), symbols[0], patterns, w, i, k);
            derivation::lemma_yields_seq_cons(rules, lex, symbols[0], rest, w, i, k, j);
            assert(seq![symbols[0]] + rest =~= symbols);
        }
        if symbols_yield(grammar, patterns, symbols, w, i, j) {
            let k = derivation::lemma_yields_seq_first(rules, lex, symbols, w, i, j);
            lemma_parts_backward(grammar, fronts, rest, patterns, w, k, j);
            lemma_expresses_use(grammar, true, parts.last(), symbols[0], patterns, w, i, k);
            assert(derivation::at(k));
        }
    }
}

/// Whether a symbol is a nonterminal of a component.
pub open spec fn inside(analysis: &SccAnalysis, id: SccId, symbol: Symbol) -> bool {
    symbol matches Symbol::Nonterminal(a) && analysis.component_of@[a as int] == id
}

/// Whether the patterns of all terminals are plain, in both directions.
#[verifier::opaque]
pub open spec fn clean(grammar: &Grammar) -> bool {
    forall|t: int|
        0 <= t < grammar.terminals@.len() ==> clean_kind(#[trigger] grammar.terminals@[t].kind@)
}

/// Whether the patterns of a kind of terminal are plain, in both directions.
pub open spec fn clean_kind(kind: grammar::TerminalKind) -> bool {
    &&& dense::plain_pattern(grammar::kind_pattern(kind))
    &&& grammar::kind_reverse(kind) matches Some(backward) ==> dense::plain_pattern(backward)
}

/// Whether the expressions that there are express their nonterminals, by plain patterns where the
/// terminals have them.
pub open spec fn expressions_exact(
    grammar: &Grammar,
    expressions: Seq<Option<RegularExpression>>,
) -> bool {
    &&& expressions.len() == grammar.nonterminals@.len()
    &&& forall|a: int|
        0 <= a < expressions.len() && (#[trigger] expressions[a]) is Some ==> expresses(
            grammar,
            false,
            expressions[a]->0,
            Symbol::Nonterminal(a as u32),
        ) && (clean(grammar) ==> regular::plain(expressions[a]->0))
}

/// Whether an expression of a symbol is at hand, and one for reversed words if `reversed` asks for
/// it.
pub open spec fn usable(
    grammar: &Grammar,
    expressions: Seq<Option<RegularExpression>>,
    reversed: bool,
    symbol: Symbol,
) -> bool {
    match symbol {
        Symbol::Terminal(t) => reversed ==> grammar::kind_reverse(
            grammar.terminals@[t as int].kind@,
        ) is Some,
        Symbol::Nonterminal(a) => expressions[a as int] is Some && (reversed
            ==> regular::reversible(expressions[a as int]->0)),
    }
}

/// Whether the patterns of a grammar's terminals match what the terminals stand for.
pub open spec fn terminals_read(grammar: &Grammar) -> bool {
    forall|t: int|
        0 <= t < grammar.terminals@.len() ==> grammar::kind_read(
            #[trigger] grammar.terminals@[t].kind@,
        )
}

/// Whether patterns are those of a grammar's terminals.
pub open spec fn patterns_exact(grammar: &Grammar, patterns: Seq<String>) -> bool {
    &&& patterns.len() == grammar.terminals@.len()
    &&& forall|t: int|
        0 <= t < patterns.len() ==> (#[trigger] patterns[t])@ == grammar::kind_pattern(
            grammar.terminals@[t].kind@,
        )
}

/// Reads the patterns of a grammar's terminals.
fn read_terminals(grammar: &Grammar) -> (patterns: Vec<String>)
    ensures
        patterns_exact(grammar, patterns@),
        terminals_read(grammar),
{
    let mut patterns: Vec<String> = Vec::new();
    while patterns.len() < grammar.terminals.len()
        invariant
            patterns@.len() <= grammar.terminals@.len(),
            forall|t: int|
                0 <= t < patterns@.len() ==> (#[trigger] patterns@[t])@ == grammar::kind_pattern(
                    grammar.terminals@[t].kind@,
                ),
            forall|t: int|
                0 <= t < patterns@.len() ==> grammar::kind_read(
                    #[trigger] grammar.terminals@[t].kind@,
                ),
        decreases grammar.terminals@.len() - patterns@.len(),
    {
        let pattern = grammar.terminals[patterns.len()].forward_pattern();
        patterns.push(pattern);
    }
    patterns
}

/// The expression of a symbol outside the component, for reversed words if `reversed` asks for it.
fn symbol_expression(
    grammar: &Grammar,
    patterns: &Vec<String>,
    analysis: &SccAnalysis,
    component: &Scc,
    symbol: Symbol,
    expressions: &Vec<Option<RegularExpression>>,
    reversed: bool,
) -> (result: Result<RegularExpression, CertificateFailureReason>)
    requires
        patterns_exact(grammar, patterns@),
        expressions_exact(grammar, expressions@),
        analysis.component_of@.len() == grammar.nonterminals@.len(),
        residual::symbol_in(symbol, grammar.nonterminals@.len(), grammar.terminals@.len()),
    ensures
        match result {
            Ok(expression) => !inside(analysis, component.id, symbol) && usable(
                grammar,
                expressions@,
                reversed,
                symbol,
            ) && expresses(grammar, reversed, expression, symbol) && (reversed
                ==> regular::reversible(expression)) && (clean(grammar) ==> regular::plain(
                expression,
            )),
            Err(reason) => if inside(analysis, component.id, symbol) {
                reason == CertificateFailureReason::RecursiveSymbolInInterior
            } else {
                !usable(grammar, expressions@, reversed, symbol) && reason == (if usable(
                    grammar,
                    expressions@,
                    false,
                    symbol,
                ) {
                    CertificateFailureReason::UnsupportedRegularOperation
                } else {
                    CertificateFailureReason::UncertifiedDependency
                })
            },
        },
{
    let expression = match symbol {
        Symbol::Terminal(id) => {
            let terminal = &grammar.terminals[id as usize];
            let expression = RegularExpression::Atom {
                forward: patterns[id as usize].clone(),
                reverse: terminal.reverse_pattern(),
            };
            proof {
                lemma_expresses_terminal(grammar, expression, id);
                if clean(grammar) {
                    reveal(clean);
                    assert(clean_kind(grammar.terminals@[id as int].kind@));
                }
            }
            expression
        },
        Symbol::Nonterminal(id) => {
            if analysis.component_of[id as usize] == component.id {
                return Err(CertificateFailureReason::RecursiveSymbolInInterior);
            }
            match &expressions[id as usize] {
                Some(expression) => {
                    let copy = expression.clone();
                    proof {
                        lemma_expresses_alike(
                            grammar,
                            false,
                            *expression,
                            copy,
                            Symbol::Nonterminal(id),
                        );
                        if clean(grammar) {
                            regular::lemma_alike_plain(*expression, copy);
                        }
                        if regular::reversible(*expression) {
                            regular::lemma_alike_reversible(*expression, copy);
                        }
                        if regular::reversible(copy) {
                            regular::lemma_alike_turn(*expression, copy);
                            regular::lemma_alike_reversible(copy, *expression);
                        }
                    }
                    copy
                },
                None => {
                    return Err(CertificateFailureReason::UncertifiedDependency);
                },
            }
        },
    };
    if reversed {
        match expression.reversed() {
            Some(other) => {
                proof {
                    lemma_expresses_flipped(grammar, false, expression, other, symbol);
                }
                Ok(other)
            },
            None => Err(CertificateFailureReason::UnsupportedRegularOperation),
        }
    } else {
        Ok(expression)
    }
}

/// The expression of the symbols from one position to another, for reversed words if `reversed`
/// asks for it.
fn rhs_expression(
    grammar: &Grammar,
    patterns: &Vec<String>,
    analysis: &SccAnalysis,
    component: &Scc,
    rhs: &Vec<Symbol>,
    from: usize,
    to: usize,
    expressions: &Vec<Option<RegularExpression>>,
    reversed: bool,
) -> (result: Result<RegularExpression, CertificateFailureReason>)
    requires
        patterns_exact(grammar, patterns@),
        expressions_exact(grammar, expressions@),
        analysis.component_of@.len() == grammar.nonterminals@.len(),
        from <= to <= rhs@.len(),
        residual::symbols_in(rhs@, grammar.nonterminals@.len(), grammar.terminals@.len()),
        forall|x: int|
            from <= x < to ==> !inside(analysis, component.id, #[trigger] rhs@[x]) && usable(
                grammar,
                expressions@,
                false,
                rhs@[x],
            ),
    ensures
        result is Ok <==> forall|x: int|
            from <= x < to ==> usable(grammar, expressions@, reversed, #[trigger] rhs@[x]),
        match result {
            Ok(expression) => expresses_seq(
                grammar,
                reversed,
                expression,
                rhs@.subrange(from as int, to as int),
            ) && (reversed ==> regular::reversible(expression)) && (clean(grammar)
                ==> regular::plain(expression)),
            Err(reason) => reason == CertificateFailureReason::UnsupportedRegularOperation,
        },
{
    let mut parts: Vec<RegularExpression> = Vec::new();
    let ghost symbols = rhs@.subrange(from as int, to as int);
    let mut done: usize = 0;
    let count: usize = to - from;
    while done < count
        invariant
            patterns_exact(grammar, patterns@),
            expressions_exact(grammar, expressions@),
            analysis.component_of@.len() == grammar.nonterminals@.len(),
            from <= to <= rhs@.len(),
            count == to - from,
            symbols == rhs@.subrange(from as int, to as int),
            residual::symbols_in(rhs@, grammar.nonterminals@.len(), grammar.terminals@.len()),
            forall|x: int|
                from <= x < to ==> !inside(analysis, component.id, #[trigger] rhs@[x]) && usable(
                    grammar,
                    expressions@,
                    false,
                    rhs@[x],
                ),
            done == parts@.len() <= count,
            forall|x: int|
                0 <= x < done ==> expresses(
                    grammar,
                    reversed,
                    #[trigger] parts@[x],
                    symbols[if reversed {
                        count - 1 - x
                    } else {
                        x
                    }],
                ),
            forall|x: int|
                from <= x < to && (if reversed {
                    to - done <= x
                } else {
                    x < from + done
                }) ==> usable(grammar, expressions@, reversed, #[trigger] rhs@[x]),
            reversed ==> regular::all_reversible(parts@),
            clean(grammar) ==> regular::all_plain(parts@),
        decreases count - done,
    {
        let position: usize = if reversed {
            to - 1 - done
        } else {
            from + done
        };
        match symbol_expression(
            grammar,
            patterns,
            analysis,
            component,
            rhs[position],
            expressions,
            reversed,
        ) {
            Ok(expression) => {
                parts.push(expression);
            },
            Err(reason) => {
                assert(usable(grammar, expressions@, false, rhs@[position as int]));
                return Err(reason);
            },
        }
        done += 1;
    }
    let ghost all = parts@;
    let result = regular::concat(parts);
    proof {
        assert(parts_express(grammar, reversed, all, symbols)) by {
            assert forall|x: int| 0 <= x < symbols.len() implies expresses(
                grammar,
                reversed,
                all[if reversed {
                    symbols.len() - 1 - x
                } else {
                    x
                }],
                #[trigger] symbols[x],
            ) by {
                let y = if reversed {
                    symbols.len() - 1 - x
                } else {
                    x
                };
                assert(expresses(
                    grammar,
                    reversed,
                    all[y],
                    symbols[if reversed {
                        count - 1 - y
                    } else {
                        y
                    }],
                ));
            }
        }
        assert(expresses_seq(grammar, reversed, result, symbols)) by {
            reveal(expresses_seq);
            assert forall|patterns: regular::PatternLex, w: Seq<u8>, i: int, j: int|
                regular::denotes(result, patterns, reversed, w, i, j) == symbols_yield(
                    grammar,
                    patterns,
                    symbols,
                    w,
                    i,
                    j,
                ) by {
                if reversed {
                    lemma_parts_backward(grammar, all, symbols, patterns, w, i, j);
                } else {
                    lemma_parts_forward(grammar, all, symbols, patterns, w, i, j);
                }
            }
        }
    }
    Ok(result)
}

/// Whether the members of a component are the nonterminals numbered so, each once.
pub open spec fn members_exact(
    grammar: &Grammar,
    analysis: &SccAnalysis,
    component: &Scc,
) -> bool {
    &&& analysis.component_of@.len() == grammar.nonterminals@.len()
    &&& component.members@.len() > 0
    &&& sorting::ascending(component.members@)
    &&& forall|a: u32| #[trigger]
        component.members@.contains(a) <==> a < grammar.nonterminals@.len()
            && analysis.component_of@[a as int] == component.id
}

/// Whether a right-hand side names the component at most once, and then at its end, or with `flip`
/// at its start.
pub open spec fn linear(analysis: &SccAnalysis, id: SccId, flip: bool, rhs: Seq<Symbol>) -> bool {
    forall|x: int|
        0 <= x < rhs.len() && inside(analysis, id, #[trigger] rhs[x]) ==> x == (if flip {
            0
        } else {
            rhs.len() - 1
        })
}

/// Whether no symbol is of the component.
pub open spec fn outside(analysis: &SccAnalysis, id: SccId, rhs: Seq<Symbol>) -> bool {
    forall|x: int| 0 <= x < rhs.len() ==> !inside(analysis, id, #[trigger] rhs[x])
}

/// Whether a production's right-hand side leads from its nonterminal to the `t`-th member, or if
/// there is none to the end, and derives `w[i..j]` beside it.
pub open spec fn leads(
    grammar: &Grammar,
    analysis: &SccAnalysis,
    component: &Scc,
    flip: bool,
    patterns: regular::PatternLex,
    w: Seq<u8>,
    rhs: Seq<Symbol>,
    t: int,
    i: int,
    j: int,
) -> bool {
    let count = component.members@.len();
    if t == count {
        outside(analysis, component.id, rhs) && symbols_yield(grammar, patterns, rhs, w, i, j)
    } else {
        0 <= t < count && rhs.len() > 0 && if flip {
            rhs[0] == Symbol::Nonterminal(component.members@[t]) && symbols_yield(
                grammar,
                patterns,
                rhs.skip(1),
                w,
                i,
                j,
            )
        } else {
            rhs.last() == Symbol::Nonterminal(component.members@[t]) && symbols_yield(
                grammar,
                patterns,
                rhs.drop_last(),
                w,
                i,
                j,
            )
        }
    }
}

/// Whether one of the first productions leads from the `s`-th member to the `t`-th, or to the end,
/// and derives `w[i..j]` beside it.
pub open spec fn linked(
    grammar: &Grammar,
    analysis: &SccAnalysis,
    component: &Scc,
    flip: bool,
    patterns: regular::PatternLex,
    w: Seq<u8>,
    limit: int,
    s: int,
    t: int,
    i: int,
    j: int,
) -> bool {
    0 <= s < component.members@.len() && exists|p: int|
        #![trigger grammar.productions@[p]]
        0 <= p < limit && grammar.productions@[p].lhs == component.members@[s] && leads(
            grammar,
            analysis,
            component,
            flip,
            patterns,
            w,
            grammar.productions@[p].rhs@,
            t,
            i,
            j,
        )
}

/// The edges between the members of a component.
pub open spec fn links(
    grammar: &Grammar,
    analysis: &SccAnalysis,
    component: &Scc,
    flip: bool,
    patterns: regular::PatternLex,
    w: Seq<u8>,
) -> kleene::Edges {
    |s: int, t: int, i: int, j: int|
        linked(
            grammar,
            analysis,
            component,
            flip,
            patterns,
            w,
            grammar.productions@.len() as int,
            s,
            t,
            i,
            j,
        )
}

proof fn lemma_links_bounded(
    grammar: &Grammar,
    analysis: &SccAnalysis,
    component: &Scc,
    flip: bool,
    patterns: regular::PatternLex,
    w: Seq<u8>,
)
    ensures
        kleene::edges_bounded(
            links(grammar, analysis, component, flip, patterns, w),
            w.len() as int,
        ),
{
    let edge = links(grammar, analysis, component, flip, patterns, w);
    assert forall|s: int, t: int, i: int, j: int| #[trigger] edge(s, t, i, j) implies 0 <= i <= j
        <= w.len() by {
        let p = choose|p: int|
            #![trigger grammar.productions@[p]]
            0 <= p < grammar.productions@.len() && grammar.productions@[p].lhs
                == component.members@[s] && leads(
                grammar,
                analysis,
                component,
                flip,
                patterns,
                w,
                grammar.productions@[p].rhs@,
                t,
                i,
                j,
            );
        let rhs = grammar.productions@[p].rhs@;
        let symbols = if t == component.members@.len() {
            rhs
        } else if flip {
            rhs.skip(1)
        } else {
            rhs.drop_last()
        };
        let rules = grammar.rules();
        let lex = grammar.lex(kinds(patterns));
        assert(symbols_yield(grammar, patterns, symbols, w, i, j));
        let n = choose|n: nat| derivation::derives_seq(rules, lex, n, symbols, w, i, j);
        derivation::lemma_derives_seq_bounds(rules, lex, n, symbols, w, i, j);
    }
}

/// A path to the end derives what its edges read.
proof fn lemma_path_yields(
    grammar: &Grammar,
    analysis: &SccAnalysis,
    component: &Scc,
    flip: bool,
    patterns: regular::PatternLex,
    w: Seq<u8>,
    n: nat,
    s: int,
    i: int,
    j: int,
)
    requires
        kleene::path(
            links(grammar, analysis, component, flip, patterns, w),
            flip,
            component.members@.len() as int,
            n,
            s,
            component.members@.len() as int,
            i,
            j,
        ),
    ensures
        0 <= s < component.members@.len(),
        symbol_yields(
            grammar,
            patterns,
            Symbol::Nonterminal(component.members@[s]),
            w,
            i,
            j,
        ),
    decreases n,
{
    let edge = links(grammar, analysis, component, flip, patterns, w);
    let count = component.members@.len() as int;
    let rules = grammar.rules();
    let lex = grammar.lex(kinds(patterns));
    if n == 1 {
        assert(edge(s, count, i, j));
        let p = choose|p: int|
            #![trigger grammar.productions@[p]]
            0 <= p < grammar.productions@.len() && grammar.productions@[p].lhs
                == component.members@[s] && leads(
                grammar,
                analysis,
                component,
                flip,
                patterns,
                w,
                grammar.productions@[p].rhs@,
                count,
                i,
                j,
            );
        assert(rules[p] == grammar::production_rule(grammar.productions@[p]));
        derivation::lemma_yields_rule(rules, lex, p, w, i, j);
    } else {
        let n1 = (n - 1) as nat;
        let (x, k) = choose|x: int, k: int| #[trigger]
            kleene::step_at(x, k) && 0 <= x < count && if flip {
                kleene::path(edge, flip, count, n1, x, count, i, k) && edge(s, x, k, j)
            } else {
                edge(s, x, i, k) && kleene::path(edge, flip, count, n1, x, count, k, j)
            };
        let (a, b) = if flip {
            (k, j)
        } else {
            (i, k)
        };
        assert(edge(s, x, a, b));
        let p = choose|p: int|
            #![trigger grammar.productions@[p]]
            0 <= p < grammar.productions@.len() && grammar.productions@[p].lhs
                == component.members@[s] && leads(
                grammar,
                analysis,
                component,
                flip,
                patterns,
                w,
                grammar.productions@[p].rhs@,
                x,
                a,
                b,
            );
        let rhs = grammar.productions@[p].rhs@;
        let target = Symbol::Nonterminal(component.members@[x]);
        assert(rules[p] == grammar::production_rule(grammar.productions@[p]));
        if flip {
            lemma_path_yields(grammar, analysis, component, flip, patterns, w, n1, x, i, k);
            derivation::lemma_yields_seq_cons(rules, lex, target, rhs.skip(1), w, i, k, j);
            assert(seq![target] + rhs.skip(1) =~= rhs);
        } else {
            lemma_path_yields(grammar, analysis, component, flip, patterns, w, n1, x, k, j);
            derivation::lemma_yields_seq_push(rules, lex, rhs.drop_last(), target, w, i, k, j);
            assert(rhs.drop_last().push(target) =~= rhs);
        }
        derivation::lemma_yields_rule(rules, lex, p, w, i, j);
    }
}

/// What a member derives is read by a path to the end.
proof fn lemma_derives_path(
    grammar: &Grammar,
    analysis: &SccAnalysis,
    component: &Scc,
    flip: bool,
    patterns: regular::PatternLex,
    w: Seq<u8>,
    n: nat,
    s: int,
    i: int,
    j: int,
)
    requires
        grammar.wf(),
        members_exact(grammar, analysis, component),
        0 <= s < component.members@.len(),
        forall|p: int|
            0 <= p < grammar.productions@.len() && component.members@.contains(
                (#[trigger] grammar.productions@[p]).lhs,
            ) ==> linear(analysis, component.id, flip, grammar.productions@[p].rhs@),
        derivation::derives(
            grammar.rules(),
            grammar.lex(kinds(patterns)),
            n,
            Symbol::Nonterminal(component.members@[s]),
            w,
            i,
            j,
        ),
    ensures
        kleene::connected(
            links(grammar, analysis, component, flip, patterns, w),
            flip,
            component.members@.len() as int,
            s,
            component.members@.len() as int,
            i,
            j,
        ),
    decreases n,
{
    let edge = links(grammar, analysis, component, flip, patterns, w);
    let count = component.members@.len() as int;
    let rules = grammar.rules();
    let lex = grammar.lex(kinds(patterns));
    let a = component.members@[s];
    let n1 = (n - 1) as nat;
    let p = choose|p: int|
        #![trigger rules[p]]
        0 <= p < rules.len() && rules[p].lhs == a && derivation::derives_seq(
            rules,
            lex,
            n1,
            rules[p].rhs,
            w,
            i,
            j,
        );
    assert(rules[p] == grammar::production_rule(grammar.productions@[p]));
    let rhs = grammar.productions@[p].rhs@;
    assert(component.members@.contains(grammar.productions@[p].lhs));
    if outside(analysis, component.id, rhs) {
        assert(symbols_yield(grammar, patterns, rhs, w, i, j));
        assert(leads(grammar, analysis, component, flip, patterns, w, rhs, count, i, j));
        assert(edge(s, count, i, j));
        assert(kleene::path(edge, flip, count, 1, s, count, i, j));
    } else {
        let x = choose|x: int|
            0 <= x < rhs.len() && inside(analysis, component.id, #[trigger] rhs[x]);
        let b = rhs[x]->Nonterminal_0;
        assert(residual::symbol_in(
            rhs[x],
            grammar.nonterminals@.len(),
            grammar.terminals@.len(),
        ));
        assert(component.members@.contains(b));
        let t = choose|t: int| 0 <= t < count && #[trigger] component.members@[t] == b;
        if flip {
            let k = derivation::lemma_derives_seq_first(rules, lex, n1, rhs, w, i, j);
            lemma_derives_path(grammar, analysis, component, flip, patterns, w, n1, t, i, k);
            assert(symbols_yield(grammar, patterns, rhs.skip(1), w, k, j));
            assert(leads(grammar, analysis, component, flip, patterns, w, rhs, t, k, j));
            assert(edge(s, t, k, j));
            kleene::lemma_connected_front(edge, flip, count, s, t, count, i, k, j);
        } else {
            let k = choose|k: int| #[trigger]
                derivation::at(k) && derivation::derives_seq(
                    rules,
                    lex,
                    n1,
                    rhs.drop_last(),
                    w,
                    i,
                    k,
                ) && derivation::derives(rules, lex, n1, rhs.last(), w, k, j);
            lemma_derives_path(grammar, analysis, component, flip, patterns, w, n1, t, k, j);
            assert(symbols_yield(grammar, patterns, rhs.drop_last(), w, i, k));
            assert(leads(grammar, analysis, component, flip, patterns, w, rhs, t, i, k));
            assert(edge(s, t, i, k));
            kleene::lemma_connected_front(edge, flip, count, s, t, count, i, k, j);
        }
    }
}

/// Whether an expression matches what the first productions read between two members.
#[verifier::opaque]
spec fn labelled(
    grammar: &Grammar,
    analysis: &SccAnalysis,
    component: &Scc,
    flip: bool,
    e: RegularExpression,
    limit: int,
    s: int,
    t: int,
) -> bool {
    forall|patterns: regular::PatternLex, w: Seq<u8>, i: int, j: int|
        regular::denotes(e, patterns, flip, w, i, j) == linked(
            grammar,
            analysis,
            component,
            flip,
            patterns,
            w,
            limit,
            s,
            t,
            i,
            j,
        )
}

/// Whether an expression matches what the paths between two members over the first ones read.
#[verifier::opaque]
spec fn walked(
    grammar: &Grammar,
    analysis: &SccAnalysis,
    component: &Scc,
    flip: bool,
    e: RegularExpression,
    pivot: int,
    s: int,
    t: int,
) -> bool {
    forall|patterns: regular::PatternLex, w: Seq<u8>, i: int, j: int|
        regular::denotes(e, patterns, flip, w, i, j) == kleene::connected(
            links(grammar, analysis, component, flip, patterns, w),
            flip,
            pivot,
            s,
            t,
            i,
            j,
        )
}

proof fn lemma_walked_use(
    grammar: &Grammar,
    analysis: &SccAnalysis,
    component: &Scc,
    flip: bool,
    e: RegularExpression,
    pivot: int,
    s: int,
    t: int,
    patterns: regular::PatternLex,
    w: Seq<u8>,
    i: int,
    j: int,
)
    requires
        walked(grammar, analysis, component, flip, e, pivot, s, t),
    ensures
        regular::denotes(e, patterns, flip, w, i, j) == kleene::connected(
            links(grammar, analysis, component, flip, patterns, w),
            flip,
            pivot,
            s,
            t,
            i,
            j,
        ),
{
    reveal(walked);
}

proof fn lemma_walked_alike(
    grammar: &Grammar,
    analysis: &SccAnalysis,
    component: &Scc,
    flip: bool,
    e: RegularExpression,
    copy: RegularExpression,
    pivot: int,
    s: int,
    t: int,
)
    requires
        walked(grammar, analysis, component, flip, e, pivot, s, t),
        regular::alike(e, copy),
    ensures
        walked(grammar, analysis, component, flip, copy, pivot, s, t),
{
    reveal(walked);
    assert forall|patterns: regular::PatternLex, w: Seq<u8>, i: int, j: int|
        regular::denotes(copy, patterns, flip, w, i, j) == kleene::connected(
            links(grammar, analysis, component, flip, patterns, w),
            flip,
            pivot,
            s,
            t,
            i,
            j,
        ) by {
        regular::lemma_alike_denotes(e, copy, patterns, flip, w, i, j);
    }
}

/// The paths over no member are the edges.
proof fn lemma_walked_start(
    grammar: &Grammar,
    analysis: &SccAnalysis,
    component: &Scc,
    flip: bool,
    e: RegularExpression,
    s: int,
    t: int,
)
    requires
        labelled(
            grammar,
            analysis,
            component,
            flip,
            e,
            grammar.productions@.len() as int,
            s,
            t,
        ),
    ensures
        walked(grammar, analysis, component, flip, e, 0, s, t),
{
    reveal(labelled);
    reveal(walked);
    assert forall|patterns: regular::PatternLex, w: Seq<u8>, i: int, j: int|
        regular::denotes(e, patterns, flip, w, i, j) == kleene::connected(
            links(grammar, analysis, component, flip, patterns, w),
            flip,
            0,
            s,
            t,
            i,
            j,
        ) by {
        kleene::lemma_direct(
            links(grammar, analysis, component, flip, patterns, w),
            flip,
            s,
            t,
            i,
            j,
        );
    }
}

/// Repetitions match what loops read.
proof fn lemma_power_loops(
    grammar: &Grammar,
    analysis: &SccAnalysis,
    component: &Scc,
    flip: bool,
    e: RegularExpression,
    pivot: int,
    n: nat,
    patterns: regular::PatternLex,
    w: Seq<u8>,
    i: int,
    j: int,
)
    requires
        walked(grammar, analysis, component, flip, e, pivot, pivot, pivot),
    ensures
        regular::denotes_power(e, patterns, flip, n, w, i, j) == kleene::loops(
            links(grammar, analysis, component, flip, patterns, w),
            flip,
            pivot,
            n,
            w.len() as int,
            i,
            j,
        ),
    decreases n,
{
    let edge = links(grammar, analysis, component, flip, patterns, w);
    let len = w.len() as int;
    if n > 0 {
        let n1 = (n - 1) as nat;
        if regular::denotes_power(e, patterns, flip, n, w, i, j) {
            let k = choose|k: int| #[trigger]
                derivation::at(k) && if flip {
                    regular::denotes_power(e, patterns, flip, n1, w, i, k) && regular::denotes(
                        e,
                        patterns,
                        flip,
                        w,
                        k,
                        j,
                    )
                } else {
                    regular::denotes(e, patterns, flip, w, i, k) && regular::denotes_power(
                        e,
                        patterns,
                        flip,
                        n1,
                        w,
                        k,
                        j,
                    )
                };
            lemma_power_loops(
                grammar, analysis, component, flip, e, pivot, n1, patterns, w, i, k,
            );
            lemma_power_loops(
                grammar, analysis, component, flip, e, pivot, n1, patterns, w, k, j,
            );
            lemma_walked_use(
                grammar, analysis, component, flip, e, pivot, pivot, pivot, patterns, w, i, k,
            );
            lemma_walked_use(
                grammar, analysis, component, flip, e, pivot, pivot, pivot, patterns, w, k, j,
            );
            assert(derivation::at(k));
        }
        if kleene::loops(edge, flip, pivot, n, len, i, j) {
            let k = choose|k: int| #[trigger]
                derivation::at(k) && if flip {
                    kleene::loops(edge, flip, pivot, n1, len, i, k) && kleene::connected(
                        edge,
                        flip,
                        pivot,
                        pivot,
                        pivot,
                        k,
                        j,
                    )
                } else {
                    kleene::connected(edge, flip, pivot, pivot, pivot, i, k) && kleene::loops(
                        edge,
                        flip,
                        pivot,
                        n1,
                        len,
                        k,
                        j,
                    )
                };
            lemma_power_loops(
                grammar, analysis, component, flip, e, pivot, n1, patterns, w, i, k,
            );
            lemma_power_loops(
                grammar, analysis, component, flip, e, pivot, n1, patterns, w, k, j,
            );
            lemma_walked_use(
                grammar, analysis, component, flip, e, pivot, pivot, pivot, patterns, w, i, k,
            );
            lemma_walked_use(
                grammar, analysis, component, flip, e, pivot, pivot, pivot, patterns, w, k, j,
            );
            assert(derivation::at(k));
        }
    }
}

/// Three expressions one after the other.
proof fn lemma_three(
    a: RegularExpression,
    b: RegularExpression,
    c: RegularExpression,
    patterns: regular::PatternLex,
    flip: bool,
    w: Seq<u8>,
    i: int,
    j: int,
)
    ensures
        regular::denotes_seq(seq![a, b, c], patterns, flip, w, i, j) <==> exists|k: int, m: int|
         #[trigger] kleene::step_at(k, m) && if flip {
            regular::denotes(c, patterns, flip, w, i, k) && regular::denotes(
                b,
                patterns,
                flip,
                w,
                k,
                m,
            ) && regular::denotes(a, patterns, flip, w, m, j)
        } else {
            regular::denotes(a, patterns, flip, w, i, k) && regular::denotes(
                b,
                patterns,
                flip,
                w,
                k,
                m,
            ) && regular::denotes(c, patterns, flip, w, m, j)
        },
{
    let abc = seq![a, b, c];
    let ab = seq![a, b];
    let one = seq![a];
    assert(abc.drop_last() =~= ab);
    assert(ab.drop_last() =~= one);
    assert(abc.last() == c && ab.last() == b);
    if regular::denotes_seq(abc, patterns, flip, w, i, j) {
        let k = choose|k: int| #[trigger]
            derivation::at(k) && if flip {
                regular::denotes(c, patterns, flip, w, i, k) && regular::denotes_seq(
                    ab,
                    patterns,
                    flip,
                    w,
                    k,
                    j,
                )
            } else {
                regular::denotes_seq(ab, patterns, flip, w, i, k) && regular::denotes(
                    c,
                    patterns,
                    flip,
                    w,
                    k,
                    j,
                )
            };
        let (x, y) = if flip {
            (k, j)
        } else {
            (i, k)
        };
        let m = choose|m: int| #[trigger]
            derivation::at(m) && if flip {
                regular::denotes(b, patterns, flip, w, x, m) && regular::denotes_seq(
                    one,
                    patterns,
                    flip,
                    w,
                    m,
                    y,
                )
            } else {
                regular::denotes_seq(one, patterns, flip, w, x, m) && regular::denotes(
                    b,
                    patterns,
                    flip,
                    w,
                    m,
                    y,
                )
            };
        regular::lemma_seq_one(a, patterns, flip, w, m, y);
        regular::lemma_seq_one(a, patterns, flip, w, x, m);
        if flip {
            assert(kleene::step_at(k, m));
        } else {
            assert(kleene::step_at(m, k));
        }
    }
    if exists|k: int, m: int| #[trigger]
        kleene::step_at(k, m) && if flip {
            regular::denotes(c, patterns, flip, w, i, k) && regular::denotes(
                b,
                patterns,
                flip,
                w,
                k,
                m,
            ) && regular::denotes(a, patterns, flip, w, m, j)
        } else {
            regular::denotes(a, patterns, flip, w, i, k) && regular::denotes(
                b,
                patterns,
                flip,
                w,
                k,
                m,
            ) && regular::denotes(c, patterns, flip, w, m, j)
        } {
        let (k, m) = choose|k: int, m: int| #[trigger]
            kleene::step_at(k, m) && if flip {
                regular::denotes(c, patterns, flip, w, i, k) && regular::denotes(
                    b,
                    patterns,
                    flip,
                    w,
                    k,
                    m,
                ) && regular::denotes(a, patterns, flip, w, m, j)
            } else {
                regular::denotes(a, patterns, flip, w, i, k) && regular::denotes(
                    b,
                    patterns,
                    flip,
                    w,
                    k,
                    m,
                ) && regular::denotes(c, patterns, flip, w, m, j)
            };
        if flip {
            regular::lemma_seq_one(a, patterns, flip, w, m, j);
            assert(derivation::at(m));
            assert(regular::denotes_seq(ab, patterns, flip, w, k, j));
            assert(derivation::at(k));
        } else {
            regular::lemma_seq_one(a, patterns, flip, w, i, k);
            assert(derivation::at(k));
            assert(regular::denotes_seq(ab, patterns, flip, w, i, m));
            assert(derivation::at(m));
        }
    }
}

/// A path to a member, loops there, and a path on from it match what the paths through it read.
proof fn lemma_three_through(
    grammar: &Grammar,
    analysis: &SccAnalysis,
    component: &Scc,
    flip: bool,
    incoming: RegularExpression,
    base: RegularExpression,
    repeated: RegularExpression,
    outgoing: RegularExpression,
    pivot: int,
    s: int,
    t: int,
    patterns: regular::PatternLex,
    w: Seq<u8>,
    i: int,
    j: int,
)
    requires
        walked(grammar, analysis, component, flip, incoming, pivot, s, pivot),
        walked(grammar, analysis, component, flip, base, pivot, pivot, pivot),
        walked(grammar, analysis, component, flip, outgoing, pivot, pivot, t),
        forall|x: int, y: int|
            #[trigger] regular::denotes(repeated, patterns, flip, w, x, y) == regular::denotes_star(
                base,
                patterns,
                flip,
                w,
                x,
                y,
            ),
    ensures
        regular::denotes_seq(
            seq![incoming, repeated, outgoing],
            patterns,
            flip,
            w,
            i,
            j,
        ) == kleene::through(
            links(grammar, analysis, component, flip, patterns, w),
            flip,
            pivot,
            w.len() as int,
            s,
            t,
            i,
            j,
        ),
{
    let edge = links(grammar, analysis, component, flip, patterns, w);
    let len = w.len() as int;
    lemma_three(incoming, repeated, outgoing, patterns, flip, w, i, j);
    assert forall|x: int, y: int|
        regular::denotes(incoming, patterns, flip, w, x, y) == #[trigger] kleene::connected(
            edge,
            flip,
            pivot,
            s,
            pivot,
            x,
            y,
        ) by {
        lemma_walked_use(
            grammar, analysis, component, flip, incoming, pivot, s, pivot, patterns, w, x, y,
        );
    }
    assert forall|x: int, y: int|
        #[trigger] regular::denotes(outgoing, patterns, flip, w, x, y) == kleene::connected(
            edge,
            flip,
            pivot,
            pivot,
            t,
            x,
            y,
        ) by {
        lemma_walked_use(
            grammar, analysis, component, flip, outgoing, pivot, pivot, t, patterns, w, x, y,
        );
    }
    if regular::denotes_seq(seq![incoming, repeated, outgoing], patterns, flip, w, i, j) {
        let (k, m) = choose|k: int, m: int| #[trigger]
            kleene::step_at(k, m) && if flip {
                regular::denotes(outgoing, patterns, flip, w, i, k) && regular::denotes(
                    repeated,
                    patterns,
                    flip,
                    w,
                    k,
                    m,
                ) && regular::denotes(incoming, patterns, flip, w, m, j)
            } else {
                regular::denotes(incoming, patterns, flip, w, i, k) && regular::denotes(
                    repeated,
                    patterns,
                    flip,
                    w,
                    k,
                    m,
                ) && regular::denotes(outgoing, patterns, flip, w, m, j)
            };
        assert(regular::denotes_star(base, patterns, flip, w, k, m));
        let n = choose|n: nat| #[trigger]
            regular::repeated(n) && regular::denotes_power(base, patterns, flip, n, w, k, m);
        lemma_power_loops(
            grammar, analysis, component, flip, base, pivot, n, patterns, w, k, m,
        );
        lemma_walked_use(
            grammar, analysis, component, flip, incoming, pivot, s, pivot, patterns, w, i, k,
        );
        lemma_walked_use(
            grammar, analysis, component, flip, incoming, pivot, s, pivot, patterns, w, m, j,
        );
        assert(kleene::turn(n, k, m));
    }
    if kleene::through(edge, flip, pivot, len, s, t, i, j) {
        let (n, k, m) = choose|n: nat, k: int, m: int| #[trigger]
            kleene::turn(n, k, m) && if flip {
                kleene::connected(edge, flip, pivot, pivot, t, i, k) && kleene::loops(
                    edge,
                    flip,
                    pivot,
                    n,
                    len,
                    k,
                    m,
                ) && kleene::connected(edge, flip, pivot, s, pivot, m, j)
            } else {
                kleene::connected(edge, flip, pivot, s, pivot, i, k) && kleene::loops(
                    edge,
                    flip,
                    pivot,
                    n,
                    len,
                    k,
                    m,
                ) && kleene::connected(edge, flip, pivot, pivot, t, m, j)
            };
        lemma_power_loops(
            grammar, analysis, component, flip, base, pivot, n, patterns, w, k, m,
        );
        assert(regular::repeated(n));
        assert(regular::denotes_star(base, patterns, flip, w, k, m));
        assert(regular::denotes(repeated, patterns, flip, w, k, m));
        lemma_walked_use(
            grammar, analysis, component, flip, outgoing, pivot, pivot, t, patterns, w, i, k,
        );
        lemma_walked_use(
            grammar, analysis, component, flip, outgoing, pivot, pivot, t, patterns, w, m, j,
        );
        assert(kleene::step_at(k, m));
    }
}

/// One more production adds what it reads.
proof fn lemma_labelled_step(
    grammar: &Grammar,
    analysis: &SccAnalysis,
    component: &Scc,
    flip: bool,
    before: RegularExpression,
    after: RegularExpression,
    index: int,
    s: int,
    t: int,
)
    requires
        0 <= index < grammar.productions@.len(),
        0 <= s < component.members@.len(),
        labelled(grammar, analysis, component, flip, before, index, s, t),
        forall|patterns: regular::PatternLex, w: Seq<u8>, i: int, j: int|
            #[trigger] regular::denotes(after, patterns, flip, w, i, j) == (regular::denotes(
                before,
                patterns,
                flip,
                w,
                i,
                j,
            ) || (grammar.productions@[index].lhs == component.members@[s] && leads(
                grammar,
                analysis,
                component,
                flip,
                patterns,
                w,
                grammar.productions@[index].rhs@,
                t,
                i,
                j,
            ))),
    ensures
        labelled(grammar, analysis, component, flip, after, index + 1, s, t),
{
    reveal(labelled);
    assert forall|patterns: regular::PatternLex, w: Seq<u8>, i: int, j: int|
        regular::denotes(after, patterns, flip, w, i, j) == linked(
            grammar,
            analysis,
            component,
            flip,
            patterns,
            w,
            index + 1,
            s,
            t,
            i,
            j,
        ) by {
        assert(regular::denotes(before, patterns, flip, w, i, j) == linked(
            grammar,
            analysis,
            component,
            flip,
            patterns,
            w,
            index,
            s,
            t,
            i,
            j,
        ));
        if linked(
            grammar,
            analysis,
            component,
            flip,
            patterns,
            w,
            index + 1,
            s,
            t,
            i,
            j,
        ) {
            let p = choose|p: int|
                #![trigger grammar.productions@[p]]
                0 <= p < index + 1 && grammar.productions@[p].lhs == component.members@[s]
                    && leads(
                    grammar,
                    analysis,
                    component,
                    flip,
                    patterns,
                    w,
                    grammar.productions@[p].rhs@,
                    t,
                    i,
                    j,
                );
            if p < index {
                assert(grammar.productions@[p].lhs == component.members@[s]);
            }
        }
    }
}

/// The place of a member in its component.
fn member_place(members: &Vec<NonterminalId>, member: NonterminalId) -> (place: usize)
    requires
        members@.contains(member),
    ensures
        place < members@.len(),
        members@[place as int] == member,
{
    let count: usize = members.len();
    let mut place: usize = 0;
    while members[place] != member
        invariant
            place < count == members@.len(),
            members@.contains(member),
            forall|x: int| 0 <= x < place ==> members@[x] != member,
        decreases members@.len() - place,
    {
        proof {
            let x = choose|x: int| 0 <= x < members@.len() && members@[x] == member;
            assert(x >= place);
            assert(x != place);
        }
        place += 1;
    }
    place
}

/// The position of the first symbol of the component, if there is one.
fn recursive_position(analysis: &SccAnalysis, id: SccId, rhs: &Vec<Symbol>) -> (position: Option<
    usize,
>)
    requires
        residual::symbols_in(rhs@, analysis.component_of@.len(), usize::MAX as nat + 1),
    ensures
        match position {
            Some(x) => x < rhs@.len() && inside(analysis, id, rhs@[x as int]) && outside(
                analysis,
                id,
                rhs@.take(x as int),
            ),
            None => outside(analysis, id, rhs@),
        },
{
    let mut index: usize = 0;
    while index < rhs.len()
        invariant
            index <= rhs@.len(),
            residual::symbols_in(rhs@, analysis.component_of@.len(), usize::MAX as nat + 1),
            forall|x: int| 0 <= x < index ==> !inside(analysis, id, #[trigger] rhs@[x]),
        decreases rhs@.len() - index,
    {
        match rhs[index] {
            Symbol::Nonterminal(target) => {
                assert(residual::symbol_in(
                    rhs@[index as int],
                    analysis.component_of@.len(),
                    usize::MAX as nat + 1,
                ));
                if analysis.component_of[target as usize] == id {
                    return Some(index);
                }
            },
            Symbol::Terminal(_) => {},
        }
        index += 1;
    }
    None
}

/// Whether the productions of a component name it in the way that `flip` says, and every other
/// symbol of theirs has an expression.
pub open spec fn solvable(
    grammar: &Grammar,
    analysis: &SccAnalysis,
    component: &Scc,
    expressions: Seq<Option<RegularExpression>>,
    flip: bool,
) -> bool {
    &&& grammar.wf()
    &&& members_exact(grammar, analysis, component)
    &&& expressions_exact(grammar, expressions)
    &&& forall|p: int|
        0 <= p < grammar.productions@.len() && component.members@.contains(
            (#[trigger] grammar.productions@[p]).lhs,
        ) ==> linear(analysis, component.id, flip, grammar.productions@[p].rhs@)
    &&& usable_beside(grammar, analysis, component, expressions, false)
}

/// Whether every symbol of a component's productions that is not of the component has an
/// expression.
pub open spec fn usable_beside(
    grammar: &Grammar,
    analysis: &SccAnalysis,
    component: &Scc,
    expressions: Seq<Option<RegularExpression>>,
    reversed: bool,
) -> bool {
    forall|p: int|
        0 <= p < grammar.productions@.len() && component.members@.contains(
            (#[trigger] grammar.productions@[p]).lhs,
        ) ==> rhs_usable(
            grammar,
            analysis,
            component.id,
            expressions,
            reversed,
            grammar.productions@[p].rhs@,
        )
}

/// Whether every symbol that is not of the component has an expression.
pub open spec fn rhs_usable(
    grammar: &Grammar,
    analysis: &SccAnalysis,
    id: SccId,
    expressions: Seq<Option<RegularExpression>>,
    reversed: bool,
    rhs: Seq<Symbol>,
) -> bool {
    forall|x: int|
        0 <= x < rhs.len() && !inside(analysis, id, #[trigger] rhs[x]) ==> usable(
            grammar,
            expressions,
            reversed,
            rhs[x],
        )
}

/// The expressions of what the productions of the `source`-th member read to each member, and to
/// the end.
fn label_row(
    grammar: &Grammar,
    patterns: &Vec<String>,
    analysis: &SccAnalysis,
    component: &Scc,
    expressions: &Vec<Option<RegularExpression>>,
    reversed: bool,
    source: usize,
) -> (result: Result<Vec<RegularExpression>, CertificateFailureReason>)
    requires
        patterns_exact(grammar, patterns@),
        solvable(grammar, analysis, component, expressions@, reversed),
        source < component.members@.len(),
    ensures
        usable_beside(grammar, analysis, component, expressions@, reversed) ==> result is Ok,
        match result {
            Ok(row) => row@.len() == component.members@.len() + 1 && (forall|t: int|
                0 <= t < row@.len() ==> labelled(
                    grammar,
                    analysis,
                    component,
                    reversed,
                    #[trigger] row@[t],
                    grammar.productions@.len() as int,
                    source as int,
                    t,
                )) && (reversed ==> regular::all_reversible(row@)) && (clean(grammar)
                ==> regular::all_plain(row@)) && forall|p: int|
                0 <= p < grammar.productions@.len() && (#[trigger] grammar.productions@[p]).lhs
                    == component.members@[source as int] ==> rhs_usable(
                    grammar,
                    analysis,
                    component.id,
                    expressions@,
                    reversed,
                    grammar.productions@[p].rhs@,
                ),
            Err(reason) => reason == CertificateFailureReason::UnsupportedRegularOperation,
        },
{
    let count: usize = component.members.len();
    let member = component.members[source];
    assert(component.members@.contains(member));
    let mut row: Vec<RegularExpression> = Vec::new();
    while row.len() <= count
        invariant
            row@.len() <= count + 1,
            count == component.members@.len(),
            source < count,
            forall|t: int|
                0 <= t < row@.len() ==> labelled(
                    grammar,
                    analysis,
                    component,
                    reversed,
                    #[trigger] row@[t],
                    0,
                    source as int,
                    t,
                ),
            regular::all_reversible(row@),
            regular::all_plain(row@),
        decreases count + 1 - row@.len(),
    {
        proof {
            reveal(labelled);
        }
        row.push(RegularExpression::Empty);
    }
    let mut index: usize = 0;
    while index < grammar.productions.len()
        invariant
            patterns_exact(grammar, patterns@),
            solvable(grammar, analysis, component, expressions@, reversed),
            source < component.members@.len(),
            count == component.members@.len(),
            member == component.members@[source as int],
            component.members@.contains(member),
            index <= grammar.productions@.len(),
            row@.len() == count + 1,
            forall|t: int|
                0 <= t < row@.len() ==> labelled(
                    grammar,
                    analysis,
                    component,
                    reversed,
                    #[trigger] row@[t],
                    index as int,
                    source as int,
                    t,
                ),
            reversed ==> regular::all_reversible(row@),
            clean(grammar) ==> regular::all_plain(row@),
            forall|p: int|
                0 <= p < index && (#[trigger] grammar.productions@[p]).lhs == member ==> rhs_usable(
                    grammar,
                    analysis,
                    component.id,
                    expressions@,
                    reversed,
                    grammar.productions@[p].rhs@,
                ),
        decreases grammar.productions@.len() - index,
    {
        let ghost before = row@;
        let production = &grammar.productions[index];
        let ghost rhs = production.rhs@;
        assert(grammar.productions@[index as int].rhs@ == rhs);
        let ghost mut hit: int = count + 1;
        if production.lhs == member {
            assert(linear(analysis, component.id, reversed, rhs));
            assert(rhs_usable(grammar, analysis, component.id, expressions@, false, rhs));
            assert(residual::symbols_in(
                rhs,
                analysis.component_of@.len(),
                usize::MAX as nat + 1,
            )) by {
                assert forall|x: int| 0 <= x < rhs.len() implies residual::symbol_in(
                    #[trigger] rhs[x],
                    analysis.component_of@.len(),
                    usize::MAX as nat + 1,
                ) by {
                    assert(residual::symbol_in(
                        rhs[x],
                        grammar.nonterminals@.len(),
                        grammar.terminals@.len(),
                    ));
                }
            }
            let recursive = recursive_position(analysis, component.id, &production.rhs);
            let mut from: usize = 0;
            let mut to: usize = production.rhs.len();
            let mut target: usize = count;
            match recursive {
                Some(position) => {
                    assert(inside(analysis, component.id, rhs[position as int]));
                    match production.rhs[position] {
                        Symbol::Nonterminal(inner) => {
                            assert(residual::symbol_in(
                                rhs[position as int],
                                grammar.nonterminals@.len(),
                                grammar.terminals@.len(),
                            ));
                            assert(component.members@.contains(inner));
                            target = member_place(&component.members, inner);
                        },
                        Symbol::Terminal(_) => {},
                    }
                    if reversed {
                        from = position + 1;
                    } else {
                        to = position;
                    }
                },
                None => {},
            }
            proof {
                assert forall|x: int| from <= x < to implies !inside(
                    analysis,
                    component.id,
                    #[trigger] rhs[x],
                ) && usable(grammar, expressions@, false, rhs[x]) by {
                    if recursive is Some {
                        let position = recursive->0 as int;
                        assert(position == (if reversed {
                            0
                        } else {
                            rhs.len() - 1
                        }));
                    }
                }
            }
            let label = match rhs_expression(
                grammar,
                patterns,
                analysis,
                component,
                &production.rhs,
                from,
                to,
                expressions,
                reversed,
            ) {
                Ok(label) => label,
                Err(reason) => {
                    proof {
                        if usable_beside(grammar, analysis, component, expressions@, reversed) {
                            assert(rhs_usable(
                                grammar,
                                analysis,
                                component.id,
                                expressions@,
                                reversed,
                                rhs,
                            ));
                            assert(forall|x: int|
                                from <= x < to ==> usable(
                                    grammar,
                                    expressions@,
                                    reversed,
                                    #[trigger] rhs[x],
                                ));
                        }
                    }
                    return Err(reason);
                },
            };
            let ghost atoms = rhs.subrange(from as int, to as int);
            let ghost text = label;
            let copy = row[target].clone();
            proof {
                if reversed {
                    assert(regular::reversible(before[target as int]));
                    regular::lemma_alike_reversible(before[target as int], copy);
                }
                if clean(grammar) {
                    assert(regular::plain(before[target as int]));
                    regular::lemma_alike_plain(before[target as int], copy);
                }
            }
            let ghost old_copy = copy;
            let joined = regular::union(vec![copy, label]);
            row[target] = joined;
            proof {
                hit = target as int;
                let pair = seq![old_copy, text];
                assert forall|patterns: regular::PatternLex, w: Seq<u8>, i: int, j: int|
                    #[trigger] regular::denotes(joined, patterns, reversed, w, i, j) == (
                    regular::denotes(before[target as int], patterns, reversed, w, i, j) || (
                    grammar.productions@[index as int].lhs == component.members@[source as int]
                        && leads(
                        grammar,
                        analysis,
                        component,
                        reversed,
                        patterns,
                        w,
                        rhs,
                        target as int,
                        i,
                        j,
                    ))) by {
                    regular::lemma_alike_denotes(
                        before[target as int],
                        old_copy,
                        patterns,
                        reversed,
                        w,
                        i,
                        j,
                    );
                    assert(regular::denotes_any(pair, patterns, reversed, w, i, j) == (
                    regular::denotes(old_copy, patterns, reversed, w, i, j) || regular::denotes(
                        text,
                        patterns,
                        reversed,
                        w,
                        i,
                        j,
                    ))) by {
                        assert(pair[0] == old_copy && pair[1] == text);
                    }
                    assert(regular::denotes(text, patterns, reversed, w, i, j) == symbols_yield(
                        grammar,
                        patterns,
                        atoms,
                        w,
                        i,
                        j,
                    )) by {
                        reveal(expresses_seq);
                    }
                    if recursive is Some {
                        if reversed {
                            assert(atoms =~= rhs.skip(1));
                        } else {
                            assert(atoms =~= rhs.drop_last());
                        }
                    } else {
                        assert(atoms =~= rhs);
                    }
                }
                lemma_labelled_step(
                    grammar,
                    analysis,
                    component,
                    reversed,
                    before[target as int],
                    joined,
                    index as int,
                    source as int,
                    target as int,
                );
                if reversed {
                    assert(regular::all_reversible(pair));
                }
                if clean(grammar) {
                    assert(regular::all_plain(pair));
                }
                assert(rhs_usable(
                    grammar,
                    analysis,
                    component.id,
                    expressions@,
                    reversed,
                    rhs,
                )) by {
                    assert forall|x: int|
                        0 <= x < rhs.len() && !inside(
                            analysis,
                            component.id,
                            #[trigger] rhs[x],
                        ) implies usable(grammar, expressions@, reversed, rhs[x]) by {
                        assert(from <= x < to);
                    }
                }
                assert forall|t: int, patterns: regular::PatternLex, w: Seq<u8>, i: int, j: int|
                    t != target implies !#[trigger] leads(
                    grammar,
                    analysis,
                    component,
                    reversed,
                    patterns,
                    w,
                    rhs,
                    t,
                    i,
                    j,
                ) by {
                    if 0 <= t < count && rhs.len() > 0 {
                        assert(component.members@.contains(component.members@[t]));
                    }
                }
            }
        }
        proof {
            assert forall|t: int| 0 <= t < row@.len() implies labelled(
                grammar,
                analysis,
                component,
                reversed,
                #[trigger] row@[t],
                index + 1,
                source as int,
                t,
            ) by {
                if t != hit {
                    assert(row@[t] == before[t]);
                    lemma_labelled_step(
                        grammar,
                        analysis,
                        component,
                        reversed,
                        before[t],
                        before[t],
                        index as int,
                        source as int,
                        t,
                    );
                }
            }
        }
        index += 1;
    }
    Ok(row)
}

/// Whether every entry of a table matches what the paths over the first members read.
spec fn table_walked(
    grammar: &Grammar,
    analysis: &SccAnalysis,
    component: &Scc,
    flip: bool,
    table: Seq<Vec<RegularExpression>>,
    pivot: int,
) -> bool {
    let count = component.members@.len();
    &&& table.len() == count + 1
    &&& forall|s: int| 0 <= s <= count ==> row_walked(
        grammar,
        analysis,
        component,
        flip,
        #[trigger] table[s]@,
        pivot,
        s,
    )
}

spec fn row_walked(
    grammar: &Grammar,
    analysis: &SccAnalysis,
    component: &Scc,
    flip: bool,
    row: Seq<RegularExpression>,
    pivot: int,
    s: int,
) -> bool {
    &&& row.len() == component.members@.len() + 1
    &&& forall|t: int|
        0 <= t < row.len() ==> walked(
            grammar,
            analysis,
            component,
            flip,
            #[trigger] row[t],
            pivot,
            s,
            t,
        )
    &&& flip ==> regular::all_reversible(row)
    &&& clean(grammar) ==> regular::all_plain(row)
}

/// Lets the paths go through one more member.
proof fn lemma_walked_step(
    grammar: &Grammar,
    analysis: &SccAnalysis,
    component: &Scc,
    flip: bool,
    incoming: RegularExpression,
    base: RegularExpression,
    outgoing: RegularExpression,
    before: RegularExpression,
    after: RegularExpression,
    pivot: int,
    s: int,
    t: int,
)
    requires
        0 <= pivot,
        walked(grammar, analysis, component, flip, incoming, pivot, s, pivot),
        walked(grammar, analysis, component, flip, base, pivot, pivot, pivot),
        walked(grammar, analysis, component, flip, outgoing, pivot, pivot, t),
        walked(grammar, analysis, component, flip, before, pivot, s, t),
        adds_path(flip, incoming, base, outgoing, before, after),
    ensures
        walked(grammar, analysis, component, flip, after, pivot + 1, s, t),
{
    reveal(adds_path);
    assert forall|patterns: regular::PatternLex, w: Seq<u8>, i: int, j: int|
        regular::denotes(after, patterns, flip, w, i, j) == kleene::connected(
            links(grammar, analysis, component, flip, patterns, w),
            flip,
            pivot + 1,
            s,
            t,
            i,
            j,
        ) by {
        let edge = links(grammar, analysis, component, flip, patterns, w);
        lemma_links_bounded(grammar, analysis, component, flip, patterns, w);
        kleene::lemma_eliminate(edge, flip, pivot, w.len() as int, s, t, i, j);
        lemma_walked_use(
            grammar, analysis, component, flip, before, pivot, s, t, patterns, w, i, j,
        );
        let repeated = choose|repeated: RegularExpression| #[trigger]
            repeats(repeated, base) && regular::denotes(after, patterns, flip, w, i, j) == (
            regular::denotes(before, patterns, flip, w, i, j) || regular::denotes_seq(
                seq![incoming, repeated, outgoing],
                patterns,
                flip,
                w,
                i,
                j,
            ));
        assert forall|x: int, y: int|
            #[trigger] regular::denotes(repeated, patterns, flip, w, x, y)
                == regular::denotes_star(base, patterns, flip, w, x, y) by {
            reveal(repeats);
        }
        lemma_three_through(
            grammar, analysis, component, flip, incoming, base, repeated, outgoing, pivot, s, t,
            patterns, w, i, j,
        );
    }
    reveal(walked);
}

/// Whether an expression matches the repetitions of another.
#[verifier::opaque]
spec fn repeats(repeated: RegularExpression, base: RegularExpression) -> bool {
    forall|patterns: regular::PatternLex, flip: bool, w: Seq<u8>, i: int, j: int| #[trigger]
        regular::denotes(repeated, patterns, flip, w, i, j) == regular::denotes_star(
            base,
            patterns,
            flip,
            w,
            i,
            j,
        )
}

/// Whether an expression matches what another does, and a way in, repetitions and a way out.
#[verifier::opaque]
spec fn adds_path(
    flip: bool,
    incoming: RegularExpression,
    base: RegularExpression,
    outgoing: RegularExpression,
    before: RegularExpression,
    after: RegularExpression,
) -> bool {
    exists|repeated: RegularExpression| #[trigger]
        repeats(repeated, base) && forall|
            patterns: regular::PatternLex,
            w: Seq<u8>,
            i: int,
            j: int,
        | #[trigger]
            regular::denotes(after, patterns, flip, w, i, j) == (regular::denotes(
                before,
                patterns,
                flip,
                w,
                i,
                j,
            ) || regular::denotes_seq(
                seq![incoming, repeated, outgoing],
                patterns,
                flip,
                w,
                i,
                j,
            ))
}

/// What an expression matches together with a way in, repetitions and a way out.
fn add_path(
    incoming: &RegularExpression,
    repeated: &RegularExpression,
    outgoing: &RegularExpression,
    before: &RegularExpression,
    flip: bool,
    Ghost(base): Ghost<RegularExpression>,
) -> (after: RegularExpression)
    requires
        repeats(*repeated, base),
    ensures
        adds_path(flip, *incoming, base, *outgoing, *before, after),
        regular::reversible(*incoming) && regular::reversible(*repeated) && regular::reversible(
            *outgoing,
        ) && regular::reversible(*before) ==> regular::reversible(after),
        regular::plain(*incoming) && regular::plain(*repeated) && regular::plain(*outgoing)
            && regular::plain(*before) ==> regular::plain(after),
{
    let blocked = match (incoming, outgoing) {
        (RegularExpression::Empty, _) => true,
        (_, RegularExpression::Empty) => true,
        _ => false,
    };
    let copy = before.clone();
    let ghost three = seq![*incoming, *repeated, *outgoing];
    if blocked {
        assert(adds_path(flip, *incoming, base, *outgoing, *before, copy)) by {
            reveal(adds_path);
            assert forall|patterns: regular::PatternLex, w: Seq<u8>, i: int, j: int| #[trigger]
                regular::denotes(copy, patterns, flip, w, i, j) == (regular::denotes(
                    *before,
                    patterns,
                    flip,
                    w,
                    i,
                    j,
                ) || regular::denotes_seq(three, patterns, flip, w, i, j)) by {
                regular::lemma_alike_denotes(*before, copy, patterns, flip, w, i, j);
                lemma_three(*incoming, *repeated, *outgoing, patterns, flip, w, i, j);
            }
        }
        proof {
            if regular::reversible(*before) {
                regular::lemma_alike_reversible(*before, copy);
            }
            if regular::plain(*before) {
                regular::lemma_alike_plain(*before, copy);
            }
        }
        return copy;
    }
    let first = incoming.clone();
    let second = repeated.clone();
    let third = outgoing.clone();
    let ghost parts = seq![first, second, third];
    let path = regular::concat(vec![first, second, third]);
    let ghost pair = seq![copy, path];
    let after = regular::union(vec![copy, path]);
    proof {
        if regular::reversible(*incoming) && regular::reversible(*repeated)
            && regular::reversible(*outgoing) && regular::reversible(*before) {
            regular::lemma_alike_reversible(*before, pair[0]);
            regular::lemma_alike_reversible(*incoming, parts[0]);
            regular::lemma_alike_reversible(*repeated, parts[1]);
            regular::lemma_alike_reversible(*outgoing, parts[2]);
            assert(regular::all_reversible(parts));
            assert(regular::all_reversible(pair));
        }
        if regular::plain(*incoming) && regular::plain(*repeated) && regular::plain(*outgoing)
            && regular::plain(*before) {
            regular::lemma_alike_plain(*before, pair[0]);
            regular::lemma_alike_plain(*incoming, parts[0]);
            regular::lemma_alike_plain(*repeated, parts[1]);
            regular::lemma_alike_plain(*outgoing, parts[2]);
            assert(regular::all_plain(parts));
            assert(regular::all_plain(pair));
        }
        reveal(adds_path);
        assert forall|patterns: regular::PatternLex, w: Seq<u8>, i: int, j: int| #[trigger]
            regular::denotes(after, patterns, flip, w, i, j) == (regular::denotes(
                *before,
                patterns,
                flip,
                w,
                i,
                j,
            ) || regular::denotes_seq(three, patterns, flip, w, i, j)) by {
            regular::lemma_alike_denotes(*before, pair[0], patterns, flip, w, i, j);
            assert(regular::denotes_any(pair, patterns, flip, w, i, j) == (regular::denotes(
                pair[0],
                patterns,
                flip,
                w,
                i,
                j,
            ) || regular::denotes(pair[1], patterns, flip, w, i, j)));
            lemma_three(*incoming, *repeated, *outgoing, patterns, flip, w, i, j);
            lemma_three(parts[0], parts[1], parts[2], patterns, flip, w, i, j);
            assert(seq![parts[0], parts[1], parts[2]] =~= parts);
            assert forall|x: int, y: int|
                #[trigger] regular::denotes(parts[0], patterns, flip, w, x, y)
                    == regular::denotes(*incoming, patterns, flip, w, x, y) by {
                regular::lemma_alike_denotes(*incoming, parts[0], patterns, flip, w, x, y);
            }
            assert forall|x: int, y: int|
                #[trigger] regular::denotes(parts[1], patterns, flip, w, x, y)
                    == regular::denotes(*repeated, patterns, flip, w, x, y) by {
                regular::lemma_alike_denotes(*repeated, parts[1], patterns, flip, w, x, y);
            }
            assert forall|x: int, y: int|
                #[trigger] regular::denotes(parts[2], patterns, flip, w, x, y)
                    == regular::denotes(*outgoing, patterns, flip, w, x, y) by {
                regular::lemma_alike_denotes(*outgoing, parts[2], patterns, flip, w, x, y);
            }
        }
    }
    after
}

/// The expressions of a component's members, by letting the paths between them go through one
/// member after the other.
fn solve_linear_component(
    grammar: &Grammar,
    patterns: &Vec<String>,
    analysis: &SccAnalysis,
    component: &Scc,
    expressions: &Vec<Option<RegularExpression>>,
    reversed: bool,
) -> (result: Result<Vec<RegularExpression>, CertificateFailureReason>)
    requires
        patterns_exact(grammar, patterns@),
        solvable(grammar, analysis, component, expressions@, reversed),
    ensures
        result is Ok <==> usable_beside(grammar, analysis, component, expressions@, reversed),
        match result {
            Ok(solved) => solved@.len() == component.members@.len() && (forall|s: int|
                0 <= s < solved@.len() ==> expresses(
                    grammar,
                    reversed,
                    #[trigger] solved@[s],
                    Symbol::Nonterminal(component.members@[s]),
                )) && (reversed ==> regular::all_reversible(solved@)) && (clean(grammar)
                ==> regular::all_plain(solved@)),
            Err(reason) => reason == CertificateFailureReason::UnsupportedRegularOperation,
        },
{
    let count: usize = component.members.len();
    let mut table: Vec<Vec<RegularExpression>> = Vec::new();
    while table.len() < count
        invariant
            patterns_exact(grammar, patterns@),
            count == component.members@.len(),
            solvable(grammar, analysis, component, expressions@, reversed),
            table@.len() <= count,
            forall|s: int|
                0 <= s < table@.len() ==> row_walked(
                    grammar,
                    analysis,
                    component,
                    reversed,
                    #[trigger] table@[s]@,
                    0,
                    s,
                ),
            forall|s: int, p: int|
                0 <= s < table@.len() && 0 <= p < grammar.productions@.len() && (
                #[trigger] grammar.productions@[p]).lhs == #[trigger] component.members@[s]
                    ==> rhs_usable(
                    grammar,
                    analysis,
                    component.id,
                    expressions@,
                    reversed,
                    grammar.productions@[p].rhs@,
                ),
        decreases count - table@.len(),
    {
        let source: usize = table.len();
        match label_row(grammar, patterns, analysis, component, expressions, reversed, source) {
            Ok(row) => {
                assert(row_walked(
                    grammar,
                    analysis,
                    component,
                    reversed,
                    row@,
                    0,
                    source as int,
                )) by {
                    assert forall|t: int| 0 <= t < row@.len() implies walked(
                        grammar,
                        analysis,
                        component,
                        reversed,
                        #[trigger] row@[t],
                        0,
                        source as int,
                        t,
                    ) by {
                        lemma_walked_start(
                            grammar,
                            analysis,
                            component,
                            reversed,
                            row@[t],
                            source as int,
                            t,
                        );
                    }
                }
                table.push(row);
            },
            Err(reason) => {
                return Err(reason);
            },
        }
    }
    assert(usable_beside(grammar, analysis, component, expressions@, reversed)) by {
        assert forall|p: int|
            0 <= p < grammar.productions@.len() && component.members@.contains(
                (#[trigger] grammar.productions@[p]).lhs,
            ) implies rhs_usable(
            grammar,
            analysis,
            component.id,
            expressions@,
            reversed,
            grammar.productions@[p].rhs@,
        ) by {
            let s = choose|s: int|
                0 <= s < component.members@.len() && #[trigger] component.members@[s]
                    == grammar.productions@[p].lhs;
            assert(grammar.productions@[p].lhs == component.members@[s]);
        }
    }
    let mut last: Vec<RegularExpression> = Vec::new();
    while last.len() <= count
        invariant
            count == component.members@.len(),
            last@.len() <= count + 1,
            forall|t: int|
                0 <= t < last@.len() ==> walked(
                    grammar,
                    analysis,
                    component,
                    reversed,
                    #[trigger] last@[t],
                    0,
                    count as int,
                    t,
                ),
            regular::all_reversible(last@),
            regular::all_plain(last@),
        decreases count + 1 - last@.len(),
    {
        proof {
            reveal(labelled);
            let t = last@.len() as int;
            let e = RegularExpression::Empty;
            assert(labelled(
                grammar,
                analysis,
                component,
                reversed,
                e,
                grammar.productions@.len() as int,
                count as int,
                t,
            ));
            lemma_walked_start(grammar, analysis, component, reversed, e, count as int, t);
        }
        last.push(RegularExpression::Empty);
    }
    table.push(last);
    assert(table_walked(grammar, analysis, component, reversed, table@, 0));
    let mut pivot: usize = 0;
    while pivot < count
        invariant
            count == component.members@.len(),
            pivot <= count,
            table_walked(grammar, analysis, component, reversed, table@, pivot as int),
        decreases count - pivot,
    {
        table = pass_member(grammar, analysis, component, &table, pivot, reversed);
        pivot += 1;
    }
    let mut solved: Vec<RegularExpression> = Vec::new();
    while solved.len() < count
        invariant
            solvable(grammar, analysis, component, expressions@, reversed),
            count == component.members@.len(),
            table_walked(grammar, analysis, component, reversed, table@, count as int),
            solved@.len() <= count,
            forall|s: int|
                0 <= s < solved@.len() ==> expresses(
                    grammar,
                    reversed,
                    #[trigger] solved@[s],
                    Symbol::Nonterminal(component.members@[s]),
                ),
            reversed ==> regular::all_reversible(solved@),
            clean(grammar) ==> regular::all_plain(solved@),
        decreases count - solved@.len(),
    {
        let source: usize = solved.len();
        assert(row_walked(
            grammar,
            analysis,
            component,
            reversed,
            table@[source as int]@,
            count as int,
            source as int,
        ));
        let expression = &table[source][count];
        let copy = expression.clone();
        proof {
            lemma_walked_alike(
                grammar,
                analysis,
                component,
                reversed,
                *expression,
                copy,
                count as int,
                source as int,
                count as int,
            );
            lemma_walked_expresses(
                grammar,
                analysis,
                component,
                reversed,
                copy,
                source as int,
            );
            if reversed {
                assert(regular::reversible(table@[source as int]@[count as int]));
                regular::lemma_alike_reversible(*expression, copy);
            }
            if clean(grammar) {
                assert(regular::plain(table@[source as int]@[count as int]));
                regular::lemma_alike_plain(*expression, copy);
            }
        }
        solved.push(copy);
    }
    Ok(solved)
}

/// The paths over all members to the end express the member that they start at.
proof fn lemma_walked_expresses(
    grammar: &Grammar,
    analysis: &SccAnalysis,
    component: &Scc,
    flip: bool,
    e: RegularExpression,
    s: int,
)
    requires
        grammar.wf(),
        members_exact(grammar, analysis, component),
        0 <= s < component.members@.len(),
        forall|p: int|
            0 <= p < grammar.productions@.len() && component.members@.contains(
                (#[trigger] grammar.productions@[p]).lhs,
            ) ==> linear(analysis, component.id, flip, grammar.productions@[p].rhs@),
        walked(
            grammar,
            analysis,
            component,
            flip,
            e,
            component.members@.len() as int,
            s,
            component.members@.len() as int,
        ),
    ensures
        expresses(grammar, flip, e, Symbol::Nonterminal(component.members@[s])),
{
    let count = component.members@.len() as int;
    let symbol = Symbol::Nonterminal(component.members@[s]);
    assert forall|patterns: regular::PatternLex, w: Seq<u8>, i: int, j: int|
        regular::denotes(e, patterns, flip, w, i, j) == symbol_yields(
            grammar,
            patterns,
            symbol,
            w,
            i,
            j,
        ) by {
        let edge = links(grammar, analysis, component, flip, patterns, w);
        lemma_walked_use(
            grammar, analysis, component, flip, e, count, s, count, patterns, w, i, j,
        );
        if kleene::connected(edge, flip, count, s, count, i, j) {
            let n = choose|n: nat| kleene::path(edge, flip, count, n, s, count, i, j);
            lemma_path_yields(grammar, analysis, component, flip, patterns, w, n, s, i, j);
        }
        if symbol_yields(grammar, patterns, symbol, w, i, j) {
            let n = choose|n: nat|
                derivation::derives(
                    grammar.rules(),
                    grammar.lex(kinds(patterns)),
                    n,
                    symbol,
                    w,
                    i,
                    j,
                );
            lemma_derives_path(grammar, analysis, component, flip, patterns, w, n, s, i, j);
        }
    }
    reveal(expresses);
}

/// The table with the paths through one more member.
fn pass_member(
    grammar: &Grammar,
    analysis: &SccAnalysis,
    component: &Scc,
    table: &Vec<Vec<RegularExpression>>,
    pivot: usize,
    reversed: bool,
) -> (passed: Vec<Vec<RegularExpression>>)
    requires
        pivot < component.members@.len(),
        table_walked(grammar, analysis, component, reversed, table@, pivot as int),
    ensures
        table_walked(grammar, analysis, component, reversed, passed@, pivot + 1),
{
    let count: usize = component.members.len();
    assert(row_walked(
        grammar,
        analysis,
        component,
        reversed,
        table@[pivot as int]@,
        pivot as int,
        pivot as int,
    ));
    let base = table[pivot][pivot].clone();
    let ghost loop_base = table@[pivot as int]@[pivot as int];
    let ghost text = base;
    let repeated = regular::star(base);
    proof {
        reveal(repeats);
        assert forall|patterns: regular::PatternLex, flip: bool, w: Seq<u8>, i: int, j: int|
         #[trigger]
            regular::denotes(repeated, patterns, flip, w, i, j) == regular::denotes_star(
                text,
                patterns,
                flip,
                w,
                i,
                j,
            ) by {}
        if reversed {
            assert(regular::reversible(loop_base));
            regular::lemma_alike_reversible(loop_base, text);
        }
        if clean(grammar) {
            assert(regular::plain(loop_base));
            regular::lemma_alike_plain(loop_base, text);
        }
        lemma_walked_alike(
            grammar,
            analysis,
            component,
            reversed,
            loop_base,
            text,
            pivot as int,
            pivot as int,
            pivot as int,
        );
    }
    let mut passed: Vec<Vec<RegularExpression>> = Vec::new();
    while passed.len() <= count
        invariant
            count == component.members@.len(),
            pivot < count,
            table_walked(grammar, analysis, component, reversed, table@, pivot as int),
            repeats(repeated, text),
            reversed ==> regular::reversible(repeated),
            clean(grammar) ==> regular::plain(repeated),
            walked(
                grammar,
                analysis,
                component,
                reversed,
                text,
                pivot as int,
                pivot as int,
                pivot as int,
            ),
            passed@.len() <= count + 1,
            forall|s: int|
                0 <= s < passed@.len() ==> row_walked(
                    grammar,
                    analysis,
                    component,
                    reversed,
                    #[trigger] passed@[s]@,
                    pivot + 1,
                    s,
                ),
        decreases count + 1 - passed@.len(),
    {
        let source: usize = passed.len();
        let mut row: Vec<RegularExpression> = Vec::new();
        assert(row_walked(
            grammar,
            analysis,
            component,
            reversed,
            table@[source as int]@,
            pivot as int,
            source as int,
        ));
        assert(row_walked(
            grammar,
            analysis,
            component,
            reversed,
            table@[pivot as int]@,
            pivot as int,
            pivot as int,
        ));
        while row.len() <= count
            invariant
                count == component.members@.len(),
                pivot < count,
                source <= count,
                table@.len() == count + 1,
                row_walked(
                    grammar,
                    analysis,
                    component,
                    reversed,
                    table@[source as int]@,
                    pivot as int,
                    source as int,
                ),
                row_walked(
                    grammar,
                    analysis,
                    component,
                    reversed,
                    table@[pivot as int]@,
                    pivot as int,
                    pivot as int,
                ),
                repeats(repeated, text),
                reversed ==> regular::reversible(repeated),
                clean(grammar) ==> regular::plain(repeated),
                walked(
                    grammar,
                    analysis,
                    component,
                    reversed,
                    text,
                    pivot as int,
                    pivot as int,
                    pivot as int,
                ),
                row@.len() <= count + 1,
                forall|t: int|
                    0 <= t < row@.len() ==> walked(
                        grammar,
                        analysis,
                        component,
                        reversed,
                        #[trigger] row@[t],
                        pivot + 1,
                        source as int,
                        t,
                    ),
                reversed ==> regular::all_reversible(row@),
                clean(grammar) ==> regular::all_plain(row@),
            decreases count + 1 - row@.len(),
        {
            let target: usize = row.len();
            let after = add_path(
                &table[source][pivot],
                &repeated,
                &table[pivot][target],
                &table[source][target],
                reversed,
                Ghost(text),
            );
            proof {
                let incoming = table@[source as int]@[pivot as int];
                let outgoing = table@[pivot as int]@[target as int];
                let before = table@[source as int]@[target as int];
                lemma_walked_step(
                    grammar,
                    analysis,
                    component,
                    reversed,
                    incoming,
                    text,
                    outgoing,
                    before,
                    after,
                    pivot as int,
                    source as int,
                    target as int,
                );
            }
            row.push(after);
        }
        passed.push(row);
    }
    passed
}

/// The orientation after one more production.
pub open spec fn orientation_step(
    analysis: &SccAnalysis,
    id: SccId,
    before: Result<LinearOrientation, CertificateFailureReason>,
    rhs: Seq<Symbol>,
) -> Result<LinearOrientation, CertificateFailureReason> {
    match before {
        Err(reason) => Err(reason),
        Ok(orientation) => if named_twice(analysis, id, rhs) {
            Err(CertificateFailureReason::MultipleRecursiveOccurrences)
        } else if outside(analysis, id, rhs) || rhs.len() == 1 {
            Ok(orientation)
        } else {
            let side = if inside(analysis, id, rhs[0]) {
                LinearOrientation::Left
            } else {
                LinearOrientation::Right
            };
            if !inside(analysis, id, rhs[0]) && !inside(analysis, id, rhs.last()) {
                Err(CertificateFailureReason::RecursiveSymbolInInterior)
            } else if orientation != LinearOrientation::Neutral && orientation != side {
                Err(CertificateFailureReason::MixedLinearOrientation)
            } else {
                Ok(side)
            }
        },
    }
}

/// Whether a right-hand side names the component more than once.
pub open spec fn named_twice(analysis: &SccAnalysis, id: SccId, rhs: Seq<Symbol>) -> bool {
    exists|x: int, y: int|
        0 <= x < y < rhs.len() && inside(analysis, id, #[trigger] rhs[x]) && inside(
            analysis,
            id,
            #[trigger] rhs[y],
        )
}

/// The orientation after the productions of the first `m` members, and those of the next one among
/// the first `p` productions.
pub open spec fn orientation_after(
    grammar: &Grammar,
    analysis: &SccAnalysis,
    component: &Scc,
    m: nat,
    p: nat,
) -> Result<LinearOrientation, CertificateFailureReason>
    decreases m, p,
{
    if p == 0 {
        if m == 0 {
            Ok(LinearOrientation::Neutral)
        } else {
            orientation_after(
                grammar,
                analysis,
                component,
                (m - 1) as nat,
                grammar.productions@.len(),
            )
        }
    } else {
        let before = orientation_after(grammar, analysis, component, m, (p - 1) as nat);
        let production = grammar.productions@[p - 1];
        if production.lhs == component.members@[m as int] {
            orientation_step(analysis, component.id, before, production.rhs@)
        } else {
            before
        }
    }
}

/// The side on which a component's productions recur: the right one if they recur on neither, and
/// else the reason at the first production that speaks against it.
pub open spec fn orientation(
    grammar: &Grammar,
    analysis: &SccAnalysis,
    component: &Scc,
) -> Result<LinearOrientation, CertificateFailureReason> {
    match orientation_after(grammar, analysis, component, component.members@.len(), 0) {
        Ok(LinearOrientation::Neutral) => Ok(LinearOrientation::Right),
        other => other,
    }
}

/// Whether a right-hand side fits an orientation.
spec fn fits(analysis: &SccAnalysis, id: SccId, side: LinearOrientation, rhs: Seq<Symbol>) -> bool {
    match side {
        LinearOrientation::Neutral => linear(analysis, id, true, rhs) && linear(
            analysis,
            id,
            false,
            rhs,
        ),
        LinearOrientation::Left => linear(analysis, id, true, rhs),
        LinearOrientation::Right => linear(analysis, id, false, rhs),
    }
}

proof fn lemma_step_fits(
    analysis: &SccAnalysis,
    id: SccId,
    before: LinearOrientation,
    rhs: Seq<Symbol>,
    other: Seq<Symbol>,
)
    requires
        orientation_step(analysis, id, Ok(before), rhs) is Ok,
    ensures
        fits(analysis, id, orientation_step(analysis, id, Ok(before), rhs)->Ok_0, rhs),
        fits(analysis, id, before, other) ==> fits(
            analysis,
            id,
            orientation_step(analysis, id, Ok(before), rhs)->Ok_0,
            other,
        ),
{
    assert forall|x: int| 0 <= x < rhs.len() && inside(analysis, id, #[trigger] rhs[x]) implies (
    rhs.len() > 1 && inside(analysis, id, rhs[0]) ==> x == 0) && (rhs.len() > 1 && inside(
        analysis,
        id,
        rhs.last(),
    ) ==> x == rhs.len() - 1) by {
        if rhs.len() > 1 && inside(analysis, id, rhs[0]) && x != 0 {
            assert(named_twice(analysis, id, rhs));
        }
        if rhs.len() > 1 && inside(analysis, id, rhs.last()) && x != rhs.len() - 1 {
            assert(inside(analysis, id, rhs[rhs.len() - 1]));
            assert(named_twice(analysis, id, rhs));
        }
    }
}

/// The orientation after one more right-hand side.
fn step_orientation(
    analysis: &SccAnalysis,
    id: SccId,
    before: LinearOrientation,
    rhs: &Vec<Symbol>,
) -> (result: Result<LinearOrientation, CertificateFailureReason>)
    requires
        residual::symbols_in(rhs@, analysis.component_of@.len(), usize::MAX as nat + 1),
    ensures
        result == orientation_step(analysis, id, Ok(before), rhs@),
{
    let position = match recursive_position(analysis, id, rhs) {
        Some(position) => position,
        None => {
            assert(!named_twice(analysis, id, rhs@)) by {
                if named_twice(analysis, id, rhs@) {
                    let (x, y) = choose|x: int, y: int|
                        0 <= x < y < rhs@.len() && inside(analysis, id, #[trigger] rhs@[x])
                            && inside(analysis, id, #[trigger] rhs@[y]);
                    assert(!inside(analysis, id, rhs@[x]));
                }
            }
            return Ok(before);
        },
    };
    assert(!outside(analysis, id, rhs@)) by {
        assert(inside(analysis, id, rhs@[position as int]));
    }
    let ghost earlier = rhs@.take(position as int);
    assert forall|x: int| 0 <= x < position implies !inside(analysis, id, #[trigger] rhs@[x]) by {
        assert(rhs@[x] == earlier[x]);
    }
    let count: usize = rhs.len();
    let mut index: usize = position + 1;
    while index < count
        invariant
            count == rhs@.len(),
            position < index <= rhs@.len(),
            residual::symbols_in(rhs@, analysis.component_of@.len(), usize::MAX as nat + 1),
            inside(analysis, id, rhs@[position as int]),
            forall|x: int|
                0 <= x < index && x != position ==> !inside(analysis, id, #[trigger] rhs@[x]),
        decreases rhs@.len() - index,
    {
        match rhs[index] {
            Symbol::Nonterminal(target) => {
                assert(residual::symbol_in(
                    rhs@[index as int],
                    analysis.component_of@.len(),
                    usize::MAX as nat + 1,
                ));
                if analysis.component_of[target as usize] == id {
                    assert(inside(analysis, id, rhs@[index as int]));
                    assert(named_twice(analysis, id, rhs@));
                    return Err(CertificateFailureReason::MultipleRecursiveOccurrences);
                }
            },
            Symbol::Terminal(_) => {},
        }
        index += 1;
    }
    assert(!named_twice(analysis, id, rhs@)) by {
        if named_twice(analysis, id, rhs@) {
            let (x, y) = choose|x: int, y: int|
                0 <= x < y < rhs@.len() && inside(analysis, id, #[trigger] rhs@[x]) && inside(
                    analysis,
                    id,
                    #[trigger] rhs@[y],
                );
            assert(x == position && y == position);
        }
    }
    if rhs.len() == 1 {
        return Ok(before);
    }
    let side = if position == 0 {
        LinearOrientation::Left
    } else if position == rhs.len() - 1 {
        LinearOrientation::Right
    } else {
        assert(!inside(analysis, id, rhs@[0]));
        assert(!inside(analysis, id, rhs@[rhs@.len() - 1]));
        return Err(CertificateFailureReason::RecursiveSymbolInInterior);
    };
    assert(position != 0 ==> !inside(analysis, id, rhs@[0]));
    if before != LinearOrientation::Neutral && before != side {
        return Err(CertificateFailureReason::MixedLinearOrientation);
    }
    Ok(side)
}

/// Whether an error, once there, stays to the end.
proof fn lemma_orientation_error(
    grammar: &Grammar,
    analysis: &SccAnalysis,
    component: &Scc,
    m: nat,
    p: nat,
    n: nat,
    q: nat,
)
    requires
        m < n || (m == n && p <= q),
        p <= grammar.productions@.len(),
        q <= grammar.productions@.len(),
        orientation_after(grammar, analysis, component, m, p) is Err,
    ensures
        orientation_after(grammar, analysis, component, n, q) == orientation_after(
            grammar,
            analysis,
            component,
            m,
            p,
        ),
    decreases n, q,
{
    if !(m == n && p == q) {
        if q == 0 {
            lemma_orientation_error(
                grammar,
                analysis,
                component,
                m,
                p,
                (n - 1) as nat,
                grammar.productions@.len(),
            );
        } else {
            lemma_orientation_error(grammar, analysis, component, m, p, n, (q - 1) as nat);
        }
    }
}

/// The side on which a component's productions recur.
fn component_orientation(
    grammar: &Grammar,
    analysis: &SccAnalysis,
    component: &Scc,
) -> (result: Result<LinearOrientation, CertificateFailureReason>)
    requires
        grammar.wf(),
        members_exact(grammar, analysis, component),
    ensures
        result == orientation(grammar, analysis, component),
        result matches Ok(side) ==> side != LinearOrientation::Neutral && forall|p: int|
            0 <= p < grammar.productions@.len() && component.members@.contains(
                (#[trigger] grammar.productions@[p]).lhs,
            ) ==> linear(
                analysis,
                component.id,
                side == LinearOrientation::Left,
                grammar.productions@[p].rhs@,
            ),
{
    let mut side = LinearOrientation::Neutral;
    let mut place: usize = 0;
    while place < component.members.len()
        invariant
            grammar.wf(),
            members_exact(grammar, analysis, component),
            place <= component.members@.len(),
            orientation_after(grammar, analysis, component, place as nat, 0) == Ok::<
                LinearOrientation,
                CertificateFailureReason,
            >(side),
            forall|m: int, p: int|
                0 <= m < place && 0 <= p < grammar.productions@.len() && (
                #[trigger] grammar.productions@[p]).lhs == #[trigger] component.members@[m]
                    ==> fits(analysis, component.id, side, grammar.productions@[p].rhs@),
        decreases component.members@.len() - place,
    {
        let member = component.members[place];
        let mut index: usize = 0;
        while index < grammar.productions.len()
            invariant
                grammar.wf(),
                members_exact(grammar, analysis, component),
                place < component.members@.len(),
                member == component.members@[place as int],
                index <= grammar.productions@.len(),
                orientation_after(grammar, analysis, component, place as nat, index as nat)
                    == Ok::<LinearOrientation, CertificateFailureReason>(side),
                forall|m: int, p: int|
                    0 <= m < place && 0 <= p < grammar.productions@.len() && (
                    #[trigger] grammar.productions@[p]).lhs == #[trigger] component.members@[m]
                        ==> fits(analysis, component.id, side, grammar.productions@[p].rhs@),
                forall|p: int|
                    0 <= p < index && (#[trigger] grammar.productions@[p]).lhs == member ==> fits(
                        analysis,
                        component.id,
                        side,
                        grammar.productions@[p].rhs@,
                    ),
            decreases grammar.productions@.len() - index,
        {
            let production = &grammar.productions[index];
            let ghost before = side;
            if production.lhs == member {
                let ghost rhs = production.rhs@;
                assert(residual::symbols_in(
                    rhs,
                    analysis.component_of@.len(),
                    usize::MAX as nat + 1,
                )) by {
                    assert forall|x: int| 0 <= x < rhs.len() implies residual::symbol_in(
                        #[trigger] rhs[x],
                        analysis.component_of@.len(),
                        usize::MAX as nat + 1,
                    ) by {
                        assert(grammar.productions@[index as int].rhs@ == rhs);
                        assert(residual::symbol_in(
                            rhs[x],
                            grammar.nonterminals@.len(),
                            grammar.terminals@.len(),
                        ));
                    }
                }
                match step_orientation(analysis, component.id, side, &production.rhs) {
                    Ok(next) => {
                        side = next;
                        proof {
                            lemma_step_fits(analysis, component.id, before, rhs, rhs);
                            assert forall|m: int, p: int|
                                0 <= m < place && 0 <= p < grammar.productions@.len() && (
                                #[trigger] grammar.productions@[p]).lhs
                                    == #[trigger] component.members@[m] implies fits(
                                analysis,
                                component.id,
                                side,
                                grammar.productions@[p].rhs@,
                            ) by {
                                lemma_step_fits(
                                    analysis,
                                    component.id,
                                    before,
                                    rhs,
                                    grammar.productions@[p].rhs@,
                                );
                            }
                            assert forall|p: int|
                                0 <= p < index + 1 && (#[trigger] grammar.productions@[p]).lhs
                                    == member implies fits(
                                analysis,
                                component.id,
                                side,
                                grammar.productions@[p].rhs@,
                            ) by {
                                lemma_step_fits(
                                    analysis,
                                    component.id,
                                    before,
                                    rhs,
                                    grammar.productions@[p].rhs@,
                                );
                            }
                        }
                    },
                    Err(reason) => {
                        proof {
                            lemma_orientation_error(
                                grammar,
                                analysis,
                                component,
                                place as nat,
                                (index + 1) as nat,
                                component.members@.len(),
                                0,
                            );
                        }
                        return Err(reason);
                    },
                }
            }
            index += 1;
        }
        place += 1;
    }
    assert forall|p: int|
        0 <= p < grammar.productions@.len() && component.members@.contains(
            (#[trigger] grammar.productions@[p]).lhs,
        ) implies fits(analysis, component.id, side, grammar.productions@[p].rhs@) by {
        let m = choose|m: int|
            0 <= m < component.members@.len() && #[trigger] component.members@[m]
                == grammar.productions@[p].lhs;
        assert(grammar.productions@[p].lhs == component.members@[m]);
    }
    if side == LinearOrientation::Neutral {
        Ok(LinearOrientation::Right)
    } else {
        Ok(side)
    }
}

/// Whether a production of a component names a nonterminal of another one.
pub open spec fn relies(
    grammar: &Grammar,
    analysis: &SccAnalysis,
    component: &Scc,
    other: SccId,
) -> bool {
    other != component.id && exists|p: int, x: int|
        #![trigger grammar.productions@[p].rhs@[x]]
        0 <= p < grammar.productions@.len() && component.members@.contains(
            grammar.productions@[p].lhs,
        ) && 0 <= x < grammar.productions@[p].rhs@.len() && inside(
            analysis,
            other,
            grammar.productions@[p].rhs@[x],
        )
}

/// The other components that a component's productions name, in ascending order.
fn external_components(
    grammar: &Grammar,
    analysis: &SccAnalysis,
    component: &Scc,
) -> (dependencies: Vec<SccId>)
    requires
        grammar.wf(),
        members_exact(grammar, analysis, component),
    ensures
        sorting::ascending(dependencies@),
        forall|d: u32| #[trigger]
            dependencies@.contains(d) <==> relies(grammar, analysis, component, d),
{
    let mut found: Vec<SccId> = Vec::new();
    let mut index: usize = 0;
    while index < grammar.productions.len()
        invariant
            grammar.wf(),
            members_exact(grammar, analysis, component),
            index <= grammar.productions@.len(),
            forall|d: u32| #[trigger]
                found@.contains(d) ==> relies(grammar, analysis, component, d),
            forall|p: int, x: int|
                #![trigger grammar.productions@[p].rhs@[x]]
                0 <= p < index && component.members@.contains(grammar.productions@[p].lhs) && 0
                    <= x < grammar.productions@[p].rhs@.len() ==> reported(
                    analysis,
                    component.id,
                    found@,
                    grammar.productions@[p].rhs@[x],
                ),
        decreases grammar.productions@.len() - index,
    {
        let production = &grammar.productions[index];
        let lhs = production.lhs;
        assert(grammar.productions@[index as int].lhs < grammar.nonterminals@.len());
        if analysis.component_of[lhs as usize] == component.id {
            assert(component.members@.contains(lhs));
            let mut position: usize = 0;
            while position < production.rhs.len()
                invariant
                    grammar.wf(),
                    members_exact(grammar, analysis, component),
                    index < grammar.productions@.len(),
                    *production == grammar.productions@[index as int],
                    component.members@.contains(production.lhs),
                    position <= production.rhs@.len(),
                    forall|d: u32| #[trigger]
                        found@.contains(d) ==> relies(grammar, analysis, component, d),
                    forall|p: int, x: int|
                        #![trigger grammar.productions@[p].rhs@[x]]
                        0 <= p < index && component.members@.contains(grammar.productions@[p].lhs)
                            && 0 <= x < grammar.productions@[p].rhs@.len() ==> reported(
                            analysis,
                            component.id,
                            found@,
                            grammar.productions@[p].rhs@[x],
                        ),
                    forall|x: int|
                        0 <= x < position ==> reported(
                            analysis,
                            component.id,
                            found@,
                            #[trigger] production.rhs@[x],
                        ),
                decreases production.rhs@.len() - position,
            {
                let ghost then = found@;
                match production.rhs[position] {
                    Symbol::Nonterminal(target) => {
                        assert(residual::symbol_in(
                            production.rhs@[position as int],
                            grammar.nonterminals@.len(),
                            grammar.terminals@.len(),
                        ));
                        let dependency = analysis.component_of[target as usize];
                        if dependency != component.id {
                            found.push(dependency);
                            proof {
                                assert(inside(
                                    analysis,
                                    dependency,
                                    grammar.productions@[index as int].rhs@[position as int],
                                ));
                                assert(relies(grammar, analysis, component, dependency));
                                assert forall|d: u32| #[trigger] found@.contains(d) implies relies(
                                    grammar,
                                    analysis,
                                    component,
                                    d,
                                ) by {
                                    if d != dependency {
                                        assert(then.contains(d)) by {
                                            let q = choose|q: int|
                                                0 <= q < found@.len() && found@[q] == d;
                                            assert(then[q] == d);
                                        }
                                    }
                                }
                                assert(found@.contains(dependency)) by {
                                    assert(found@[found@.len() - 1] == dependency);
                                }
                                assert forall|symbol: Symbol| #[trigger]
                                    reported(
                                        analysis,
                                        component.id,
                                        then,
                                        symbol,
                                    ) implies reported(
                                    analysis,
                                    component.id,
                                    found@,
                                    symbol,
                                ) by {
                                    if let Symbol::Nonterminal(a) = symbol {
                                        let d = analysis.component_of@[a as int];
                                        if then.contains(d) {
                                            let q = choose|q: int|
                                                0 <= q < then.len() && then[q] == d;
                                            assert(found@[q] == d);
                                        }
                                    }
                                }
                            }
                        }
                    },
                    Symbol::Terminal(_) => {},
                }
                position += 1;
            }
        }
        index += 1;
    }
    proof {
        assert forall|d: u32| #[trigger] found@.contains(d) <==> relies(
            grammar,
            analysis,
            component,
            d,
        ) by {
            if relies(grammar, analysis, component, d) {
                let (p, x) = choose|p: int, x: int|
                    #![trigger grammar.productions@[p].rhs@[x]]
                    0 <= p < grammar.productions@.len() && component.members@.contains(
                        grammar.productions@[p].lhs,
                    ) && 0 <= x < grammar.productions@[p].rhs@.len() && inside(
                        analysis,
                        d,
                        grammar.productions@[p].rhs@[x],
                    );
                assert(reported(
                    analysis,
                    component.id,
                    found@,
                    grammar.productions@[p].rhs@[x],
                ));
            }
        }
    }
    sorting::sorted_unique(found)
}

/// Whether the component of a symbol is the one at hand or among those found.
spec fn reported(analysis: &SccAnalysis, id: SccId, found: Seq<SccId>, symbol: Symbol) -> bool {
    symbol matches Symbol::Nonterminal(a) ==> analysis.component_of@[a as int] == id
        || found.contains(analysis.component_of@[a as int])
}

/// What a component comes to if every component that it relies on has a certificate.
pub open spec fn own_outcome(
    grammar: &Grammar,
    analysis: &SccAnalysis,
    component: &Scc,
    expressions: Seq<Option<RegularExpression>>,
) -> Result<RegularCertificateKind, CertificateFailureReason> {
    if !component.recursive {
        Ok(RegularCertificateKind::Acyclic)
    } else {
        match orientation(grammar, analysis, component) {
            Err(reason) => Err(reason),
            Ok(LinearOrientation::Left) => if usable_beside(
                grammar,
                analysis,
                component,
                expressions,
                true,
            ) {
                Ok(RegularCertificateKind::LeftLinear)
            } else {
                Err(CertificateFailureReason::UnsupportedRegularOperation)
            },
            Ok(_) => Ok(RegularCertificateKind::RightLinear),
        }
    }
}

/// Whether a component without recursion has one member, which no production of it names.
spec fn acyclic_exact(grammar: &Grammar, analysis: &SccAnalysis, component: &Scc) -> bool {
    !component.recursive ==> component.members@.len() == 1 && forall|p: int|
        0 <= p < grammar.productions@.len() && component.members@.contains(
            (#[trigger] grammar.productions@[p]).lhs,
        ) ==> outside(analysis, component.id, grammar.productions@[p].rhs@)
}

/// The expressions of the members of a component.
fn component_expressions(
    grammar: &Grammar,
    patterns: &Vec<String>,
    analysis: &SccAnalysis,
    component: &Scc,
    expressions: &Vec<Option<RegularExpression>>,
) -> (result: Result<
    (RegularCertificateKind, Vec<RegularExpression>),
    CertificateFailureReason,
>)
    requires
        grammar.wf(),
        patterns_exact(grammar, patterns@),
        members_exact(grammar, analysis, component),
        expressions_exact(grammar, expressions@),
        usable_beside(grammar, analysis, component, expressions@, false),
        acyclic_exact(grammar, analysis, component),
    ensures
        match result {
            Ok(found) => own_outcome(grammar, analysis, component, expressions@) == Ok::<
                RegularCertificateKind,
                CertificateFailureReason,
            >(found.0) && found.1@.len() == component.members@.len() && (clean(grammar)
                ==> regular::all_plain(found.1@)) && forall|s: int|
                0 <= s < found.1@.len() ==> expresses(
                    grammar,
                    false,
                    #[trigger] found.1@[s],
                    Symbol::Nonterminal(component.members@[s]),
                ),
            Err(reason) => own_outcome(grammar, analysis, component, expressions@) == Err::<
                RegularCertificateKind,
                CertificateFailureReason,
            >(reason),
        },
{
    if !component.recursive {
        assert(solvable(grammar, analysis, component, expressions@, false));
        match label_row(grammar, patterns, analysis, component, expressions, false, 0) {
            Ok(row) => {
                let copy = row[1].clone();
                proof {
                    let e = row@[1];
                    lemma_acyclic_expresses(grammar, analysis, component, e);
                    lemma_expresses_alike(
                        grammar,
                        false,
                        e,
                        copy,
                        Symbol::Nonterminal(component.members@[0]),
                    );
                    if clean(grammar) {
                        assert(regular::plain(e));
                        regular::lemma_alike_plain(e, copy);
                    }
                }
                let mut solved: Vec<RegularExpression> = Vec::new();
                solved.push(copy);
                return Ok((RegularCertificateKind::Acyclic, solved));
            },
            Err(reason) => {
                return Err(reason);
            },
        }
    }
    let side = match component_orientation(grammar, analysis, component) {
        Ok(side) => side,
        Err(reason) => {
            return Err(reason);
        },
    };
    let reversed = side == LinearOrientation::Left;
    let solved = match solve_linear_component(
        grammar,
        patterns,
        analysis,
        component,
        expressions,
        reversed,
    ) {
        Ok(solved) => solved,
        Err(reason) => {
            return Err(reason);
        },
    };
    if !reversed {
        return Ok((RegularCertificateKind::RightLinear, solved));
    }
    let mut turned: Vec<RegularExpression> = Vec::new();
    while turned.len() < solved.len()
        invariant
            solved@.len() == component.members@.len(),
            turned@.len() <= solved@.len(),
            regular::all_reversible(solved@),
            clean(grammar) ==> regular::all_plain(solved@) && regular::all_plain(turned@),
            forall|s: int|
                0 <= s < solved@.len() ==> expresses(
                    grammar,
                    true,
                    #[trigger] solved@[s],
                    Symbol::Nonterminal(component.members@[s]),
                ),
            forall|s: int|
                0 <= s < turned@.len() ==> expresses(
                    grammar,
                    false,
                    #[trigger] turned@[s],
                    Symbol::Nonterminal(component.members@[s]),
                ),
        decreases solved@.len() - turned@.len(),
    {
        let place: usize = turned.len();
        match solved[place].reversed() {
            Some(other) => {
                proof {
                    lemma_expresses_flipped(
                        grammar,
                        true,
                        solved@[place as int],
                        other,
                        Symbol::Nonterminal(component.members@[place as int]),
                    );
                }
                turned.push(other);
            },
            None => {
                assert(regular::reversible(solved@[place as int]));
                return Err(CertificateFailureReason::UnsupportedRegularOperation);
            },
        }
    }
    Ok((RegularCertificateKind::LeftLinear, turned))
}

/// What the productions of a member read to the end expresses it, if none of them names the
/// component.
proof fn lemma_acyclic_expresses(
    grammar: &Grammar,
    analysis: &SccAnalysis,
    component: &Scc,
    e: RegularExpression,
)
    requires
        grammar.wf(),
        members_exact(grammar, analysis, component),
        component.members@.len() == 1,
        forall|p: int|
            0 <= p < grammar.productions@.len() && component.members@.contains(
                (#[trigger] grammar.productions@[p]).lhs,
            ) ==> outside(analysis, component.id, grammar.productions@[p].rhs@),
        labelled(
            grammar,
            analysis,
            component,
            false,
            e,
            grammar.productions@.len() as int,
            0,
            1,
        ),
    ensures
        expresses(grammar, false, e, Symbol::Nonterminal(component.members@[0])),
{
    let member = component.members@[0];
    let symbol = Symbol::Nonterminal(member);
    assert forall|patterns: regular::PatternLex, w: Seq<u8>, i: int, j: int|
        regular::denotes(e, patterns, false, w, i, j) == symbol_yields(
            grammar,
            patterns,
            symbol,
            w,
            i,
            j,
        ) by {
        let rules = grammar.rules();
        let lex = grammar.lex(kinds(patterns));
        let limit = grammar.productions@.len() as int;
        assert(regular::denotes(e, patterns, false, w, i, j) == linked(
            grammar,
            analysis,
            component,
            false,
            patterns,
            w,
            limit,
            0,
            1,
            i,
            j,
        )) by {
            reveal(labelled);
        }
        if linked(grammar, analysis, component, false, patterns, w, limit, 0, 1, i, j) {
            let p = choose|p: int|
                #![trigger grammar.productions@[p]]
                0 <= p < limit && grammar.productions@[p].lhs == component.members@[0] && leads(
                    grammar,
                    analysis,
                    component,
                    false,
                    patterns,
                    w,
                    grammar.productions@[p].rhs@,
                    1,
                    i,
                    j,
                );
            assert(rules[p] == grammar::production_rule(grammar.productions@[p]));
            derivation::lemma_yields_rule(rules, lex, p, w, i, j);
        }
        if symbol_yields(grammar, patterns, symbol, w, i, j) {
            let n = choose|n: nat| derivation::derives(rules, lex, n, symbol, w, i, j);
            let p = choose|p: int|
                #![trigger rules[p]]
                0 <= p < rules.len() && rules[p].lhs == member && derivation::derives_seq(
                    rules,
                    lex,
                    (n - 1) as nat,
                    rules[p].rhs,
                    w,
                    i,
                    j,
                );
            assert(rules[p] == grammar::production_rule(grammar.productions@[p]));
            assert(component.members@.contains(grammar.productions@[p].lhs));
            assert(symbols_yield(grammar, patterns, grammar.productions@[p].rhs@, w, i, j));
        }
    }
    reveal(expresses);
}

/// What was found of the components so far.
pub type Outcomes = Seq<Option<Result<RegularCertificateKind, CertificateFailureReason>>>;

/// Whether a component relies on one that has no certificate.
pub open spec fn dependency_failed(
    grammar: &Grammar,
    analysis: &SccAnalysis,
    component: &Scc,
    outcomes: Outcomes,
) -> bool {
    exists|d: u32| #[trigger]
        relies(grammar, analysis, component, d) && outcomes[d as int] matches Some(Err(_))
}

/// What a component comes to.
pub open spec fn outcome_of(
    grammar: &Grammar,
    analysis: &SccAnalysis,
    component: &Scc,
    outcomes: Outcomes,
    expressions: Seq<Option<RegularExpression>>,
) -> Result<RegularCertificateKind, CertificateFailureReason> {
    if dependency_failed(grammar, analysis, component, outcomes) {
        Err(CertificateFailureReason::UncertifiedDependency)
    } else {
        own_outcome(grammar, analysis, component, expressions)
    }
}

/// Whether every component that one relies on is settled, and so is it itself.
spec fn settled(
    grammar: &Grammar,
    analysis: &SccAnalysis,
    c: int,
    outcomes: Outcomes,
    expressions: Seq<Option<RegularExpression>>,
) -> bool {
    &&& forall|d: u32| #[trigger]
        relies(grammar, analysis, &analysis.components@[c], d) ==> outcomes[d as int] is Some
    &&& outcomes[c] == Some(
        outcome_of(grammar, analysis, &analysis.components@[c], outcomes, expressions),
    )
}

/// Whether what was found is right, and there are expressions for the nonterminals of exactly the
/// components with a certificate.
spec fn outcomes_exact(
    grammar: &Grammar,
    analysis: &SccAnalysis,
    outcomes: Outcomes,
    expressions: Seq<Option<RegularExpression>>,
) -> bool {
    &&& outcomes.len() == analysis.components@.len()
    &&& expressions_exact(grammar, expressions)
    &&& forall|a: int|
        0 <= a < expressions.len() ==> ((#[trigger] expressions[a]) is Some <==> outcomes[
        analysis.component_of@[a] as int] matches Some(Ok(_)))
    &&& forall|c: int|
        0 <= c < outcomes.len() && (#[trigger] outcomes[c]) is Some ==> settled(
            grammar,
            analysis,
            c,
            outcomes,
            expressions,
        )
}

/// Whether the components are as the search for them leaves them.
spec fn components_exact(grammar: &Grammar, analysis: &SccAnalysis) -> bool {
    &&& grammar.wf()
    &&& analysis.component_of@.len() == grammar.nonterminals@.len()
    &&& forall|a: int|
        0 <= a < analysis.component_of@.len() ==> #[trigger] analysis.component_of@[a]
            < analysis.components@.len()
    &&& forall|c: int|
        0 <= c < analysis.components@.len() ==> (#[trigger] analysis.components@[c]).id == c
            && members_exact(grammar, analysis, &analysis.components@[c]) && acyclic_exact(
            grammar,
            analysis,
            &analysis.components@[c],
        )
}

proof fn lemma_components_exact(grammar: &Grammar, analysis: &SccAnalysis)
    requires
        grammar.wf(),
        scc::analysis_exact(grammar, analysis),
    ensures
        components_exact(grammar, analysis),
{
    let graph = choose|graph: Seq<Vec<u32>>|
        scc::graph_of(grammar, graph) && #[trigger] analysis.exact(graph);
    assert forall|c: int| 0 <= c < analysis.components@.len() implies (
    #[trigger] analysis.components@[c]).id == c && members_exact(
        grammar,
        analysis,
        &analysis.components@[c],
    ) && acyclic_exact(grammar, analysis, &analysis.components@[c]) by {
        let component = analysis.components@[c];
        assert(analysis.component_exact(graph, c));
        if !component.recursive {
            let only = component.members@[0];
            assert(component.members@.contains(only));
            assert forall|p: int|
                0 <= p < grammar.productions@.len() && component.members@.contains(
                    (#[trigger] grammar.productions@[p]).lhs,
                ) implies outside(analysis, component.id, grammar.productions@[p].rhs@) by {
                let rhs = grammar.productions@[p].rhs@;
                assert(grammar.productions@[p].lhs == only);
                assert forall|x: int| 0 <= x < rhs.len() implies !inside(
                    analysis,
                    component.id,
                    #[trigger] rhs[x],
                ) by {
                    if inside(analysis, component.id, rhs[x]) {
                        let b = rhs[x]->Nonterminal_0;
                        assert(residual::symbol_in(
                            rhs[x],
                            grammar.nonterminals@.len(),
                            grammar.terminals@.len(),
                        ));
                        assert(component.members@.contains(b));
                        assert(b == only);
                        assert(rhs.contains(Symbol::Nonterminal(b)));
                        assert(scc::depends(grammar, only, only));
                        assert(graph[only as int]@.contains(only));
                        assert(scc::edge(graph, only as int, only as int)) by {
                            let e = choose|e: int|
                                0 <= e < graph[only as int]@.len() && graph[only as int]@[e]
                                    == only;
                            assert(graph[only as int]@[e] == only);
                        }
                    }
                }
            }
        }
    }
}

/// The nodes that a node reaches.
spec fn reached(graph: Seq<Vec<u32>>, a: int) -> Set<int> {
    Set::new(|b: int| 0 <= b < graph.len() && scc::reaches(graph, a, b))
}

/// A component reaches more than one that it relies on.
proof fn lemma_relies_less(
    grammar: &Grammar,
    analysis: &SccAnalysis,
    graph: Seq<Vec<u32>>,
    c: int,
    d: u32,
)
    requires
        grammar.wf(),
        scc::graph_of(grammar, graph),
        analysis.exact(graph),
        0 <= c < analysis.components@.len(),
        relies(grammar, analysis, &analysis.components@[c], d),
    ensures
        d < analysis.components@.len(),
        reached(graph, analysis.components@[d as int].members@[0] as int).len() < reached(
            graph,
            analysis.components@[c].members@[0] as int,
        ).len(),
{
    let component = analysis.components@[c];
    let (p, x) = choose|p: int, x: int|
        #![trigger grammar.productions@[p].rhs@[x]]
        0 <= p < grammar.productions@.len() && component.members@.contains(
            grammar.productions@[p].lhs,
        ) && 0 <= x < grammar.productions@[p].rhs@.len() && inside(
            analysis,
            d,
            grammar.productions@[p].rhs@[x],
        );
    let rhs = grammar.productions@[p].rhs@;
    let a = grammar.productions@[p].lhs;
    let b = rhs[x]->Nonterminal_0;
    assert(residual::symbol_in(rhs[x], grammar.nonterminals@.len(), grammar.terminals@.len()));
    assert(analysis.component_of@[b as int] < analysis.components@.len());
    let other = analysis.components@[d as int];
    assert(analysis.component_exact(graph, c));
    assert(analysis.component_exact(graph, d as int));
    let u = component.members@[0];
    let v = other.members@[0];
    assert(component.members@.contains(u));
    assert(other.members@.contains(v));
    assert(rhs.contains(Symbol::Nonterminal(b)));
    assert(scc::depends(grammar, a, b));
    assert(graph[a as int]@.contains(b));
    assert(scc::edge(graph, a as int, b as int)) by {
        let e = choose|e: int| 0 <= e < graph[a as int]@.len() && graph[a as int]@[e] == b;
        assert(graph[a as int]@[e] == b);
    }
    scc::lemma_reaches_edge(graph, a as int, b as int);
    assert(analysis.component_of@[u as int] == analysis.component_of@[a as int]);
    assert(scc::mutual(graph, u as int, a as int));
    assert(analysis.component_of@[v as int] == analysis.component_of@[b as int]);
    assert(scc::mutual(graph, v as int, b as int));
    scc::lemma_reaches_join(graph, u as int, a as int, b as int);
    scc::lemma_reaches_join(graph, u as int, b as int, v as int);
    let smaller = reached(graph, v as int);
    let larger = reached(graph, u as int);
    assert(smaller.subset_of(larger)) by {
        assert forall|y: int| smaller.contains(y) implies larger.contains(y) by {
            scc::lemma_reaches_join(graph, u as int, v as int, y);
        }
    }
    assert(larger.contains(u as int)) by {
        scc::lemma_reaches_self(graph, u as int);
    }
    assert(!smaller.contains(u as int)) by {
        if smaller.contains(u as int) {
            scc::lemma_reaches_join(graph, b as int, v as int, u as int);
            scc::lemma_reaches_join(graph, b as int, u as int, a as int);
            assert(scc::mutual(graph, a as int, b as int));
            assert(analysis.component_of@[a as int] == analysis.component_of@[b as int]);
        }
    }
    let all = vstd::set_lib::set_int_range(0, graph.len() as int);
    vstd::set_lib::lemma_int_range(0, graph.len() as int);
    assert(larger.subset_of(all));
    vstd::set_lib::lemma_len_subset(larger, all);
    smaller.lemma_subset_not_in_lt(larger, u as int);
}

/// If something was not found of a component yet, there is one that waits for no other.
proof fn lemma_not_stuck(
    grammar: &Grammar,
    analysis: &SccAnalysis,
    graph: Seq<Vec<u32>>,
    outcomes: Outcomes,
    c: int,
) -> (e: int)
    requires
        grammar.wf(),
        scc::graph_of(grammar, graph),
        analysis.exact(graph),
        outcomes.len() == analysis.components@.len(),
        0 <= c < outcomes.len(),
        outcomes[c] is None,
    ensures
        0 <= e < outcomes.len(),
        outcomes[e] is None,
        !waits(grammar, analysis, outcomes, e),
    decreases reached(graph, analysis.components@[c].members@[0] as int).len(),
{
    if waits(grammar, analysis, outcomes, c) {
        let d = choose|d: u32| #[trigger]
            relies(grammar, analysis, &analysis.components@[c], d) && outcomes[d as int] is None;
        lemma_relies_less(grammar, analysis, graph, c, d);
        lemma_not_stuck(grammar, analysis, graph, outcomes, d as int)
    } else {
        c
    }
}

/// Whether a component relies on one that nothing was found of yet.
spec fn waits(grammar: &Grammar, analysis: &SccAnalysis, outcomes: Outcomes, c: int) -> bool {
    exists|d: u32| #[trigger]
        relies(grammar, analysis, &analysis.components@[c], d) && outcomes[d as int] is None
}

/// What was found stays right when one more component is settled.
proof fn lemma_settled_stays(
    grammar: &Grammar,
    analysis: &SccAnalysis,
    c: int,
    new: int,
    outcomes: Outcomes,
    later: Outcomes,
    expressions: Seq<Option<RegularExpression>>,
    after: Seq<Option<RegularExpression>>,
)
    requires
        components_exact(grammar, analysis),
        0 <= c < outcomes.len(),
        0 <= new < outcomes.len(),
        outcomes.len() == analysis.components@.len(),
        outcomes[new] is None,
        later == outcomes.update(new, later[new]),
        c != new,
        settled(grammar, analysis, c, outcomes, expressions),
        forall|a: int|
            0 <= a < grammar.nonterminals@.len() && analysis.component_of@[a] != new ==> (
            #[trigger] after[a]) == expressions[a],
    ensures
        settled(grammar, analysis, c, later, after),
{
    let component = analysis.components@[c];
    assert forall|d: u32| #[trigger] relies(grammar, analysis, &component, d) implies later[d as int]
        is Some && later[d as int] == outcomes[d as int] by {
        lemma_relies_range(grammar, analysis, &component, d);
    }
    assert(dependency_failed(grammar, analysis, &component, later) == dependency_failed(
        grammar,
        analysis,
        &component,
        outcomes,
    )) by {
        if dependency_failed(grammar, analysis, &component, outcomes) {
            let d = choose|d: u32| #[trigger]
                relies(grammar, analysis, &component, d) && outcomes[d as int] matches Some(Err(_));
            assert(later[d as int] == outcomes[d as int]);
        }
        if dependency_failed(grammar, analysis, &component, later) {
            let d = choose|d: u32| #[trigger]
                relies(grammar, analysis, &component, d) && later[d as int] matches Some(Err(_));
            assert(later[d as int] == outcomes[d as int]);
        }
    }
    assert forall|p: int|
        0 <= p < grammar.productions@.len() && component.members@.contains(
            (#[trigger] grammar.productions@[p]).lhs,
        ) implies rhs_usable(
        grammar,
        analysis,
        component.id,
        expressions,
        true,
        grammar.productions@[p].rhs@,
    ) == rhs_usable(
        grammar,
        analysis,
        component.id,
        after,
        true,
        grammar.productions@[p].rhs@,
    ) by {
        let rhs = grammar.productions@[p].rhs@;
        assert forall|x: int|
            0 <= x < rhs.len() && !inside(analysis, component.id, #[trigger] rhs[x]) implies usable(
            grammar,
            expressions,
            true,
            rhs[x],
        ) == usable(grammar, after, true, rhs[x]) by {
            if let Symbol::Nonterminal(a) = rhs[x] {
                let d = analysis.component_of@[a as int];
                assert(residual::symbol_in(
                    rhs[x],
                    grammar.nonterminals@.len(),
                    grammar.terminals@.len(),
                ));
                assert(inside(analysis, d, grammar.productions@[p].rhs@[x]));
                assert(relies(grammar, analysis, &component, d));
                assert(after[a as int] == expressions[a as int]);
            }
        }
    }
    assert(usable_beside(grammar, analysis, &component, expressions, true) == usable_beside(
        grammar,
        analysis,
        &component,
        after,
        true,
    ));
}

proof fn lemma_relies_range(
    grammar: &Grammar,
    analysis: &SccAnalysis,
    component: &Scc,
    d: u32,
)
    requires
        components_exact(grammar, analysis),
        relies(grammar, analysis, component, d),
    ensures
        d < analysis.components@.len(),
{
    let (p, x) = choose|p: int, x: int|
        #![trigger grammar.productions@[p].rhs@[x]]
        0 <= p < grammar.productions@.len() && component.members@.contains(
            grammar.productions@[p].lhs,
        ) && 0 <= x < grammar.productions@[p].rhs@.len() && inside(
            analysis,
            d,
            grammar.productions@[p].rhs@[x],
        );
    let b = grammar.productions@[p].rhs@[x]->Nonterminal_0;
    assert(residual::symbol_in(
        grammar.productions@[p].rhs@[x],
        grammar.nonterminals@.len(),
        grammar.terminals@.len(),
    ));
    assert(analysis.component_of@[b as int] < analysis.components@.len());
}

/// Whether one component is settled, and the others left as they are.
spec fn adds_outcome(
    analysis: &SccAnalysis,
    c: int,
    outcomes: Outcomes,
    later: Outcomes,
    expressions: Seq<Option<RegularExpression>>,
    after: Seq<Option<RegularExpression>>,
) -> bool {
    &&& later == outcomes.update(c, later[c])
    &&& later[c] is Some
    &&& after.len() == expressions.len()
    &&& forall|a: int|
        0 <= a < after.len() ==> (#[trigger] after[a] == expressions[a]
            || analysis.component_of@[a] == c)
    &&& forall|a: int|
        0 <= a < after.len() && analysis.component_of@[a] == c ==> ((#[trigger] after[a]) is Some
            <==> later[c] matches Some(Ok(_)))
}

proof fn lemma_adds_outcome(
    grammar: &Grammar,
    analysis: &SccAnalysis,
    c: int,
    outcomes: Outcomes,
    later: Outcomes,
    expressions: Seq<Option<RegularExpression>>,
    after: Seq<Option<RegularExpression>>,
)
    requires
        components_exact(grammar, analysis),
        outcomes_exact(grammar, analysis, outcomes, expressions),
        0 <= c < outcomes.len(),
        outcomes[c] is None,
        !waits(grammar, analysis, outcomes, c),
        adds_outcome(analysis, c, outcomes, later, expressions, after),
        expressions_exact(grammar, after),
        later[c] == Some(
            outcome_of(grammar, analysis, &analysis.components@[c], outcomes, expressions),
        ),
    ensures
        outcomes_exact(grammar, analysis, later, after),
{
    let component = analysis.components@[c];
    assert forall|a: int| 0 <= a < after.len() implies ((#[trigger] after[a]) is Some <==> later[
    analysis.component_of@[a] as int] matches Some(Ok(_))) by {
        assert(analysis.component_of@[a] < analysis.components@.len());
        if analysis.component_of@[a] != c {
            assert(after[a] == expressions[a]);
        }
    }
    // The new outcome, seen beside itself: it changes nothing that the component relies on.
    let shadow = outcomes.update(c, later[c]);
    assert(settled(grammar, analysis, c, shadow, expressions)) by {
        assert forall|d: u32| #[trigger] relies(grammar, analysis, &component, d) implies shadow[
        d as int] is Some && shadow[d as int] == outcomes[d as int] by {
            lemma_relies_range(grammar, analysis, &component, d);
            assert(d != c);
            assert(outcomes[d as int] is Some);
        }
        if dependency_failed(grammar, analysis, &component, outcomes) {
            let d = choose|d: u32| #[trigger]
                relies(grammar, analysis, &component, d) && outcomes[d as int] matches Some(Err(_));
            assert(shadow[d as int] == outcomes[d as int]);
        }
        if dependency_failed(grammar, analysis, &component, shadow) {
            let d = choose|d: u32| #[trigger]
                relies(grammar, analysis, &component, d) && shadow[d as int] matches Some(Err(_));
            assert(shadow[d as int] == outcomes[d as int]);
        }
    }
    assert(settled(grammar, analysis, c, later, after)) by {
        lemma_own_beside(grammar, analysis, c, expressions, after);
    }
    assert forall|e: int| 0 <= e < later.len() && (#[trigger] later[e]) is Some implies settled(
        grammar,
        analysis,
        e,
        later,
        after,
    ) by {
        if e != c {
            assert(outcomes[e] is Some);
            lemma_settled_stays(
                grammar,
                analysis,
                e,
                c,
                outcomes,
                later,
                expressions,
                after,
            );
        }
    }
}

/// The expressions of a component's own members do not bear on what it comes to.
proof fn lemma_own_beside(
    grammar: &Grammar,
    analysis: &SccAnalysis,
    c: int,
    expressions: Seq<Option<RegularExpression>>,
    after: Seq<Option<RegularExpression>>,
)
    requires
        components_exact(grammar, analysis),
        0 <= c < analysis.components@.len(),
        expressions.len() == grammar.nonterminals@.len(),
        after.len() == expressions.len(),
        forall|a: int|
            0 <= a < after.len() ==> (#[trigger] after[a] == expressions[a]
                || analysis.component_of@[a] == c),
    ensures
        own_outcome(grammar, analysis, &analysis.components@[c], expressions) == own_outcome(
            grammar,
            analysis,
            &analysis.components@[c],
            after,
        ),
{
    let component = analysis.components@[c];
    assert forall|p: int|
        0 <= p < grammar.productions@.len() && component.members@.contains(
            (#[trigger] grammar.productions@[p]).lhs,
        ) implies rhs_usable(
        grammar,
        analysis,
        component.id,
        expressions,
        true,
        grammar.productions@[p].rhs@,
    ) == rhs_usable(
        grammar,
        analysis,
        component.id,
        after,
        true,
        grammar.productions@[p].rhs@,
    ) by {
        let rhs = grammar.productions@[p].rhs@;
        assert forall|x: int|
            0 <= x < rhs.len() && !inside(analysis, component.id, #[trigger] rhs[x]) implies usable(
            grammar,
            expressions,
            true,
            rhs[x],
        ) == usable(grammar, after, true, rhs[x]) by {
            if let Symbol::Nonterminal(a) = rhs[x] {
                assert(residual::symbol_in(
                    rhs[x],
                    grammar.nonterminals@.len(),
                    grammar.terminals@.len(),
                ));
                assert(after[a as int] == expressions[a as int]);
            }
        }
    }
    assert(usable_beside(grammar, analysis, &component, expressions, true) == usable_beside(
        grammar,
        analysis,
        &component,
        after,
        true,
    ));
}

/// Settles a component if it relies on no unsettled one. Says whether it did.
fn certify_component(
    grammar: &Grammar,
    patterns: &Vec<String>,
    analysis: &SccAnalysis,
    place: usize,
    outcomes: &mut Vec<Option<Result<RegularCertificateKind, CertificateFailureReason>>>,
    expressions: &mut Vec<Option<RegularExpression>>,
) -> (progress: bool)
    requires
        patterns_exact(grammar, patterns@),
        components_exact(grammar, analysis),
        outcomes_exact(grammar, analysis, old(outcomes)@, old(expressions)@),
        place < old(outcomes)@.len(),
        old(outcomes)@[place as int] is None,
    ensures
        outcomes_exact(grammar, analysis, final(outcomes)@, final(expressions)@),
        progress == !waits(grammar, analysis, old(outcomes)@, place as int),
        progress ==> final(outcomes)@[place as int] is Some && final(outcomes)@ == old(
            outcomes,
        )@.update(place as int, final(outcomes)@[place as int]),
        !progress ==> final(outcomes)@ == old(outcomes)@,
{
    let component = &analysis.components[place];
    let ghost before = outcomes@;
    let ghost then = expressions@;
    let dependencies = external_components(grammar, analysis, component);
    let mut failed = false;
    let mut index: usize = 0;
    while index < dependencies.len()
        invariant
            components_exact(grammar, analysis),
            place < analysis.components@.len(),
            *component == analysis.components@[place as int],
            outcomes@ == before,
            outcomes@.len() == analysis.components@.len(),
            expressions@ == then,
            outcomes_exact(grammar, analysis, outcomes@, expressions@),
            *old(outcomes) == *outcomes,
            index <= dependencies@.len(),
            forall|d: u32| #[trigger]
                dependencies@.contains(d) <==> relies(grammar, analysis, component, d),
            forall|i: int|
                0 <= i < index ==> outcomes@[(#[trigger] dependencies@[i]) as int] is Some,
            failed <==> exists|i: int|
                0 <= i < index && outcomes@[(#[trigger] dependencies@[i]) as int] matches Some(
                    Err(_),
                ),
        decreases dependencies@.len() - index,
    {
        let dependency = dependencies[index];
        proof {
            assert(dependencies@.contains(dependency));
            lemma_relies_range(grammar, analysis, component, dependency);
        }
        match outcomes[dependency as usize] {
            None => {
                return false;
            },
            Some(Ok(_)) => {},
            Some(Err(_)) => {
                failed = true;
                assert(outcomes@[dependencies@[index as int] as int] matches Some(Err(_)));
            },
        }
        index += 1;
    }
    assert(!waits(grammar, analysis, before, place as int)) by {
        assert forall|d: u32| #[trigger]
            relies(grammar, analysis, component, d) implies before[d as int] is Some by {
            assert(dependencies@.contains(d));
            let i = choose|i: int| 0 <= i < dependencies@.len() && dependencies@[i] == d;
            assert(outcomes@[dependencies@[i] as int] is Some);
        }
    }
    assert(failed == dependency_failed(grammar, analysis, component, before)) by {
        if failed {
            let i = choose|i: int|
                0 <= i < dependencies@.len() && outcomes@[(#[trigger] dependencies@[i]) as int]
                    matches Some(Err(_));
            assert(dependencies@.contains(dependencies@[i]));
            assert(relies(grammar, analysis, component, dependencies@[i]));
        }
        if dependency_failed(grammar, analysis, component, before) {
            let d = choose|d: u32| #[trigger]
                relies(grammar, analysis, component, d) && before[d as int] matches Some(Err(_));
            assert(dependencies@.contains(d));
            let i = choose|i: int| 0 <= i < dependencies@.len() && dependencies@[i] == d;
            assert(outcomes@[dependencies@[i] as int] matches Some(Err(_)));
        }
    }
    assert forall|a: int|
        0 <= a < then.len() && analysis.component_of@[a] == place implies (#[trigger] then[a])
        is None by {
        assert(before[place as int] is None);
    }
    if failed {
        outcomes.set(place, Some(Err(CertificateFailureReason::UncertifiedDependency)));
        proof {
            assert(outcomes@ =~= before.update(place as int, outcomes@[place as int]));
            lemma_adds_outcome(
                grammar,
                analysis,
                place as int,
                before,
                outcomes@,
                then,
                expressions@,
            );
        }
        return true;
    }
    assert(usable_beside(grammar, analysis, component, expressions@, false)) by {
        assert forall|p: int|
            0 <= p < grammar.productions@.len() && component.members@.contains(
                (#[trigger] grammar.productions@[p]).lhs,
            ) implies rhs_usable(
            grammar,
            analysis,
            component.id,
            expressions@,
            false,
            grammar.productions@[p].rhs@,
        ) by {
            let rhs = grammar.productions@[p].rhs@;
            assert forall|x: int|
                0 <= x < rhs.len() && !inside(
                    analysis,
                    component.id,
                    #[trigger] rhs[x],
                ) implies usable(grammar, expressions@, false, rhs[x]) by {
                if let Symbol::Nonterminal(a) = rhs[x] {
                    let d = analysis.component_of@[a as int];
                    assert(residual::symbol_in(
                        rhs[x],
                        grammar.nonterminals@.len(),
                        grammar.terminals@.len(),
                    ));
                    assert(inside(analysis, d, grammar.productions@[p].rhs@[x]));
                    assert(relies(grammar, analysis, component, d));
                    assert(before[d as int] is Some);
                    assert(!(before[d as int] matches Some(Err(_))));
                    assert(expressions@[a as int] is Some);
                }
            }
        }
    }
    match component_expressions(grammar, patterns, analysis, component, expressions) {
        Ok((kind, solved)) => {
            let mut solved = solved;
            let ghost all = solved@;
            while solved.len() > 0
                invariant
                    components_exact(grammar, analysis),
                    place < analysis.components@.len(),
                    *component == analysis.components@[place as int],
                    solved@.len() <= component.members@.len(),
                    all.len() == component.members@.len(),
                    solved@ == all.take(solved@.len() as int),
                    clean(grammar) ==> regular::all_plain(all),
                    forall|s: int|
                        0 <= s < all.len() ==> expresses(
                            grammar,
                            false,
                            #[trigger] all[s],
                            Symbol::Nonterminal(component.members@[s]),
                        ),
                    expressions@.len() == then.len() == grammar.nonterminals@.len(),
                    expressions_exact(grammar, expressions@),
                    forall|a: int|
                        0 <= a < then.len() ==> (#[trigger] expressions@[a] == then[a]
                            || analysis.component_of@[a] == place),
                    forall|s: int|
                        solved@.len() <= s < all.len() ==> expressions@[(
                        #[trigger] component.members@[s]) as int] is Some,
                decreases solved@.len(),
            {
                match solved.pop() {
                    Some(expression) => {
                        let s: usize = solved.len();
                        let member = component.members[s];
                        proof {
                            assert(solved@ =~= all.take(s as int));
                            assert(expression == all[s as int]);
                            assert(component.members@.contains(member));
                        }
                        let ghost earlier = expressions@;
                        expressions.set(member as usize, Some(expression));
                        proof {
                            assert forall|a: int|
                                0 <= a < expressions@.len() && (#[trigger] expressions@[a])
                                    is Some implies expresses(
                                grammar,
                                false,
                                expressions@[a]->0,
                                Symbol::Nonterminal(a as u32),
                            ) && (clean(grammar) ==> regular::plain(expressions@[a]->0)) by {
                                if a != member {
                                    assert(expressions@[a] == earlier[a]);
                                }
                            }
                            assert forall|x: int| s <= x < all.len() implies expressions@[(
                            #[trigger] component.members@[x]) as int] is Some by {
                                if x > s {
                                    assert(component.members@[x] != member);
                                    assert(component.members@.contains(component.members@[x]));
                                }
                            }
                        }
                    },
                    None => {},
                }
            }
            outcomes.set(place, Some(Ok(kind)));
            proof {
                assert(outcomes@ =~= before.update(place as int, outcomes@[place as int]));
                assert forall|a: int|
                    0 <= a < expressions@.len() && analysis.component_of@[a] == place implies (
                #[trigger] expressions@[a]) is Some by {
                    lemma_identifier(grammar, a);
                    let id = a as u32;
                    assert(component.members@.contains(id));
                    let s = choose|s: int|
                        0 <= s < component.members@.len() && component.members@[s] == id;
                    assert(expressions@[component.members@[s] as int] is Some);
                }
                lemma_adds_outcome(
                    grammar,
                    analysis,
                    place as int,
                    before,
                    outcomes@,
                    then,
                    expressions@,
                );
            }
        },
        Err(reason) => {
            outcomes.set(place, Some(Err(reason)));
            proof {
                assert(outcomes@ =~= before.update(place as int, outcomes@[place as int]));
                lemma_adds_outcome(
                    grammar,
                    analysis,
                    place as int,
                    before,
                    outcomes@,
                    then,
                    expressions@,
                );
            }
        },
    }
    true
}

/// A nonterminal's position fits in its identifier.
proof fn lemma_identifier(grammar: &Grammar, a: int)
    requires
        grammar.wf(),
        0 <= a < grammar.nonterminals@.len(),
    ensures
        a <= u32::MAX,
{
    assert(grammar.nonterminals@[a].id == a);
}

impl RegularAnalysis {
    /// What the certificates say, as outcomes.
    pub open spec fn outcomes(&self) -> Outcomes {
        self.certificates@.map_values(
            |certificate: SccCertificate|
                match certificate.kind {
                    Some(kind) => Some(Ok(kind)),
                    None => Some(Err(certificate.failure_reason->0)),
                },
        )
    }

    /// Whether every component has the certificate that it comes to, and the nonterminals of
    /// exactly those with one have expressions, which match what they derive.
    pub open spec fn exact(&self, grammar: &Grammar) -> bool {
        &&& scc::analysis_exact(grammar, &self.sccs)
        &&& self.certificates@.len() == self.sccs.components@.len()
        &&& forall|c: int|
            0 <= c < self.certificates@.len() ==> self.certificate_exact(
                grammar,
                #[trigger] self.certificates@[c],
                c,
            )
        &&& expressions_exact(grammar, self.expressions@)
        &&& terminals_read(grammar)
        &&& forall|a: int|
            0 <= a < self.expressions@.len() ==> ((#[trigger] self.expressions@[a]) is Some
                <==> self.certificates@[self.sccs.component_of@[a] as int].kind is Some)
        &&& match (self.whole_language, self.expressions@[grammar.start as int]) {
            (Some(whole), Some(expression)) => regular::alike(expression, whole),
            (None, None) => true,
            _ => false,
        }
    }

    /// Whether a certificate says what the component comes to.
    pub open spec fn certificate_exact(
        &self,
        grammar: &Grammar,
        certificate: SccCertificate,
        c: int,
    ) -> bool {
        &&& certificate.scc == c
        &&& certificate.kind is Some <==> certificate.failure_reason is None
        &&& match outcome_of(
            grammar,
            &self.sccs,
            &self.sccs.components@[c],
            self.outcomes(),
            self.expressions@,
        ) {
            Ok(kind) => certificate.kind == Some(kind),
            Err(reason) => certificate.failure_reason == Some(reason),
        }
    }
}

/// Finds which components of a grammar are regular, and the expressions of their nonterminals.
pub fn certify_regular(grammar: &Grammar) -> (result: Result<RegularAnalysis, CompileError>)
    requires
        grammar.wf(),
    ensures
        result matches Ok(analysis) && analysis.exact(grammar),
{
    match scc::analyze_sccs(grammar) {
        Ok(sccs) => certify_regular_with_sccs(grammar, sccs),
        Err(error) => Err(error),
    }
}

/// As `certify_regular`, with the components at hand.
pub fn certify_regular_with_sccs(grammar: &Grammar, sccs: SccAnalysis) -> (result: Result<
    RegularAnalysis,
    CompileError,
>)
    requires
        grammar.wf(),
        scc::analysis_exact(grammar, &sccs),
    ensures
        result matches Ok(analysis) && analysis.exact(grammar) && analysis.sccs == sccs,
{
    proof {
        lemma_components_exact(grammar, &sccs);
    }
    let patterns: Vec<String> = read_terminals(grammar);
    let count: usize = sccs.components.len();
    let mut expressions: Vec<Option<RegularExpression>> = Vec::new();
    while expressions.len() < grammar.nonterminals.len()
        invariant
            expressions@.len() <= grammar.nonterminals@.len(),
            forall|a: int| 0 <= a < expressions@.len() ==> (#[trigger] expressions@[a]) is None,
        decreases grammar.nonterminals@.len() - expressions@.len(),
    {
        expressions.push(None);
    }
    let mut outcomes: Vec<Option<Result<RegularCertificateKind, CertificateFailureReason>>> =
        Vec::new();
    while outcomes.len() < count
        invariant
            outcomes@.len() <= count,
            forall|c: int| 0 <= c < outcomes@.len() ==> (#[trigger] outcomes@[c]) is None,
        decreases count - outcomes@.len(),
    {
        outcomes.push(None);
    }
    assert(outcomes_exact(grammar, &sccs, outcomes@, expressions@)) by {
        assert forall|a: int| 0 <= a < expressions@.len() implies ((#[trigger] expressions@[a])
            is Some <==> outcomes@[sccs.component_of@[a] as int] matches Some(Ok(_))) by {
            assert(sccs.component_of@[a] < sccs.components@.len());
        }
    }
    let mut done = count::unset_marks(count);
    let mut remaining: usize = count;
    proof {
        count::lemma_count_bound(done@);
    }
    while remaining != 0
        invariant
            grammar.wf(),
            patterns_exact(grammar, patterns@),
            scc::analysis_exact(grammar, &sccs),
            components_exact(grammar, &sccs),
            outcomes_exact(grammar, &sccs, outcomes@, expressions@),
            count == sccs.components@.len(),
            done@.len() == count,
            remaining + count::count_true(done@) == count,
            forall|c: int| 0 <= c < count ==> #[trigger] done@[c] == outcomes@[c] is Some,
        decreases remaining,
    {
        let mut progress = false;
        let ghost first = outcomes@;
        let ghost at_first = remaining;
        let mut place: usize = 0;
        while place < count
            invariant
                patterns_exact(grammar, patterns@),
                components_exact(grammar, &sccs),
                outcomes_exact(grammar, &sccs, outcomes@, expressions@),
                count == sccs.components@.len(),
                place <= count,
                first.len() == count,
                done@.len() == count,
                remaining + count::count_true(done@) == count,
                forall|c: int| 0 <= c < count ==> #[trigger] done@[c] == outcomes@[c] is Some,
                !progress ==> outcomes@ == first && remaining == at_first && forall|c: int|
                    0 <= c < place && (#[trigger] first[c]) is None ==> waits(
                        grammar,
                        &sccs,
                        first,
                        c,
                    ),
                progress ==> remaining < at_first,
                remaining <= at_first,
            decreases count - place,
        {
            if !done[place] {
                assert(done@[place as int] == outcomes@[place as int] is Some);
                let ghost marks = done@;
                if certify_component(
                    grammar,
                    &patterns,
                    &sccs,
                    place,
                    &mut outcomes,
                    &mut expressions,
                ) {
                    done.set(place, true);
                    proof {
                        assert(done@ =~= marks.update(place as int, true));
                        count::lemma_count_set(marks, place as int);
                        count::lemma_count_bound(done@);
                        assert forall|c: int| 0 <= c < count implies #[trigger] done@[c]
                            == outcomes@[c] is Some by {
                            if c != place {
                                assert(marks[c] == done@[c]);
                            }
                        }
                    }
                    remaining -= 1;
                    progress = true;
                }
            } else {
                assert(done@[place as int] == outcomes@[place as int] is Some);
            }
            place += 1;
        }
        if !progress {
            proof {
                let graph = choose|graph: Seq<Vec<u32>>|
                    scc::graph_of(grammar, graph) && #[trigger] sccs.exact(graph);
                count::lemma_count_full(done@);
                let c = choose|c: int| 0 <= c < done@.len() && !#[trigger] done@[c];
                assert(done@[c] == outcomes@[c] is Some);
                let e = lemma_not_stuck(grammar, &sccs, graph, outcomes@, c);
                assert(first[e] is None);
            }
            return Err(
                CompileError::InternalInvariant {
                    message: "SCC condensation graph did not make progress",
                },
            );
        }
    }
    proof {
        assert forall|c: int| 0 <= c < count implies (#[trigger] outcomes@[c]) is Some by {
            count::lemma_count_bound(done@);
            assert(done@[c] == outcomes@[c] is Some);
        }
    }
    let mut certificates: Vec<SccCertificate> = Vec::new();
    let mut place: usize = 0;
    while place < count
        invariant
            components_exact(grammar, &sccs),
            count == sccs.components@.len() == outcomes@.len(),
            place == certificates@.len() <= count,
            forall|c: int| 0 <= c < count ==> (#[trigger] outcomes@[c]) is Some,
            forall|c: int|
                0 <= c < place ==> certifies(#[trigger] certificates@[c], c, outcomes@[c]->0),
        decreases count - place,
    {
        let component = &sccs.components[place];
        let id = component.id;
        assert(outcomes@[place as int] is Some);
        assert(sccs.components@[place as int].id == place);
        match outcomes[place] {
            Some(Ok(kind)) => {
                certificates.push(
                    SccCertificate { scc: id, kind: Some(kind), failure_reason: None },
                );
            },
            Some(Err(reason)) => {
                certificates.push(
                    SccCertificate { scc: id, kind: None, failure_reason: Some(reason) },
                );
            },
            None => {},
        }
        place += 1;
    }
    let whole_language = match &expressions[grammar.start as usize] {
        Some(expression) => Some(expression.clone()),
        None => None,
    };
    let analysis = RegularAnalysis { sccs, certificates, expressions, whole_language };
    proof {
        assert(analysis.outcomes() =~= outcomes@) by {
            assert forall|c: int| 0 <= c < count implies analysis.outcomes()[c]
                == #[trigger] outcomes@[c] by {
                assert(certifies(certificates@[c], c, outcomes@[c]->0));
            }
        }
        assert forall|c: int|
            0 <= c < analysis.certificates@.len() implies analysis.certificate_exact(
            grammar,
            #[trigger] analysis.certificates@[c],
            c,
        ) by {
            assert(certifies(certificates@[c], c, outcomes@[c]->0));
            assert(outcomes@[c] is Some);
            assert(settled(grammar, &sccs, c, outcomes@, analysis.expressions@));
        }
        assert forall|a: int| 0 <= a < analysis.expressions@.len() implies ((
        #[trigger] analysis.expressions@[a]) is Some <==> analysis.certificates@[
        analysis.sccs.component_of@[a] as int].kind is Some) by {
            let c = sccs.component_of@[a] as int;
            assert(sccs.component_of@[a] < count);
            assert(certifies(certificates@[c], c, outcomes@[c]->0));
            assert(outcomes@[c] is Some);
        }
    }
    Ok(analysis)
}

/// Whether a certificate says what was found.
spec fn certifies(
    certificate: SccCertificate,
    c: int,
    outcome: Result<RegularCertificateKind, CertificateFailureReason>,
) -> bool {
    &&& certificate.scc == c
    &&& match outcome {
        Ok(kind) => certificate.kind == Some(kind) && certificate.failure_reason is None,
        Err(reason) => certificate.kind is None && certificate.failure_reason == Some(reason),
    }
}

/// Where the patterns of the terminals are plain, so are those of the expressions.
pub proof fn lemma_clean_expressions(grammar: &Grammar, analysis: &RegularAnalysis)
    requires
        analysis.exact(grammar),
        clean(grammar),
    ensures
        forall|a: int|
            0 <= a < analysis.expressions@.len() ==> (
            #[trigger] analysis.expressions@[a] matches Some(e) ==> dense::plain(e)),
        grammar.start < grammar.nonterminals@.len() ==> (analysis.whole_language matches Some(e)
            ==> dense::plain(e)),
{
    assert forall|a: int| 0 <= a < analysis.expressions@.len() implies (
    #[trigger] analysis.expressions@[a] matches Some(e) ==> dense::plain(e)) by {
        if analysis.expressions@[a] is Some && regular::firm(analysis.expressions@[a]->0) {
            regular::lemma_firm_solid(analysis.expressions@[a]->0);
        }
    }
    if grammar.start < grammar.nonterminals@.len() && analysis.whole_language is Some {
        let e = analysis.expressions@[grammar.start as int]->0;
        let whole = analysis.whole_language->0;
        regular::lemma_alike_plain(e, whole);
        if regular::firm(whole) {
            regular::lemma_firm_solid(whole);
        }
    }
}

/// The expression of a nonterminal matches what the nonterminal derives.
pub proof fn lemma_expression_yields(
    grammar: &Grammar,
    analysis: &RegularAnalysis,
    a: u32,
    patterns: regular::PatternLex,
    w: Seq<u8>,
    i: int,
    j: int,
)
    requires
        analysis.exact(grammar),
        a < grammar.nonterminals@.len(),
        analysis.expressions@[a as int] is Some,
    ensures
        regular::denotes(analysis.expressions@[a as int]->0, patterns, false, w, i, j)
            == symbol_yields(grammar, patterns, Symbol::Nonterminal(a), w, i, j),
{
    let e = analysis.expressions@[a as int]->0;
    lemma_expresses_use(grammar, false, e, Symbol::Nonterminal(a), patterns, w, i, j);
}

/// The expression of the whole language matches exactly the words of the grammar, whatever the
/// patterns match.
pub proof fn law_whole_language(
    grammar: &Grammar,
    analysis: &RegularAnalysis,
    patterns: regular::PatternLex,
    w: Seq<u8>,
)
    requires
        grammar.wf(),
        analysis.exact(grammar),
        analysis.whole_language is Some,
    ensures
        regular::denotes(
            analysis.whole_language->0,
            patterns,
            false,
            w,
            0,
            w.len() as int,
        ) == grammar.language(kinds(patterns), w),
{
    let e = analysis.expressions@[grammar.start as int]->0;
    let whole = analysis.whole_language->0;
    regular::lemma_alike_denotes(e, whole, patterns, false, w, 0, w.len() as int);
    lemma_expresses_use(
        grammar,
        false,
        e,
        Symbol::Nonterminal(grammar.start),
        patterns,
        w,
        0,
        w.len() as int,
    );
}

/// Whether every production of a component names it at most once, and then at its end, or with
/// `flip` at its start.
pub open spec fn all_linear(
    grammar: &Grammar,
    analysis: &SccAnalysis,
    component: &Scc,
    flip: bool,
) -> bool {
    forall|q: int|
        0 <= q < grammar.productions@.len() && component.members@.contains(
            (#[trigger] grammar.productions@[q]).lhs,
        ) ==> linear(analysis, component.id, flip, grammar.productions@[q].rhs@)
}

/// Whether a production is one of those of the first `m` members, or of the next one among the
/// first `p` productions.
spec fn seen(grammar: &Grammar, component: &Scc, m: nat, p: nat, q: int) -> bool {
    exists|i: int|
        0 <= i < component.members@.len() && grammar.productions@[q].lhs == #[trigger]
            component.members@[i] && (i < m || (i == m && q < p))
}

/// The productions so far fit the orientation after them.
proof fn lemma_seen_fits(
    grammar: &Grammar,
    analysis: &SccAnalysis,
    component: &Scc,
    m: nat,
    p: nat,
    q: int,
)
    requires
        m < component.members@.len() || (m == component.members@.len() && p == 0),
        p <= grammar.productions@.len(),
        0 <= q < grammar.productions@.len(),
        orientation_after(grammar, analysis, component, m, p) is Ok,
        seen(grammar, component, m, p, q),
    ensures
        fits(
            analysis,
            component.id,
            orientation_after(grammar, analysis, component, m, p)->Ok_0,
            grammar.productions@[q].rhs@,
        ),
    decreases m, p,
{
    let i = choose|i: int|
        0 <= i < component.members@.len() && grammar.productions@[q].lhs == #[trigger]
            component.members@[i] && (i < m || (i == m && q < p));
    if p == 0 {
        assert(component.members@[i] == grammar.productions@[q].lhs);
        lemma_seen_fits(
            grammar,
            analysis,
            component,
            (m - 1) as nat,
            grammar.productions@.len(),
            q,
        );
    } else {
        let before = orientation_after(grammar, analysis, component, m, (p - 1) as nat);
        let production = grammar.productions@[p - 1];
        let here = production.lhs == component.members@[m as int];
        if i < m || q < p - 1 {
            assert(component.members@[i] == grammar.productions@[q].lhs);
            assert(seen(grammar, component, m, (p - 1) as nat, q));
            lemma_seen_fits(grammar, analysis, component, m, (p - 1) as nat, q);
        }
        if here {
            lemma_step_fits(
                analysis,
                component.id,
                before->Ok_0,
                production.rhs@,
                grammar.productions@[q].rhs@,
            );
        }
    }
}

/// Productions that all recur on one side are passed.
proof fn lemma_linear_passes(
    grammar: &Grammar,
    analysis: &SccAnalysis,
    component: &Scc,
    flip: bool,
    m: nat,
    p: nat,
)
    requires
        m < component.members@.len() || (m == component.members@.len() && p == 0),
        p <= grammar.productions@.len(),
        all_linear(grammar, analysis, component, flip),
    ensures
        orientation_after(grammar, analysis, component, m, p) matches Ok(side) && (side
            == LinearOrientation::Neutral || side == (if flip {
            LinearOrientation::Left
        } else {
            LinearOrientation::Right
        })),
    decreases m, p,
{
    if p == 0 {
        if m > 0 {
            lemma_linear_passes(
                grammar,
                analysis,
                component,
                flip,
                (m - 1) as nat,
                grammar.productions@.len(),
            );
        }
    } else {
        lemma_linear_passes(grammar, analysis, component, flip, m, (p - 1) as nat);
        let production = grammar.productions@[p - 1];
        if production.lhs == component.members@[m as int] {
            assert(component.members@.contains(production.lhs));
            let rhs = production.rhs@;
            let id = component.id;
            assert(linear(analysis, id, flip, rhs));
            if !outside(analysis, id, rhs) && rhs.len() != 1 {
                let x = choose|x: int|
                    0 <= x < rhs.len() && inside(analysis, id, #[trigger] rhs[x]);
                assert(inside(analysis, id, rhs[x]));
                assert(inside(analysis, id, rhs[0]) || inside(analysis, id, rhs.last()));
                if !flip && inside(analysis, id, rhs[0]) {
                    assert(rhs.len() - 1 == 0);
                }
            }
        }
    }
}

/// The side on which a component recurs: the right one just where all its productions recur there,
/// if at all, the left one where all recur there and some not on the right, and else there is none.
pub proof fn law_orientation_is_linearity(
    grammar: &Grammar,
    analysis: &SccAnalysis,
    component: &Scc,
)
    ensures
        orientation(grammar, analysis, component) == Ok::<
            LinearOrientation,
            CertificateFailureReason,
        >(LinearOrientation::Right) <==> all_linear(grammar, analysis, component, false),
        orientation(grammar, analysis, component) == Ok::<
            LinearOrientation,
            CertificateFailureReason,
        >(LinearOrientation::Left) <==> all_linear(grammar, analysis, component, true)
            && !all_linear(grammar, analysis, component, false),
        orientation(grammar, analysis, component) is Err <==> !all_linear(
            grammar,
            analysis,
            component,
            true,
        ) && !all_linear(grammar, analysis, component, false),
{
    let count = component.members@.len();
    let found = orientation_after(grammar, analysis, component, count, 0);
    if all_linear(grammar, analysis, component, false) {
        lemma_linear_passes(grammar, analysis, component, false, count, 0);
    }
    if all_linear(grammar, analysis, component, true) {
        lemma_linear_passes(grammar, analysis, component, true, count, 0);
    }
    if let Ok(side) = found {
        assert forall|q: int|
            0 <= q < grammar.productions@.len() && component.members@.contains(
                (#[trigger] grammar.productions@[q]).lhs,
            ) implies fits(analysis, component.id, side, grammar.productions@[q].rhs@) by {
            let lhs = grammar.productions@[q].lhs;
            let i = choose|i: int| 0 <= i < count && component.members@[i] == lhs;
            assert(component.members@[i] == lhs);
            assert(seen(grammar, component, count, 0, q));
            lemma_seen_fits(grammar, analysis, component, count, 0, q);
        }
        if side != LinearOrientation::Left {
            assert(all_linear(grammar, analysis, component, false));
        } else {
            assert(all_linear(grammar, analysis, component, true));
        }
    }
}

} // verus!
