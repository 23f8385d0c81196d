//! Why what a parser reads on can be completed.

use vstd::prelude::*;

use crate::derivation;
use crate::derivation::{Lex, Rule};
use crate::earley;
use crate::earley::{ActiveScan, CompiledEarley, EarleyItem, EarleyRecognizer};
use crate::items;
use crate::lalr;
use crate::lalr_recognizer;
use crate::lalr_recognizer::LalrRecognizer;
use crate::lr;
use crate::lr::{Action, Lookahead, Lr1Item, Machine};
use crate::reduction;
use crate::residual;
use crate::residual::{CompiledTerminal, ResidualGrammar};
use crate::symbol::Symbol;
use crate::tokens;

verus! {

/// Whether the symbols derive the whole of a byte string.
pub open spec fn makes(rules: Seq<Rule>, lex: Lex, symbols: Seq<Symbol>, v: Seq<u8>) -> bool {
    derivation::yields_seq(rules, lex, symbols, v, 0, v.len() as int)
}

/// Whether every symbol of a right-hand side derives something.
pub open spec fn fruitful(rules: Seq<Rule>, lex: Lex) -> bool {
    forall|p: int, i: int|
        0 <= p < rules.len() && 0 <= i < rules[p].rhs.len() ==> bears(
            rules,
            lex,
            #[trigger] rules[p].rhs[i],
        )
}

/// Whether a symbol derives something.
pub open spec fn bears(rules: Seq<Rule>, lex: Lex, symbol: Symbol) -> bool {
    exists|v: Seq<u8>| #[trigger] makes(rules, lex, seq![symbol], v)
}

/// What derives a part of a string derives it by itself.
proof fn lemma_makes_part(
    rules: Seq<Rule>,
    lex: Lex,
    symbols: Seq<Symbol>,
    w: Seq<u8>,
    i: int,
    j: int,
)
    requires
        derivation::yields_seq(rules, lex, symbols, w, i, j),
    ensures
        0 <= i <= j <= w.len(),
        makes(rules, lex, symbols, w.subrange(i, j)),
{
    let n = choose|n: nat| derivation::derives_seq(rules, lex, n, symbols, w, i, j);
    derivation::lemma_derives_seq_bounds(rules, lex, n, symbols, w, i, j);
    derivation::lemma_derives_seq_shift(rules, lex, n, symbols, w, i, j, i, j);
}

/// A symbol that derives a part of a string derives it by itself.
proof fn lemma_makes_one(rules: Seq<Rule>, lex: Lex, symbol: Symbol, w: Seq<u8>, i: int, j: int)
    requires
        derivation::yields(rules, lex, symbol, w, i, j),
    ensures
        0 <= i <= j <= w.len(),
        makes(rules, lex, seq![symbol], w.subrange(i, j)),
{
    let n = choose|n: nat| derivation::derives(rules, lex, n, symbol, w, i, j);
    derivation::lemma_derives_bounds(rules, lex, n, symbol, w, i, j);
    let none = Seq::<Symbol>::empty();
    assert(derivation::derives_seq(rules, lex, 0, none, w, i, i));
    derivation::lemma_yields_seq_push(rules, lex, none, symbol, w, i, i, j);
    assert(none.push(symbol) =~= seq![symbol]);
    lemma_makes_part(rules, lex, seq![symbol], w, i, j);
}

/// Symbols one after the other derive strings one after the other.
proof fn lemma_makes_join(
    rules: Seq<Rule>,
    lex: Lex,
    left: Seq<Symbol>,
    right: Seq<Symbol>,
    u: Seq<u8>,
    v: Seq<u8>,
)
    requires
        makes(rules, lex, left, u),
        makes(rules, lex, right, v),
    ensures
        makes(rules, lex, left + right, u + v),
    decreases right.len(),
{
    let whole = u + v;
    if right.len() == 0 {
        let n = choose|n: nat|
            derivation::derives_seq(rules, lex, n, right, v, 0, v.len() as int);
        assert(left + right =~= left);
        assert(whole =~= u);
    } else {
        let end = v.len() as int;
        let k = derivation::lemma_yields_seq_pop(rules, lex, right, v, 0, end);
        let front = right.drop_last();
        lemma_makes_part(rules, lex, front, v, 0, k);
        let a = v.subrange(0, k);
        lemma_makes_join(rules, lex, left, front, u, a);
        let m = choose|m: nat|
            derivation::derives_seq(rules, lex, m, left + front, u + a, 0, (u + a).len() as int);
        assert(whole.take((u + a).len() as int) =~= u + a);
        derivation::lemma_derives_seq_extend(
            rules,
            lex,
            m,
            left + front,
            u + a,
            whole,
            0,
            (u + a).len() as int,
        );
        let n = choose|n: nat| derivation::derives(rules, lex, n, right.last(), v, k, end);
        derivation::lemma_derives_bounds(rules, lex, n, right.last(), v, k, end);
        assert(whole.subrange(u.len() as int, whole.len() as int) =~= v);
        derivation::lemma_derives_shift(
            rules,
            lex,
            n,
            right.last(),
            whole,
            u.len() as int,
            whole.len() as int,
            u.len() + k,
            whole.len() as int,
        );
        derivation::lemma_yields_seq_push(
            rules,
            lex,
            left + front,
            right.last(),
            whole,
            0,
            u.len() + k,
            whole.len() as int,
        );
        assert((left + front).push(right.last()) =~= left + right);
    }
}

/// What is left of a right-hand side derives something.
proof fn lemma_rest_makes(rules: Seq<Rule>, lex: Lex, p: int, d: int) -> (v: Seq<u8>)
    requires
        fruitful(rules, lex),
        0 <= p < rules.len(),
        0 <= d <= rules[p].rhs.len(),
    ensures
        makes(rules, lex, rules[p].rhs.skip(d), v),
    decreases rules[p].rhs.len() - d,
{
    let rhs = rules[p].rhs;
    if d == rhs.len() {
        let v = Seq::<u8>::empty();
        assert(derivation::derives_seq(rules, lex, 0, rhs.skip(d), v, 0, 0));
        v
    } else {
        let more = lemma_rest_makes(rules, lex, p, d + 1);
        assert(bears(rules, lex, rules[p].rhs[d]));
        let first = choose|v: Seq<u8>| #[trigger] makes(rules, lex, seq![rhs[d]], v);
        lemma_makes_join(rules, lex, seq![rhs[d]], rhs.skip(d + 1), first, more);
        assert(seq![rhs[d]] + rhs.skip(d + 1) =~= rhs.skip(d));
        first + more
    }
}

/// Where what is left of an item derives a string, the string can be read on to a whole text.
proof fn lemma_item_viable(
    rules: Seq<Rule>,
    lex: Lex,
    root: int,
    n: nat,
    w: Seq<u8>,
    j: int,
    p: int,
    dot: int,
    i: int,
    v: Seq<u8>,
) -> (rest: Seq<u8>)
    requires
        fruitful(rules, lex),
        items::item_within(rules, lex, root, n, w, j, p, dot, i),
        makes(rules, lex, rules[p].rhs.skip(dot), v),
    ensures
        makes(rules, lex, rules[root].rhs, w.take(j) + v + rest),
    decreases n,
{
    let rhs = rules[p].rhs;
    let n1 = (n - 1) as nat;
    if dot == 0 {
        assert(rhs.skip(0) =~= rhs);
        if p == root && j == 0 {
            let none = Seq::<u8>::empty();
            assert(w.take(j) + v + none =~= v);
            none
        } else {
            let (q, d, k) = choose|q: int, d: int, k: int| #[trigger]
                items::item_at(q, d, k) && items::item_within(rules, lex, root, n1, w, j, q, d, k)
                    && d < rules[q].rhs.len() && rules[q].rhs[d] == Symbol::Nonterminal(
                    rules[p].lhs,
                );
            let outer = rules[q].rhs;
            derivation::lemma_yields_rule(rules, lex, p, v, 0, v.len() as int);
            lemma_makes_one(rules, lex, outer[d], v, 0, v.len() as int);
            assert(v.subrange(0, v.len() as int) =~= v);
            let more = lemma_rest_makes(rules, lex, q, d + 1);
            lemma_makes_join(rules, lex, seq![outer[d]], outer.skip(d + 1), v, more);
            assert(seq![outer[d]] + outer.skip(d + 1) =~= outer.skip(d));
            let rest = lemma_item_viable(rules, lex, root, n1, w, j, q, d, k, v + more);
            assert(w.take(j) + (v + more) + rest =~= w.take(j) + v + (more + rest));
            more + rest
        }
    } else {
        let symbol = rhs[dot - 1];
        let k = match symbol {
            Symbol::Terminal(t) => {
                let k = choose|k: int| #[trigger]
                    derivation::at(k) && k <= j && items::item_within(
                        rules,
                        lex,
                        root,
                        n1,
                        w,
                        k,
                        p,
                        dot - 1,
                        i,
                    ) && lex(t, w.subrange(k, j));
                assert(derivation::derives(rules, lex, 0, symbol, w, k, j));
                k
            },
            Symbol::Nonterminal(b) => {
                let (k, q) = choose|k: int, q: int| #[trigger]
                    items::item_at(q, rules[q].rhs.len() as int, k) && k <= j
                        && items::item_within(rules, lex, root, n1, w, k, p, dot - 1, i)
                        && rules[q].lhs == b && items::item_within(
                        rules,
                        lex,
                        root,
                        n1,
                        w,
                        j,
                        q,
                        rules[q].rhs.len() as int,
                        k,
                    );
                items::lemma_item_sound(rules, lex, root, n1, w, j, q, rules[q].rhs.len() as int, k);
                assert(rules[q].rhs.take(rules[q].rhs.len() as int) =~= rules[q].rhs);
                derivation::lemma_yields_rule(rules, lex, q, w, k, j);
                k
            },
        };
        lemma_makes_one(rules, lex, symbol, w, k, j);
        let part = w.subrange(k, j);
        lemma_makes_join(rules, lex, seq![symbol], rhs.skip(dot), part, v);
        assert(seq![symbol] + rhs.skip(dot) =~= rhs.skip(dot - 1));
        let rest = lemma_item_viable(rules, lex, root, n1, w, k, p, dot - 1, i, part + v);
        assert(w.take(k) + (part + v) + rest =~= w.take(j) + v + rest);
        rest
    }
}

/// What can be read on of a terminal can be read to its end.
proof fn lemma_live_completes(terminal: CompiledTerminal, r: Seq<u8>) -> (more: Seq<u8>)
    requires
        terminal.wf(),
        terminal.read(r) is Some,
        terminal.spec_live(terminal.read(r)->0),
    ensures
        terminal.matches(r + more),
{
    match terminal {
        CompiledTerminal::Literal(bytes) => {
            terminal.lemma_literal_matches(r);
            let more = bytes@.skip(r.len() as int);
            assert(r + more =~= bytes@) by {
                assert(r =~= bytes@.subrange(0, r.len() as int));
            }
            terminal.lemma_literal_matches(r + more);
            more
        },
        CompiledTerminal::Dfa(dfa) => {
            terminal.lemma_dfa_matches(r);
            let state = dfa.run(0, r);
            let more = choose|w: Seq<u8>|
                w.len() > 0 && dfa.accepts_at(#[trigger] dfa.run(state, w));
            dfa.lemma_run_concat(0, r, more);
            terminal.lemma_dfa_matches(r + more);
            more
        },
    }
}

impl ResidualGrammar {
    /// Whether every nonterminal that a production uses has a derivation tree, and the start has one,
    /// or there are no productions at all.
    pub open spec fn fertile(&self) -> bool {
        self.productions@.len() == 0 || {
            &&& reduction::productive(self.rules(), self.start)
            &&& forall|p: int, i: int|
                0 <= p < self.rules().len() && 0 <= i < self.rules()[p].rhs.len() ==> (
                #[trigger] self.rules()[p].rhs[i] matches Symbol::Nonterminal(a)
                    ==> reduction::productive(self.rules(), a))
        }
    }

    /// Whether every terminal has a word.
    pub open spec fn worded(&self) -> bool {
        forall|t: u32| t < self.terminals@.len() ==> #[trigger] has_word(self.terminals@[t as int])
    }
}

/// Whether a terminal has a word.
pub open spec fn has_word(terminal: CompiledTerminal) -> bool {
    exists|w: Seq<u8>| #[trigger] terminal.matches(w)
}

/// A derivation tree stays one when rules are added.
proof fn lemma_productive_grows(rules: Seq<Rule>, extra: Rule, n: nat, a: u32)
    requires
        reduction::productive_within(rules, n, a),
    ensures
        reduction::productive_within(rules.push(extra), n, a),
    decreases n,
{
    let more = rules.push(extra);
    let p = choose|p: int|
        #![trigger rules[p]]
        0 <= p < rules.len() && rules[p].lhs == a && forall|i: int|
            0 <= i < rules[p].rhs.len() ==> (#[trigger] rules[p].rhs[i] matches Symbol::Nonterminal(
                b,
            ) ==> reduction::productive_within(rules, (n - 1) as nat, b));
    assert(more[p] == rules[p]);
    assert forall|i: int| 0 <= i < more[p].rhs.len() implies (
    #[trigger] more[p].rhs[i] matches Symbol::Nonterminal(b) ==> reduction::productive_within(
        more,
        (n - 1) as nat,
        b,
    )) by {
        if let Symbol::Nonterminal(b) = rules[p].rhs[i] {
            lemma_productive_grows(rules, extra, (n - 1) as nat, b);
        }
    }
}

/// Symbols with derivation trees spell terminals.
proof fn lemma_symbols_spell(rules: Seq<Rule>, n: nat, symbols: Seq<Symbol>) -> (u: Seq<u32>)
    requires
        forall|i: int|
            0 <= i < symbols.len() ==> (#[trigger] symbols[i] matches Symbol::Nonterminal(b)
                ==> reduction::productive_within(rules, n, b)),
    ensures
        tokens::spells_seq(rules, n, symbols, u),
    decreases n, symbols.len(),
{
    if symbols.len() == 0 {
        Seq::empty()
    } else {
        let first = match symbols[0] {
            Symbol::Terminal(t) => seq![t],
            Symbol::Nonterminal(a) => {
                let p = choose|p: int|
                    #![trigger rules[p]]
                    0 <= p < rules.len() && rules[p].lhs == a && forall|i: int|
                        0 <= i < rules[p].rhs.len() ==> (
                        #[trigger] rules[p].rhs[i] matches Symbol::Nonterminal(b)
                            ==> reduction::productive_within(rules, (n - 1) as nat, b));
                lemma_symbols_spell(rules, (n - 1) as nat, rules[p].rhs)
            },
        };
        assert(tokens::spells(rules, n, symbols[0], first));
        let rest = symbols.skip(1);
        assert forall|i: int| 0 <= i < rest.len() implies (
        #[trigger] rest[i] matches Symbol::Nonterminal(b) ==> reduction::productive_within(
            rules,
            n,
            b,
        )) by {
            assert(rest[i] == symbols[i + 1]);
        }
        let more = lemma_symbols_spell(rules, n, rest);
        tokens::lemma_spells_one(rules, n, symbols[0], first);
        tokens::lemma_spells_seq_join(rules, n, seq![symbols[0]], rest, first, more);
        assert(seq![symbols[0]] + rest =~= symbols);
        first + more
    }
}

/// Whether every nonterminal of a right-hand side has a derivation tree.
pub open spec fn all_productive(rules: Seq<Rule>) -> bool {
    forall|p: int, i: int|
        0 <= p < rules.len() && 0 <= i < rules[p].rhs.len() ==> (
        #[trigger] rules[p].rhs[i] matches Symbol::Nonterminal(a) ==> reduction::productive(
            rules,
            a,
        ))
}

/// What is left of a right-hand side spells terminals.
proof fn lemma_rest_spells(rules: Seq<Rule>, p: int, d: int) -> (found: (nat, Seq<u32>))
    requires
        all_productive(rules),
        0 <= p < rules.len(),
        0 <= d <= rules[p].rhs.len(),
    ensures
        tokens::spells_seq(rules, found.0, rules[p].rhs.skip(d), found.1),
    decreases rules[p].rhs.len() - d,
{
    let rhs = rules[p].rhs;
    if d == rhs.len() {
        (0, Seq::empty())
    } else {
        let (n, more) = lemma_rest_spells(rules, p, d + 1);
        let m: nat = match rules[p].rhs[d] {
            Symbol::Terminal(_) => 0,
            Symbol::Nonterminal(a) => {
                choose|m: nat| reduction::productive_within(rules, m, a)
            },
        };
        let one = seq![rhs[d]];
        assert(one[0] == rules[p].rhs[d]);
        let first = lemma_symbols_spell(rules, m, one);
        tokens::lemma_spells_seq_mono(rules, m, m + n, one, first);
        tokens::lemma_spells_seq_mono(rules, n, m + n, rhs.skip(d + 1), more);
        tokens::lemma_spells_seq_join(rules, m + n, one, rhs.skip(d + 1), first, more);
        assert(one + rhs.skip(d + 1) =~= rhs.skip(d));
        (m + n, first + more)
    }
}

/// With the rule that leads to the start, every nonterminal has a derivation tree.
proof fn lemma_all_productive(grammar: &ResidualGrammar, extra: Rule)
    requires
        grammar.fertile(),
        grammar.productions@.len() > 0,
        extra.rhs == seq![Symbol::Nonterminal(grammar.start)],
    ensures
        all_productive(grammar.rules().push(extra)),
{
    let rules = grammar.rules();
    let more = rules.push(extra);
    assert forall|p: int, i: int|
        0 <= p < more.len() && 0 <= i < more[p].rhs.len() implies (
    #[trigger] more[p].rhs[i] matches Symbol::Nonterminal(a) ==> reduction::productive(more, a)) by {
        if let Symbol::Nonterminal(a) = more[p].rhs[i] {
            if p < rules.len() {
                assert(more[p] == rules[p]);
                assert(rules[p].rhs[i] == Symbol::Nonterminal(a));
                assert(reduction::productive(rules, a));
            } else {
                assert(a == grammar.start);
            }
            let n = choose|n: nat| reduction::productive_within(rules, n, a);
            lemma_productive_grows(rules, extra, n, a);
        }
    }
}

/// What was lexed by itself is lexed behind other bytes.
proof fn lemma_lexes_behind(lex: Lex, v: Seq<u32>, a: Seq<u8>, b: Seq<u8>, i: int, j: int)
    requires
        tokens::lexes(lex, v, b, i, j),
    ensures
        tokens::lexes(lex, v, a + b, a.len() + i, a.len() + j),
    decreases v.len(),
{
    tokens::lemma_lexes_bounds(lex, v, b, i, j);
    if v.len() > 0 {
        let k = choose|k: int| #[trigger]
            derivation::at(k) && 0 <= i <= k <= b.len() && lex(v[0], b.subrange(i, k))
                && tokens::lexes(lex, v.skip(1), b, k, j);
        lemma_lexes_behind(lex, v.skip(1), a, b, k, j);
        assert((a + b).subrange(a.len() + i, a.len() + k) =~= b.subrange(i, k));
        assert(derivation::at(a.len() + k));
    }
}

/// Terminals one after the other match strings one after the other.
proof fn lemma_lexes_concat(lex: Lex, u: Seq<u32>, a: Seq<u8>, v: Seq<u32>, b: Seq<u8>)
    requires
        tokens::lexes(lex, u, a, 0, a.len() as int),
        tokens::lexes(lex, v, b, 0, b.len() as int),
    ensures
        tokens::lexes(lex, u + v, a + b, 0, (a + b).len() as int),
{
    lalr_recognizer::lemma_lexes_prefix(lex, u, a, a + b, 0, a.len() as int);
    lemma_lexes_behind(lex, v, a, b, 0, b.len() as int);
    tokens::lemma_lexes_join(lex, u, v, a + b, 0, a.len() as int, (a + b).len() as int);
}

/// Terminals that have words match a string together.
proof fn lemma_words(grammar: &ResidualGrammar, u: Seq<u32>) -> (w: Seq<u8>)
    requires
        grammar.worded(),
        forall|i: int| 0 <= i < u.len() ==> #[trigger] u[i] < grammar.terminals@.len(),
    ensures
        tokens::lexes(grammar.lex(), u, w, 0, w.len() as int),
    decreases u.len(),
{
    if u.len() == 0 {
        Seq::empty()
    } else {
        let front = u.drop_last();
        assert forall|i: int| 0 <= i < front.len() implies #[trigger] front[i]
            < grammar.terminals@.len() by {
            assert(front[i] == u[i]);
        }
        let w = lemma_words(grammar, front);
        let t = u[u.len() - 1];
        assert(has_word(grammar.terminals@[t as int]));
        let x = choose|x: Seq<u8>| #[trigger] grammar.terminals@[t as int].matches(x);
        assert(x.subrange(0, x.len() as int) =~= x);
        tokens::lemma_lexes_one(grammar.lex(), t, x, 0, x.len() as int);
        lemma_lexes_concat(grammar.lex(), front, w, seq![t], x);
        assert(front + seq![t] =~= u);
        w + x
    }
}

/// What symbols of a grammar spell are its terminals.
proof fn lemma_spelled_within(
    rules: Seq<Rule>,
    terminals: nat,
    n: nat,
    symbols: Seq<Symbol>,
    u: Seq<u32>,
)
    requires
        forall|p: int, i: int|
            0 <= p < rules.len() && 0 <= i < rules[p].rhs.len() ==> (
            #[trigger] rules[p].rhs[i] matches Symbol::Terminal(t) ==> t < terminals),
        forall|i: int|
            0 <= i < symbols.len() ==> (#[trigger] symbols[i] matches Symbol::Terminal(t) ==> t
                < terminals),
        tokens::spells_seq(rules, n, symbols, u),
    ensures
        forall|i: int| 0 <= i < u.len() ==> #[trigger] u[i] < terminals,
    decreases n, symbols.len(),
{
    if symbols.len() > 0 {
        let m = choose|m: int| #[trigger]
            derivation::at(m) && 0 <= m <= u.len() && tokens::spells(
                rules,
                n,
                symbols[0],
                u.take(m),
            ) && tokens::spells_seq(rules, n, symbols.skip(1), u.skip(m));
        let front = u.take(m);
        match symbols[0] {
            Symbol::Terminal(t) => {
                assert(front =~= seq![t]);
                assert forall|i: int| 0 <= i < front.len() implies #[trigger] front[i]
                    < terminals by {
                    assert(front[i] == t);
                }
            },
            Symbol::Nonterminal(a) => {
                let p = choose|p: int|
                    #![trigger rules[p]]
                    0 <= p < rules.len() && rules[p].lhs == a && tokens::spells_seq(
                        rules,
                        (n - 1) as nat,
                        rules[p].rhs,
                        front,
                    );
                lemma_spelled_within(rules, terminals, (n - 1) as nat, rules[p].rhs, front);
            },
        }
        let rest = symbols.skip(1);
        assert forall|i: int| 0 <= i < rest.len() implies (
        #[trigger] rest[i] matches Symbol::Terminal(t) ==> t < terminals) by {
            assert(rest[i] == symbols[i + 1]);
        }
        lemma_spelled_within(rules, terminals, n, rest, u.skip(m));
        assert forall|i: int| 0 <= i < u.len() implies #[trigger] u[i] < terminals by {
            if i < m {
                assert(front[i] == u[i]);
            } else {
                assert(u.skip(m)[i - m] == u[i]);
            }
        }
    }
}

/// The terminals of a grammar's rules exist, also with the rule that leads to the start.
proof fn lemma_rules_within(grammar: &ResidualGrammar, extra: Rule)
    requires
        grammar.wf(),
        extra.rhs == seq![Symbol::Nonterminal(grammar.start)],
    ensures
        forall|p: int, i: int|
            0 <= p < grammar.rules().push(extra).len() && 0 <= i < grammar.rules().push(
                extra,
            )[p].rhs.len() ==> (
            #[trigger] grammar.rules().push(extra)[p].rhs[i] matches Symbol::Terminal(t) ==> t
                < grammar.terminals@.len()),
{
    let more = grammar.rules().push(extra);
    assert forall|p: int, i: int|
        0 <= p < more.len() && 0 <= i < more[p].rhs.len() implies (
    #[trigger] more[p].rhs[i] matches Symbol::Terminal(t) ==> t < grammar.terminals@.len()) by {
        if p < grammar.rules().len() {
            assert(more[p] == residual::residual_rule(grammar.productions@[p]));
            assert(residual::symbol_in(
                grammar.productions@[p].rhs@[i],
                grammar.nonterminals@.len(),
                grammar.terminals@.len(),
            ));
        }
    }
}

/// In a grammar whose nonterminals have derivation trees and whose terminals have words, every symbol
/// derives something.
proof fn lemma_fruitful(grammar: &ResidualGrammar, extra: Rule)
    requires
        grammar.wf(),
        grammar.fertile(),
        grammar.worded(),
        grammar.productions@.len() > 0,
        extra.rhs == seq![Symbol::Nonterminal(grammar.start)],
    ensures
        fruitful(grammar.rules().push(extra), grammar.lex()),
{
    let rules = grammar.rules().push(extra);
    let lex = grammar.lex();
    lemma_all_productive(grammar, extra);
    lemma_rules_within(grammar, extra);
    assert forall|p: int, i: int| 0 <= p < rules.len() && 0 <= i < rules[p].rhs.len() implies bears(
        rules,
        lex,
        #[trigger] rules[p].rhs[i],
    ) by {
        let symbol = rules[p].rhs[i];
        let one = seq![symbol];
        let n: nat = match symbol {
            Symbol::Terminal(_) => 0,
            Symbol::Nonterminal(a) => choose|n: nat| reduction::productive_within(rules, n, a),
        };
        let u = lemma_symbols_spell(rules, n, one);
        lemma_spelled_within(rules, grammar.terminals@.len(), n, one, u);
        let w = lemma_words(grammar, u);
        tokens::lemma_spells_one(rules, n, symbol, u);
        tokens::lemma_spells_derives(rules, lex, n, symbol, u, w, 0, w.len() as int);
        lemma_makes_one(rules, lex, symbol, w, 0, w.len() as int);
        assert(w.subrange(0, w.len() as int) =~= w);
        assert(makes(rules, lex, seq![symbol], w));
    }
}

/// What the rule to the start makes is what the grammar generates.
proof fn lemma_start_generates(grammar: &ResidualGrammar, w: Seq<u8>)
    requires
        grammar.wf(),
        grammar.nonterminals@.len() <= u32::MAX,
        makes(
            grammar.rules().push(lalr::augmented_rule(grammar)),
            grammar.lex(),
            seq![Symbol::Nonterminal(grammar.start)],
            w,
        ),
    ensures
        grammar.generates(w),
{
    let rules = grammar.rules().push(lalr::augmented_rule(grammar));
    let lex = grammar.lex();
    let symbol = Symbol::Nonterminal(grammar.start);
    let end = w.len() as int;
    let k = derivation::lemma_yields_seq_first(rules, lex, seq![symbol], w, 0, end);
    let none = seq![symbol].skip(1);
    let m = choose|m: nat| derivation::derives_seq(rules, lex, m, none, w, k, end);
    assert(k == end);
    let n = choose|n: nat| derivation::derives(rules, lex, n, symbol, w, 0, end);
    lalr_recognizer::lemma_plain_derives(grammar, n, symbol, w, 0, end);
}

/// Charts that read on read what some text of the language begins with, where every nonterminal has a
/// derivation tree and every terminal a word.
pub proof fn law_chart_live_is_viable(recognizer: &EarleyRecognizer, h: Seq<u8>) -> (rest: Seq<u8>)
    requires
        recognizer.recognizes(h),
        recognizer.live(),
        recognizer.compiled.grammar.fertile(),
        recognizer.compiled.grammar.worded(),
    ensures
        recognizer.compiled.grammar.generates(h + rest),
{
    let compiled = *recognizer.compiled;
    if recognizer.accepting() {
        earley::law_accepting_is_generated(recognizer, h);
        assert(h + Seq::<u8>::empty() =~= h);
        Seq::empty()
    } else {
        let scan = recognizer.active_scans@[0];
        assert(recognizer.active_scans@.contains(scan));
        assert(compiled.scan_open(recognizer.chart@, h, scan));
        lemma_scan_viable(recognizer, h, scan)
    }
}

/// An open scan can be completed to a text.
proof fn lemma_scan_viable(recognizer: &EarleyRecognizer, h: Seq<u8>, scan: ActiveScan) -> (rest: Seq<u8>)
    requires
        recognizer.recognizes(h),
        recognizer.compiled.scan_open(recognizer.chart@, h, scan),
        recognizer.compiled.grammar.fertile(),
        recognizer.compiled.grammar.worded(),
    ensures
        recognizer.compiled.grammar.generates(h + rest),
{
    let compiled = *recognizer.compiled;
    let grammar = compiled.grammar;
    let c = scan.start as int;
    let t = scan.terminal;
    let rules = compiled.rules();
    let lex = compiled.lex();
    let root = compiled.root();
    compiled.lemma_rules();
    let waiter = choose|waiter: EarleyItem| #[trigger]
        earley::waits(recognizer.chart@[c].waiting_terminal@, t, waiter);
    assert(compiled.column_exact(recognizer.chart@, c, h));
    assert(compiled.in_column(h, c, waiter) && compiled.next(waiter) == Some(Symbol::Terminal(t))) by {
        reveal(CompiledEarley::column_exact);
    }
    compiled.lemma_item(waiter);
    let p = compiled.production(waiter);
    let dot = compiled.dot(waiter);
    let rhs = rules[p].rhs;
    assert(rhs[dot] == Symbol::Terminal(t));
    assert(grammar.productions@.len() > 0) by {
        if grammar.productions@.len() == 0 {
            assert(grammar.rules().len() == 0);
            assert(p == 0);
            assert(rhs[dot] == Symbol::Nonterminal(grammar.start));
        }
    }
    let extra = Rule {
        lhs: grammar.nonterminals@.len() as u32,
        rhs: seq![Symbol::Nonterminal(grammar.start)],
    };
    lemma_fruitful(&*grammar, extra);
    let terminal = grammar.terminals@[t as int];
    let r = h.subrange(c, h.len() as int);
    let more = if c < h.len() {
        lemma_live_completes(terminal, r)
    } else {
        assert(has_word(grammar.terminals@[t as int]));
        let word = choose|w: Seq<u8>| #[trigger] terminal.matches(w);
        assert(r + word =~= word);
        word
    };
    let word = r + more;
    assert(word.subrange(0, word.len() as int) =~= word);
    assert(derivation::derives(rules, lex, 0, rhs[dot], word, 0, word.len() as int));
    lemma_makes_one(rules, lex, rhs[dot], word, 0, word.len() as int);
    let tail = lemma_rest_makes(rules, lex, p, dot + 1);
    lemma_makes_join(rules, lex, seq![rhs[dot]], rhs.skip(dot + 1), word, tail);
    assert(seq![rhs[dot]] + rhs.skip(dot + 1) =~= rhs.skip(dot));
    let n = choose|n: nat|
        items::item_within(rules, lex, root, n, h, c, p, dot, waiter.origin as int);
    let end = lemma_item_viable(
        rules,
        lex,
        root,
        n,
        h,
        c,
        p,
        dot,
        waiter.origin as int,
        word + tail,
    );
    let rest = more + tail + end;
    assert(h.take(c) + (word + tail) + end =~= h + rest);
    assert(rules[root].rhs =~= seq![Symbol::Nonterminal(grammar.start)]);
    lemma_start_generates(&*grammar, h + rest);
    rest
}

impl Machine {
    /// Where what is left of an item on top of a stack spells terminals, they can be read on to a
    /// whole input.
    proof fn lemma_stack_viable(
        &self,
        stack: Seq<u32>,
        symbols: Seq<Symbol>,
        u: Seq<u32>,
        n: nat,
        item: Lr1Item,
        v: Seq<u32>,
    ) -> (rest: Seq<u32>)
        requires
            self.sound(),
            all_productive(self.rules),
            self.carries(stack, symbols, u),
            lr::based(self, stack.last(), n, item),
            exists|k: nat|
                tokens::spells_seq(
                    self.rules,
                    k,
                    self.rules[item.production as int].rhs.skip(item.dot as int),
                    v,
                ),
        ensures
            exists|k: nat|
                tokens::spells_seq(self.rules, k, self.rules.last().rhs, u + v + rest),
        decreases stack.len(), n,
    {
        self.lemma_sound_has(stack.last(), item);
        self.lemma_sound_based(stack.last());
        let rhs = self.rules[item.production as int].rhs;
        let k = choose|k: nat|
            tokens::spells_seq(self.rules, k, rhs.skip(item.dot as int), v);
        let m = choose|m: nat| tokens::spells_seq(self.rules, m, symbols, u);
        if item.dot > 0 {
            assert(stack.len() > 1);
            let x = symbols.len() - 1;
            let symbol = symbols[x];
            assert(lr::goes(self, stack[x], symbol, stack[x + 1]));
            self.lemma_sound_goes(stack[x], symbol, stack[x + 1]);
            self.lemma_sound_based(stack[x]);
            assert(lr::has_core(self, stack[x], item.production, item.dot - 1));
            let lookahead = choose|lookahead: Lookahead| #[trigger]
                self.has(
                    stack[x],
                    (Lr1Item {
                        production: item.production,
                        dot: (item.dot - 1) as u32,
                        lookahead,
                    }),
                );
            let before = Lr1Item {
                production: item.production,
                dot: (item.dot - 1) as u32,
                lookahead,
            };
            let front = symbols.drop_last();
            assert(front + seq![symbol] =~= symbols);
            let cut = tokens::lemma_spells_seq_split(self.rules, m, front, seq![symbol], u);
            let a = u.take(cut);
            let b = u.skip(cut);
            tokens::lemma_spells_seq_mono(self.rules, m, m + k, seq![symbol], b);
            tokens::lemma_spells_seq_mono(self.rules, k, m + k, rhs.skip(item.dot as int), v);
            tokens::lemma_spells_seq_join(
                self.rules,
                m + k,
                seq![symbol],
                rhs.skip(item.dot as int),
                b,
                v,
            );
            assert(seq![symbol] + rhs.skip(item.dot as int) =~= rhs.skip(item.dot - 1));
            let lower = stack.drop_last();
            assert(lower.last() == stack[x]);
            assert(self.carries(lower, front, a)) by {
                assert forall|y: int| 0 <= y < front.len() implies lr::goes(
                    self,
                    #[trigger] lower[y],
                    front[y],
                    lower[y + 1],
                ) by {
                    assert(lr::goes(self, stack[y], symbols[y], stack[y + 1]));
                }
            }
            assert(exists|n: nat| lr::based(self, stack[x], n, before));
            let depth = choose|n: nat| lr::based(self, stack[x], n, before);
            assert(tokens::spells_seq(
                self.rules,
                m + k,
                self.rules[before.production as int].rhs.skip(before.dot as int),
                b + v,
            ));
            let rest = self.lemma_stack_viable(lower, front, a, depth, before, b + v);
            assert(a + (b + v) + rest =~= u + v + rest);
            rest
        } else if stack.last() == 0 && item.production == self.augmented() {
            if symbols.len() > 0 {
                let x = symbols.len() - 1;
                assert(lr::goes(self, stack[x], symbols[x], stack[x + 1]));
                self.lemma_sound_goes(stack[x], symbols[x], stack[x + 1]);
            }
            let none = Seq::<u32>::empty();
            assert(u =~= none);
            assert(rhs.skip(0) =~= rhs);
            assert(u + v + none =~= v);
            none
        } else {
            let before = choose|before: Lr1Item| #[trigger]
                self.has(stack.last(), before) && lr::after_dot(self.rules, before) == Some(
                    Symbol::Nonterminal(self.rules[item.production as int].lhs),
                ) && lr::based(self, stack.last(), (n - 1) as nat, before);
            self.lemma_sound_has(stack.last(), before);
            let symbol = Symbol::Nonterminal(self.rules[item.production as int].lhs);
            let outer = self.rules[before.production as int].rhs;
            let d = before.dot as int;
            assert(outer[d] == symbol);
            assert(rhs.skip(0) =~= rhs);
            assert(tokens::spells(self.rules, k + 1, symbol, v));
            tokens::lemma_spells_one(self.rules, k + 1, symbol, v);
            let (j, more) = lemma_rest_spells(self.rules, before.production as int, d + 1);
            tokens::lemma_spells_seq_mono(self.rules, k + 1, k + 1 + j, seq![symbol], v);
            tokens::lemma_spells_seq_mono(self.rules, j, k + 1 + j, outer.skip(d + 1), more);
            tokens::lemma_spells_seq_join(
                self.rules,
                k + 1 + j,
                seq![symbol],
                outer.skip(d + 1),
                v,
                more,
            );
            assert(seq![symbol] + outer.skip(d + 1) =~= outer.skip(d));
            let rest = self.lemma_stack_viable(
                stack,
                symbols,
                u,
                (n - 1) as nat,
                before,
                v + more,
            );
            assert(u + (v + more) + rest =~= u + v + (more + rest));
            more + rest
        }
    }

    /// Reductions and a shift lead to a stack that carries one terminal more.
    proof fn lemma_shift_carries(
        &self,
        stack: Seq<u32>,
        symbols: Seq<Symbol>,
        u: Seq<u32>,
        t: u32,
        settled: Seq<u32>,
        next: u32,
    ) -> (longer: Seq<Symbol>)
        requires
            self.sound(),
            self.carries(stack, symbols, u),
            self.settles(stack, Lookahead::Terminal(t), settled),
            self.act(settled, Lookahead::Terminal(t)) == Some(Action::Shift(next)),
        ensures
            self.carries(settled.push(next), longer, u.push(t)),
    {
        let la = Lookahead::Terminal(t);
        let n = choose|n: nat| self.reduces(n, stack, la, settled);
        let after = self.lemma_reduces_carries(n, stack, symbols, u, la, settled);
        let higher = settled.push(next);
        let longer = after.push(Symbol::Terminal(t));
        let m = choose|m: nat| tokens::spells_seq(self.rules, m, after, u);
        tokens::lemma_spells_one(self.rules, m, Symbol::Terminal(t), seq![t]);
        tokens::lemma_spells_seq_join(
            self.rules,
            m,
            after,
            seq![Symbol::Terminal(t)],
            u,
            seq![t],
        );
        assert(after + seq![Symbol::Terminal(t)] =~= longer);
        assert(u + seq![t] =~= u.push(t));
        assert forall|x: int| 0 <= x < longer.len() implies lr::goes(
            self,
            #[trigger] higher[x],
            longer[x],
            higher[x + 1],
        ) by {
            if x < after.len() {
                assert(lr::goes(self, settled[x], after[x], settled[x + 1]));
            } else {
                assert(settled.last() == higher[x]);
            }
        }
        longer
    }

    /// What led to a stack can be read on to a whole input.
    proof fn lemma_carried_viable(&self, stack: Seq<u32>, symbols: Seq<Symbol>, u: Seq<u32>) -> (rest:
        Seq<u32>)
        requires
            self.sound(),
            all_productive(self.rules),
            self.carries(stack, symbols, u),
        ensures
            exists|k: nat| tokens::spells_seq(self.rules, k, self.rules.last().rhs, u + rest),
    {
        let top = stack.last();
        self.lemma_sound_based(top);
        assert(top < self.items.len()) by {
            if symbols.len() > 0 {
                let x = symbols.len() - 1;
                assert(lr::goes(self, stack[x], symbols[x], stack[x + 1]));
                self.lemma_sound_goes(stack[x], symbols[x], stack[x + 1]);
            }
        }
        let item = choose|item: Lr1Item| #[trigger] self.has(top, item);
        self.lemma_sound_has(top, item);
        assert(exists|n: nat| lr::based(self, top, n, item));
        let n = choose|n: nat| lr::based(self, top, n, item);
        let (k, v) = lemma_rest_spells(self.rules, item.production as int, item.dot as int);
        let rest = self.lemma_stack_viable(stack, symbols, u, n, item, v);
        assert(u + v + rest =~= u + (v + rest));
        v + rest
    }
}

/// Tokens that can be read on to a whole input begin a text of the language.
proof fn lemma_tokens_viable(recognizer: &LalrRecognizer, h: Seq<u8>, u: Seq<u32>, more: Seq<u32>) -> (rest:
    Seq<u8>)
    requires
        recognizer.compiled.exact(),
        recognizer.compiled.grammar.worded(),
        tokens::lexes(recognizer.compiled.grammar.lex(), u, h, 0, h.len() as int),
        exists|k: nat|
            tokens::spells_seq(
                recognizer.compiled.rules(),
                k,
                recognizer.compiled.rules().last().rhs,
                u + more,
            ),
    ensures
        recognizer.compiled.grammar.generates(h + rest),
{
    let grammar = recognizer.compiled.grammar;
    let rules = recognizer.compiled.rules();
    let lex = grammar.lex();
    let symbol = Symbol::Nonterminal(grammar.start);
    let k = choose|k: nat| tokens::spells_seq(rules, k, rules.last().rhs, u + more);
    assert(rules.last().rhs =~= seq![symbol]);
    lemma_rules_within(&*grammar, lalr::augmented_rule(&*grammar));
    lemma_spelled_within(rules, grammar.terminals@.len(), k, seq![symbol], u + more);
    assert forall|i: int| 0 <= i < more.len() implies #[trigger] more[i]
        < grammar.terminals@.len() by {
        assert((u + more)[u.len() + i] == more[i]);
    }
    let rest = lemma_words(&*grammar, more);
    lemma_lexes_concat(lex, u, h, more, rest);
    tokens::lemma_spells_one(rules, k, symbol, u + more);
    let w = h + rest;
    tokens::lemma_spells_derives(rules, lex, k, symbol, u + more, w, 0, w.len() as int);
    lalr_recognizer::lemma_plain_derives(&*grammar, k, symbol, w, 0, w.len() as int);
    rest
}

impl Machine {
    /// A state but the first has an item behind whose dot something was read.
    proof fn lemma_kernel(&self, s: u32, n: nat, item: Lr1Item) -> (kernel: Lr1Item)
        requires
            s > 0,
            lr::based(self, s, n, item),
        ensures
            self.has(s, kernel),
            kernel.dot > 0,
        decreases n,
    {
        if item.dot > 0 {
            item
        } else {
            let before = choose|before: Lr1Item| #[trigger]
                self.has(s, before) && lr::after_dot(self.rules, before) == Some(
                    Symbol::Nonterminal(self.rules[item.production as int].lhs),
                ) && lr::based(self, s, (n - 1) as nat, before);
            self.lemma_kernel(s, (n - 1) as nat, before)
        }
    }

    /// A terminal that is shifted stands in a rule.
    proof fn lemma_shift_in_rule(&self, s: u32, t: u32, next: u32) -> (place: (int, int))
        requires
            self.sound(),
            (self.actions)(s, Lookahead::Terminal(t)) == Some(Action::Shift(next)),
        ensures
            0 <= place.0 < self.rules.len(),
            0 <= place.1 < self.rules[place.0].rhs.len(),
            self.rules[place.0].rhs[place.1] == Symbol::Terminal(t),
    {
        reveal(Machine::sound);
        assert(lr::goes(self, s, Symbol::Terminal(t), next));
        assert(self.goes_soundly(s, Symbol::Terminal(t), next));
        assert(lr::inhabited(self, next));
        let item = choose|item: Lr1Item| #[trigger] self.has(next, item);
        let n = choose|n: nat| lr::based(self, next, n, item);
        let kernel = self.lemma_kernel(next, n, item);
        assert(self.has(next, kernel));
        (kernel.production as int, kernel.dot - 1)
    }
}

/// Tables that have read something, or can, are those of a grammar with productions.
proof fn lemma_read_has_productions(recognizer: &LalrRecognizer, h: Seq<u8>)
    requires
        recognizer.compiled.exact(),
        recognizer.recognizes(h),
        h.len() > 0 || recognizer.can_start(),
    ensures
        recognizer.compiled.grammar.productions@.len() > 0,
{
    let compiled = *recognizer.compiled;
    let machine = compiled.machine();
    lalr_recognizer::lemma_machine(&compiled);
    let (u, k) = choose|u: Seq<u32>, k: int| recognizer.split(h, u, k);
    let (stack, t, next) = if h.len() == 0 {
        let t = choose|t: u32|
            t < recognizer.terminals().len() && #[trigger] lalr_recognizer::startable(
                machine,
                recognizer.stack@,
                t,
            );
        let end = choose|end: Seq<u32>| #[trigger]
            lalr_recognizer::shift_ready(machine, recognizer.stack@, t, end);
        (end, t, machine.act(end, Lookahead::Terminal(t))->0->Shift_0)
    } else if recognizer.candidates@.len() == 0 {
        let before = choose|before: Seq<u32>| #[trigger]
            machine.shifts(before, u.last(), recognizer.stack@) && machine.after(
                u.drop_last(),
                before,
            );
        (recognizer.stack@.drop_last(), u.last(), recognizer.stack@.last())
    } else {
        let candidate = recognizer.candidates@[0];
        assert(lalr_recognizer::candidate_ok(
            machine,
            recognizer.terminals(),
            recognizer.stack@,
            h.skip(k),
            candidate,
        ));
        (candidate.stack@, candidate.terminal, candidate.shift)
    };
    assert(machine.act(stack, Lookahead::Terminal(t)) == Some(Action::Shift(next)));
    let (p, i) = machine.lemma_shift_in_rule(stack.last(), t, next);
    assert(machine.rules == compiled.grammar.rules().push(lalr::augmented_rule(&*compiled.grammar)));
    if compiled.grammar.productions@.len() == 0 {
        assert(compiled.grammar.rules().len() == 0);
        assert(machine.rules[p] == lalr::augmented_rule(&*compiled.grammar));
        assert(machine.rules[p].rhs[i] == Symbol::Nonterminal(compiled.grammar.start));
    }
}

/// What tables have read begins some text of a grammar with productions.
proof fn lemma_tables_viable(recognizer: &LalrRecognizer, h: Seq<u8>) -> (rest: Seq<u8>)
    requires
        recognizer.compiled.exact(),
        recognizer.recognizes(h),
        recognizer.compiled.grammar.fertile(),
        recognizer.compiled.grammar.worded(),
        recognizer.compiled.grammar.productions@.len() > 0,
    ensures
        recognizer.compiled.grammar.generates(h + rest),
{
    let compiled = *recognizer.compiled;
    let grammar = compiled.grammar;
    let lex = grammar.lex();
    let machine = compiled.machine();
    lalr_recognizer::lemma_machine(&compiled);
    lemma_all_productive(&*grammar, lalr::augmented_rule(&*grammar));
    let (u, k) = choose|u: Seq<u32>, k: int| recognizer.split(h, u, k);
    let symbols = machine.lemma_after_carries(u, recognizer.stack@);
    if recognizer.candidates@.len() == 0 {
        let more = machine.lemma_carried_viable(recognizer.stack@, symbols, u);
        lemma_tokens_viable(recognizer, h, u, more)
    } else {
        let candidate = recognizer.candidates@[0];
        let r = h.skip(k);
        assert(lalr_recognizer::candidate_ok(
            machine,
            recognizer.terminals(),
            recognizer.stack@,
            r,
            candidate,
        ));
        let t = candidate.terminal;
        let stack = candidate.stack@.push(candidate.shift);
        let v = u.push(t);
        let longer = machine.lemma_shift_carries(
            recognizer.stack@,
            symbols,
            u,
            t,
            candidate.stack@,
            candidate.shift,
        );
        let more = machine.lemma_carried_viable(stack, longer, v);
        let terminal = grammar.terminals@[t as int];
        let tail = lemma_live_completes(terminal, r);
        let word = r + tail;
        assert(word.subrange(0, word.len() as int) =~= word);
        tokens::lemma_lexes_one(lex, t, word, 0, word.len() as int);
        let front = h.take(k);
        lalr_recognizer::lemma_lexes_prefix(lex, u, h, front, 0, k);
        lemma_lexes_concat(lex, u, front, seq![t], word);
        assert(u + seq![t] =~= v);
        assert(front + word =~= h + tail);
        let rest = lemma_tokens_viable(recognizer, h + tail, v, more);
        assert((h + tail) + rest =~= h + (tail + rest));
        tail + rest
    }
}

/// What tables have read begins some text of the language, where every nonterminal has a derivation
/// tree and every terminal a word. Where nothing was read, a token has to be able to start, or there
/// have to be productions.
pub proof fn law_tables_read_viable(recognizer: &LalrRecognizer, h: Seq<u8>) -> (rest: Seq<u8>)
    requires
        recognizer.compiled.exact(),
        recognizer.recognizes(h),
        recognizer.compiled.grammar.fertile(),
        recognizer.compiled.grammar.worded(),
        recognizer.compiled.grammar.productions@.len() > 0 || h.len() > 0 || recognizer.can_start(),
    ensures
        recognizer.compiled.grammar.generates(h + rest),
{
    if recognizer.compiled.grammar.productions@.len() == 0 {
        lemma_read_has_productions(recognizer, h);
    }
    lemma_tables_viable(recognizer, h)
}

} // verus!
