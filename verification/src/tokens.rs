//! Derivation over strings of terminals, and how it relates to derivation over bytes.

use vstd::prelude::*;

use crate::derivation;
use crate::derivation::{Lex, Rule};
use crate::symbol::Symbol;

verus! {

/// Whether `symbol` derives the terminals `u` by a tree of at most `n` nested productions.
pub open spec fn spells(rules: Seq<Rule>, n: nat, symbol: Symbol, u: Seq<u32>) -> bool
    decreases n, 0nat,
{
    match symbol {
        Symbol::Terminal(t) => u == seq![t],
        Symbol::Nonterminal(a) => n > 0 && exists|p: int|
            #![trigger rules[p]]
            0 <= p < rules.len() && rules[p].lhs == a && spells_seq(
                rules,
                (n - 1) as nat,
                rules[p].rhs,
                u,
            ),
    }
}

/// Whether the symbols, one after the other, derive the terminals `u`.
pub open spec fn spells_seq(rules: Seq<Rule>, n: nat, symbols: Seq<Symbol>, u: Seq<u32>) -> bool
    decreases n, symbols.len(),
{
    if symbols.len() == 0 {
        u.len() == 0
    } else {
        exists|m: int| #[trigger]
            derivation::at(m) && 0 <= m <= u.len() && spells(rules, n, symbols[0], u.take(m))
                && spells_seq(rules, n, symbols.skip(1), u.skip(m))
    }
}

/// Whether the terminals `u` match `w[i..j]`, one after the other.
pub open spec fn lexes(lex: Lex, u: Seq<u32>, w: Seq<u8>, i: int, j: int) -> bool
    decreases u.len(),
{
    if u.len() == 0 {
        0 <= i == j <= w.len()
    } else {
        exists|k: int| #[trigger]
            derivation::at(k) && 0 <= i <= k <= w.len() && lex(u[0], w.subrange(i, k)) && lexes(
                lex,
                u.skip(1),
                w,
                k,
                j,
            )
    }
}

pub proof fn lemma_spells_mono(rules: Seq<Rule>, n: nat, m: nat, symbol: Symbol, u: Seq<u32>)
    requires
        n <= m,
        spells(rules, n, symbol, u),
    ensures
        spells(rules, m, symbol, u),
    decreases n, 0nat,
{
    if let Symbol::Nonterminal(a) = symbol {
        let p = choose|p: int|
            #![trigger rules[p]]
            0 <= p < rules.len() && rules[p].lhs == a && spells_seq(
                rules,
                (n - 1) as nat,
                rules[p].rhs,
                u,
            );
        lemma_spells_seq_mono(rules, (n - 1) as nat, (m - 1) as nat, rules[p].rhs, u);
    }
}

pub proof fn lemma_spells_seq_mono(
    rules: Seq<Rule>,
    n: nat,
    m: nat,
    symbols: Seq<Symbol>,
    u: Seq<u32>,
)
    requires
        n <= m,
        spells_seq(rules, n, symbols, u),
    ensures
        spells_seq(rules, m, symbols, u),
    decreases n, symbols.len(),
{
    if symbols.len() > 0 {
        let k = choose|k: int| #[trigger]
            derivation::at(k) && 0 <= k <= u.len() && spells(rules, n, symbols[0], u.take(k))
                && spells_seq(rules, n, symbols.skip(1), u.skip(k));
        lemma_spells_mono(rules, n, m, symbols[0], u.take(k));
        lemma_spells_seq_mono(rules, n, m, symbols.skip(1), u.skip(k));
        assert(derivation::at(k));
    }
}

/// Derivations join.
pub proof fn lemma_spells_seq_join(
    rules: Seq<Rule>,
    n: nat,
    left: Seq<Symbol>,
    right: Seq<Symbol>,
    u: Seq<u32>,
    v: Seq<u32>,
)
    requires
        spells_seq(rules, n, left, u),
        spells_seq(rules, n, right, v),
    ensures
        spells_seq(rules, n, left + right, u + v),
    decreases left.len(),
{
    let all = left + right;
    let word = u + v;
    if left.len() == 0 {
        assert(all =~= right);
        assert(word =~= v);
    } else {
        let k = choose|k: int| #[trigger]
            derivation::at(k) && 0 <= k <= u.len() && spells(rules, n, left[0], u.take(k))
                && spells_seq(rules, n, left.skip(1), u.skip(k));
        lemma_spells_seq_join(rules, n, left.skip(1), right, u.skip(k), v);
        assert(left.skip(1) + right =~= all.skip(1));
        assert(u.skip(k) + v =~= word.skip(k));
        assert(word.take(k) =~= u.take(k));
        assert(all[0] == left[0]);
        assert(derivation::at(k));
    }
}

/// A derivation splits.
pub proof fn lemma_spells_seq_split(
    rules: Seq<Rule>,
    n: nat,
    left: Seq<Symbol>,
    right: Seq<Symbol>,
    word: Seq<u32>,
) -> (m: int)
    requires
        spells_seq(rules, n, left + right, word),
    ensures
        0 <= m <= word.len(),
        spells_seq(rules, n, left, word.take(m)),
        spells_seq(rules, n, right, word.skip(m)),
    decreases left.len(),
{
    let all = left + right;
    if left.len() == 0 {
        assert(all =~= right);
        assert(word.skip(0) =~= word);
        0
    } else {
        let k = choose|k: int| #[trigger]
            derivation::at(k) && 0 <= k <= word.len() && spells(rules, n, all[0], word.take(k))
                && spells_seq(rules, n, all.skip(1), word.skip(k));
        assert(left.skip(1) + right =~= all.skip(1));
        let m = lemma_spells_seq_split(rules, n, left.skip(1), right, word.skip(k));
        let u = word.take(k + m);
        assert(u.take(k) =~= word.take(k));
        assert(u.skip(k) =~= word.skip(k).take(m));
        assert(word.skip(k + m) =~= word.skip(k).skip(m));
        assert(all[0] == left[0]);
        assert(derivation::at(k));
        k + m
    }
}

/// One symbol as a sequence.
pub proof fn lemma_spells_one(rules: Seq<Rule>, n: nat, symbol: Symbol, u: Seq<u32>)
    ensures
        spells(rules, n, symbol, u) <==> spells_seq(rules, n, seq![symbol], u),
{
    let one = seq![symbol];
    assert(one.skip(1).len() == 0);
    if spells(rules, n, symbol, u) {
        let m = u.len() as int;
        assert(u.take(m) =~= u);
        assert(u.skip(m).len() == 0);
        assert(spells_seq(rules, n, one.skip(1), u.skip(m)));
        assert(derivation::at(m) && spells(rules, n, one[0], u.take(m)));
    }
    if spells_seq(rules, n, one, u) {
        let m = choose|m: int| #[trigger]
            derivation::at(m) && 0 <= m <= u.len() && spells(rules, n, one[0], u.take(m))
                && spells_seq(rules, n, one.skip(1), u.skip(m));
        assert(u.take(m) =~= u);
    }
}

pub proof fn lemma_lexes_bounds(lex: Lex, u: Seq<u32>, w: Seq<u8>, i: int, j: int)
    requires
        lexes(lex, u, w, i, j),
    ensures
        0 <= i <= j <= w.len(),
    decreases u.len(),
{
    if u.len() > 0 {
        let k = choose|k: int| #[trigger]
            derivation::at(k) && 0 <= i <= k <= w.len() && lex(u[0], w.subrange(i, k)) && lexes(
                lex,
                u.skip(1),
                w,
                k,
                j,
            );
        lemma_lexes_bounds(lex, u.skip(1), w, k, j);
    }
}

pub proof fn lemma_lexes_join(
    lex: Lex,
    u: Seq<u32>,
    v: Seq<u32>,
    w: Seq<u8>,
    i: int,
    k: int,
    j: int,
)
    requires
        lexes(lex, u, w, i, k),
        lexes(lex, v, w, k, j),
    ensures
        lexes(lex, u + v, w, i, j),
    decreases u.len(),
{
    let all = u + v;
    if u.len() == 0 {
        assert(all =~= v);
    } else {
        let m = choose|m: int| #[trigger]
            derivation::at(m) && 0 <= i <= m <= w.len() && lex(u[0], w.subrange(i, m)) && lexes(
                lex,
                u.skip(1),
                w,
                m,
                k,
            );
        lemma_lexes_join(lex, u.skip(1), v, w, m, k, j);
        assert(u.skip(1) + v =~= all.skip(1));
        assert(all[0] == u[0]);
        assert(derivation::at(m));
    }
}

pub proof fn lemma_lexes_split(
    lex: Lex,
    u: Seq<u32>,
    v: Seq<u32>,
    w: Seq<u8>,
    i: int,
    j: int,
) -> (k: int)
    requires
        lexes(lex, u + v, w, i, j),
    ensures
        lexes(lex, u, w, i, k),
        lexes(lex, v, w, k, j),
    decreases u.len(),
{
    let all = u + v;
    lemma_lexes_bounds(lex, all, w, i, j);
    if u.len() == 0 {
        assert(all =~= v);
        i
    } else {
        let m = choose|m: int| #[trigger]
            derivation::at(m) && 0 <= i <= m <= w.len() && lex(all[0], w.subrange(i, m)) && lexes(
                lex,
                all.skip(1),
                w,
                m,
                j,
            );
        assert(u.skip(1) + v =~= all.skip(1));
        let k = lemma_lexes_split(lex, u.skip(1), v, w, m, j);
        assert(all[0] == u[0]);
        assert(derivation::at(m));
        k
    }
}

/// One terminal as a sequence.
pub proof fn lemma_lexes_one(lex: Lex, t: u32, w: Seq<u8>, i: int, j: int)
    ensures
        lexes(lex, seq![t], w, i, j) <==> 0 <= i <= j <= w.len() && lex(t, w.subrange(i, j)),
{
    let one = seq![t];
    assert(one.skip(1).len() == 0);
    if lexes(lex, one, w, i, j) {
        let k = choose|k: int| #[trigger]
            derivation::at(k) && 0 <= i <= k <= w.len() && lex(one[0], w.subrange(i, k)) && lexes(
                lex,
                one.skip(1),
                w,
                k,
                j,
            );
        assert(k == j);
    }
    if 0 <= i <= j <= w.len() && lex(t, w.subrange(i, j)) {
        assert(derivation::at(j));
        assert(lexes(lex, one.skip(1), w, j, j));
    }
}

/// What derives bytes derives terminals that match them.
pub proof fn lemma_derives_spells(
    rules: Seq<Rule>,
    lex: Lex,
    n: nat,
    symbol: Symbol,
    w: Seq<u8>,
    i: int,
    j: int,
) -> (u: Seq<u32>)
    requires
        derivation::derives(rules, lex, n, symbol, w, i, j),
    ensures
        spells(rules, n, symbol, u),
        lexes(lex, u, w, i, j),
    decreases n, 0nat,
{
    match symbol {
        Symbol::Terminal(t) => {
            lemma_lexes_one(lex, t, w, i, j);
            seq![t]
        },
        Symbol::Nonterminal(a) => {
            let p = choose|p: int|
                #![trigger rules[p]]
                0 <= p < rules.len() && rules[p].lhs == a && derivation::derives_seq(
                    rules,
                    lex,
                    (n - 1) as nat,
                    rules[p].rhs,
                    w,
                    i,
                    j,
                );
            let u = lemma_derives_seq_spells(rules, lex, (n - 1) as nat, rules[p].rhs, w, i, j);
            u
        },
    }
}

pub proof fn lemma_derives_seq_spells(
    rules: Seq<Rule>,
    lex: Lex,
    n: nat,
    symbols: Seq<Symbol>,
    w: Seq<u8>,
    i: int,
    j: int,
) -> (u: Seq<u32>)
    requires
        derivation::derives_seq(rules, lex, n, symbols, w, i, j),
    ensures
        spells_seq(rules, n, symbols, u),
        lexes(lex, u, w, i, j),
    decreases n, symbols.len(),
{
    if symbols.len() == 0 {
        Seq::empty()
    } else {
        let k = choose|k: int| #[trigger]
            derivation::at(k) && derivation::derives_seq(
                rules,
                lex,
                n,
                symbols.drop_last(),
                w,
                i,
                k,
            ) && derivation::derives(rules, lex, n, symbols.last(), w, k, j);
        let u = lemma_derives_seq_spells(rules, lex, n, symbols.drop_last(), w, i, k);
        let v = lemma_derives_spells(rules, lex, n, symbols.last(), w, k, j);
        lemma_lexes_join(lex, u, v, w, i, k, j);
        lemma_spells_one(rules, n, symbols.last(), v);
        lemma_spells_seq_join(rules, n, symbols.drop_last(), seq![symbols.last()], u, v);
        assert(symbols.drop_last() + seq![symbols.last()] =~= symbols);
        u + v
    }
}

/// What derives terminals derives the bytes that they match.
pub proof fn lemma_spells_derives(
    rules: Seq<Rule>,
    lex: Lex,
    n: nat,
    symbol: Symbol,
    u: Seq<u32>,
    w: Seq<u8>,
    i: int,
    j: int,
)
    requires
        spells(rules, n, symbol, u),
        lexes(lex, u, w, i, j),
    ensures
        derivation::derives(rules, lex, n, symbol, w, i, j),
    decreases n, 0nat,
{
    match symbol {
        Symbol::Terminal(t) => {
            lemma_lexes_one(lex, t, w, i, j);
        },
        Symbol::Nonterminal(a) => {
            let p = choose|p: int|
                #![trigger rules[p]]
                0 <= p < rules.len() && rules[p].lhs == a && spells_seq(
                    rules,
                    (n - 1) as nat,
                    rules[p].rhs,
                    u,
                );
            lemma_spells_seq_derives(rules, lex, (n - 1) as nat, rules[p].rhs, u, w, i, j);
        },
    }
}

pub proof fn lemma_spells_seq_derives(
    rules: Seq<Rule>,
    lex: Lex,
    n: nat,
    symbols: Seq<Symbol>,
    u: Seq<u32>,
    w: Seq<u8>,
    i: int,
    j: int,
)
    requires
        spells_seq(rules, n, symbols, u),
        lexes(lex, u, w, i, j),
    ensures
        derivation::derives_seq(rules, lex, n, symbols, w, i, j),
    decreases n, symbols.len(),
{
    if symbols.len() > 0 {
        assert(symbols.drop_last() + seq![symbols.last()] =~= symbols);
        let m = lemma_spells_seq_split(
            rules,
            n,
            symbols.drop_last(),
            seq![symbols.last()],
            u,
        );
        assert(u.take(m) + u.skip(m) =~= u);
        let k = lemma_lexes_split(lex, u.take(m), u.skip(m), w, i, j);
        lemma_spells_one(rules, n, symbols.last(), u.skip(m));
        lemma_spells_seq_derives(rules, lex, n, symbols.drop_last(), u.take(m), w, i, k);
        lemma_spells_derives(rules, lex, n, symbols.last(), u.skip(m), w, k, j);
        assert(derivation::at(k));
    }
}

} // verus!
