//! Context-free derivation over the positions of a byte string.

use vstd::prelude::*;

use crate::symbol::Symbol;

verus! {

/// A production, as a mathematical value.
pub struct Rule {
    pub lhs: u32,
    pub rhs: Seq<Symbol>,
}

/// The languages of the terminals: whether a terminal matches a byte string.
pub type Lex = spec_fn(u32, Seq<u8>) -> bool;

/// Marks a position at which a derivation is split.
pub open spec fn at(k: int) -> bool {
    true
}

/// Whether `symbol` derives `w[i..j]` by a tree of at most `n` nested productions.
pub open spec fn derives(
    rules: Seq<Rule>,
    lex: Lex,
    n: nat,
    symbol: Symbol,
    w: Seq<u8>,
    i: int,
    j: int,
) -> bool
    decreases n, 0nat,
{
    match symbol {
        Symbol::Terminal(t) => 0 <= i <= j <= w.len() && lex(t, w.subrange(i, j)),
        Symbol::Nonterminal(a) => n > 0 && exists|p: int|
            #![trigger rules[p]]
            0 <= p < rules.len() && rules[p].lhs == a && derives_seq(
                rules,
                lex,
                (n - 1) as nat,
                rules[p].rhs,
                w,
                i,
                j,
            ),
    }
}

/// Whether the symbols, one after the other, derive `w[i..j]`.
pub open spec fn derives_seq(
    rules: Seq<Rule>,
    lex: Lex,
    n: nat,
    symbols: Seq<Symbol>,
    w: Seq<u8>,
    i: int,
    j: int,
) -> bool
    decreases n, symbols.len(),
{
    if symbols.len() == 0 {
        0 <= i == j <= w.len()
    } else {
        exists|k: int| #[trigger]
            at(k) && derives_seq(rules, lex, n, symbols.drop_last(), w, i, k) && derives(
                rules,
                lex,
                n,
                symbols.last(),
                w,
                k,
                j,
            )
    }
}

/// Whether `symbol` derives `w[i..j]`.
pub open spec fn yields(
    rules: Seq<Rule>,
    lex: Lex,
    symbol: Symbol,
    w: Seq<u8>,
    i: int,
    j: int,
) -> bool {
    exists|n: nat| derives(rules, lex, n, symbol, w, i, j)
}

/// Whether the symbols derive `w[i..j]`.
pub open spec fn yields_seq(
    rules: Seq<Rule>,
    lex: Lex,
    symbols: Seq<Symbol>,
    w: Seq<u8>,
    i: int,
    j: int,
) -> bool {
    exists|n: nat| derives_seq(rules, lex, n, symbols, w, i, j)
}

/// The language of a nonterminal: whether it derives the whole of `w`.
pub open spec fn generates(rules: Seq<Rule>, lex: Lex, nonterminal: u32, w: Seq<u8>) -> bool {
    yields(rules, lex, Symbol::Nonterminal(nonterminal), w, 0, w.len() as int)
}

/// A derivation stays within the string.
pub proof fn lemma_derives_bounds(
    rules: Seq<Rule>,
    lex: Lex,
    n: nat,
    symbol: Symbol,
    w: Seq<u8>,
    i: int,
    j: int,
)
    requires
        derives(rules, lex, n, symbol, w, i, j),
    ensures
        0 <= i <= j <= w.len(),
    decreases n, 0nat,
{
    if let Symbol::Nonterminal(a) = symbol {
        let p = choose|p: int|
            #![trigger rules[p]]
            0 <= p < rules.len() && rules[p].lhs == a && derives_seq(
                rules,
                lex,
                (n - 1) as nat,
                rules[p].rhs,
                w,
                i,
                j,
            );
        lemma_derives_seq_bounds(rules, lex, (n - 1) as nat, rules[p].rhs, w, i, j);
    }
}

/// A derivation of several symbols stays within the string.
pub proof fn lemma_derives_seq_bounds(
    rules: Seq<Rule>,
    lex: Lex,
    n: nat,
    symbols: Seq<Symbol>,
    w: Seq<u8>,
    i: int,
    j: int,
)
    requires
        derives_seq(rules, lex, n, symbols, w, i, j),
    ensures
        0 <= i <= j <= w.len(),
    decreases n, symbols.len(),
{
    if symbols.len() > 0 {
        let k = choose|k: int| #[trigger]
            at(k) && derives_seq(rules, lex, n, symbols.drop_last(), w, i, k) && derives(
                rules,
                lex,
                n,
                symbols.last(),
                w,
                k,
                j,
            );
        lemma_derives_seq_bounds(rules, lex, n, symbols.drop_last(), w, i, k);
        lemma_derives_bounds(rules, lex, n, symbols.last(), w, k, j);
    }
}

/// A derivation stays one when more nesting is allowed.
pub proof fn lemma_derives_mono(
    rules: Seq<Rule>,
    lex: Lex,
    n: nat,
    m: nat,
    symbol: Symbol,
    w: Seq<u8>,
    i: int,
    j: int,
)
    requires
        derives(rules, lex, n, symbol, w, i, j),
        n <= m,
    ensures
        derives(rules, lex, m, symbol, w, i, j),
    decreases n, 0nat,
{
    if let Symbol::Nonterminal(a) = symbol {
        let p = choose|p: int|
            #![trigger rules[p]]
            0 <= p < rules.len() && rules[p].lhs == a && derives_seq(
                rules,
                lex,
                (n - 1) as nat,
                rules[p].rhs,
                w,
                i,
                j,
            );
        lemma_derives_seq_mono(
            rules,
            lex,
            (n - 1) as nat,
            (m - 1) as nat,
            rules[p].rhs,
            w,
            i,
            j,
        );
    }
}

/// A derivation of several symbols stays one when more nesting is allowed.
pub proof fn lemma_derives_seq_mono(
    rules: Seq<Rule>,
    lex: Lex,
    n: nat,
    m: nat,
    symbols: Seq<Symbol>,
    w: Seq<u8>,
    i: int,
    j: int,
)
    requires
        derives_seq(rules, lex, n, symbols, w, i, j),
        n <= m,
    ensures
        derives_seq(rules, lex, m, symbols, w, i, j),
    decreases n, symbols.len(),
{
    if symbols.len() > 0 {
        let k = choose|k: int| #[trigger]
            at(k) && derives_seq(rules, lex, n, symbols.drop_last(), w, i, k) && derives(
                rules,
                lex,
                n,
                symbols.last(),
                w,
                k,
                j,
            );
        lemma_derives_seq_mono(rules, lex, n, m, symbols.drop_last(), w, i, k);
        lemma_derives_mono(rules, lex, n, m, symbols.last(), w, k, j);
    }
}

/// Symbols that derive one after the other derive together.
pub proof fn lemma_yields_seq_push(
    rules: Seq<Rule>,
    lex: Lex,
    symbols: Seq<Symbol>,
    symbol: Symbol,
    w: Seq<u8>,
    i: int,
    k: int,
    j: int,
)
    requires
        yields_seq(rules, lex, symbols, w, i, k),
        yields(rules, lex, symbol, w, k, j),
    ensures
        yields_seq(rules, lex, symbols.push(symbol), w, i, j),
{
    let n1 = choose|n: nat| derives_seq(rules, lex, n, symbols, w, i, k);
    let n2 = choose|n: nat| derives(rules, lex, n, symbol, w, k, j);
    let n = if n1 < n2 {
        n2
    } else {
        n1
    };
    lemma_derives_seq_mono(rules, lex, n1, n, symbols, w, i, k);
    lemma_derives_mono(rules, lex, n2, n, symbol, w, k, j);
    let all = symbols.push(symbol);
    assert(all.drop_last() =~= symbols);
    assert(at(k) && derives_seq(rules, lex, n, all.drop_last(), w, i, k));
    assert(derives_seq(rules, lex, n, all, w, i, j));
}

/// The last symbol of a derivation splits off.
pub proof fn lemma_yields_seq_pop(
    rules: Seq<Rule>,
    lex: Lex,
    symbols: Seq<Symbol>,
    w: Seq<u8>,
    i: int,
    j: int,
) -> (k: int)
    requires
        yields_seq(rules, lex, symbols, w, i, j),
        symbols.len() > 0,
    ensures
        yields_seq(rules, lex, symbols.drop_last(), w, i, k),
        yields(rules, lex, symbols.last(), w, k, j),
{
    let n = choose|n: nat| derives_seq(rules, lex, n, symbols, w, i, j);
    let k = choose|k: int| #[trigger]
        at(k) && derives_seq(rules, lex, n, symbols.drop_last(), w, i, k) && derives(
            rules,
            lex,
            n,
            symbols.last(),
            w,
            k,
            j,
        );
    k
}

/// The first symbol of a derivation splits off.
pub proof fn lemma_derives_seq_first(
    rules: Seq<Rule>,
    lex: Lex,
    n: nat,
    symbols: Seq<Symbol>,
    w: Seq<u8>,
    i: int,
    j: int,
) -> (k: int)
    requires
        derives_seq(rules, lex, n, symbols, w, i, j),
        symbols.len() > 0,
    ensures
        derives(rules, lex, n, symbols[0], w, i, k),
        derives_seq(rules, lex, n, symbols.skip(1), w, k, j),
    decreases symbols.len(),
{
    let m = choose|m: int| #[trigger]
        at(m) && derives_seq(rules, lex, n, symbols.drop_last(), w, i, m) && derives(
            rules,
            lex,
            n,
            symbols.last(),
            w,
            m,
            j,
        );
    if symbols.len() == 1 {
        assert(symbols.skip(1).len() == 0);
        lemma_derives_bounds(rules, lex, n, symbols.last(), w, m, j);
        j
    } else {
        let k = lemma_derives_seq_first(rules, lex, n, symbols.drop_last(), w, i, m);
        let rest = symbols.skip(1);
        assert(rest.drop_last() =~= symbols.drop_last().skip(1));
        assert(rest.last() == symbols.last());
        assert(at(m));
        k
    }
}

/// A symbol in front of a derivation extends it.
pub proof fn lemma_yields_seq_cons(
    rules: Seq<Rule>,
    lex: Lex,
    symbol: Symbol,
    symbols: Seq<Symbol>,
    w: Seq<u8>,
    i: int,
    k: int,
    j: int,
)
    requires
        yields(rules, lex, symbol, w, i, k),
        yields_seq(rules, lex, symbols, w, k, j),
    ensures
        yields_seq(rules, lex, seq![symbol] + symbols, w, i, j),
    decreases symbols.len(),
{
    let all = seq![symbol] + symbols;
    if symbols.len() == 0 {
        let n = choose|n: nat| derives(rules, lex, n, symbol, w, i, k);
        lemma_derives_bounds(rules, lex, n, symbol, w, i, k);
        assert(derives_seq(rules, lex, 0, Seq::empty(), w, i, i));
        lemma_yields_seq_push(rules, lex, Seq::empty(), symbol, w, i, i, k);
        assert(Seq::empty().push(symbol) =~= all);
    } else {
        let m = lemma_yields_seq_pop(rules, lex, symbols, w, k, j);
        lemma_yields_seq_cons(rules, lex, symbol, symbols.drop_last(), w, i, k, m);
        let front = seq![symbol] + symbols.drop_last();
        lemma_yields_seq_push(rules, lex, front, symbols.last(), w, i, m, j);
        assert(front.push(symbols.last()) =~= all);
    }
}

/// The first symbol of a derivation splits off.
pub proof fn lemma_yields_seq_first(
    rules: Seq<Rule>,
    lex: Lex,
    symbols: Seq<Symbol>,
    w: Seq<u8>,
    i: int,
    j: int,
) -> (k: int)
    requires
        yields_seq(rules, lex, symbols, w, i, j),
        symbols.len() > 0,
    ensures
        yields(rules, lex, symbols[0], w, i, k),
        yields_seq(rules, lex, symbols.skip(1), w, k, j),
{
    let n = choose|n: nat| derives_seq(rules, lex, n, symbols, w, i, j);
    lemma_derives_seq_first(rules, lex, n, symbols, w, i, j)
}

/// A production turns a derivation of its right-hand side into one of its left-hand side.
pub proof fn lemma_yields_rule(
    rules: Seq<Rule>,
    lex: Lex,
    p: int,
    w: Seq<u8>,
    i: int,
    j: int,
)
    requires
        0 <= p < rules.len(),
        yields_seq(rules, lex, rules[p].rhs, w, i, j),
    ensures
        yields(rules, lex, Symbol::Nonterminal(rules[p].lhs), w, i, j),
{
    let n = choose|n: nat| derives_seq(rules, lex, n, rules[p].rhs, w, i, j);
    assert(derives(rules, lex, n + 1, Symbol::Nonterminal(rules[p].lhs), w, i, j));
}

/// A derivation does not depend on the bytes behind it.
pub proof fn lemma_derives_extend(
    rules: Seq<Rule>,
    lex: Lex,
    n: nat,
    symbol: Symbol,
    w: Seq<u8>,
    longer: Seq<u8>,
    i: int,
    j: int,
)
    requires
        w.len() <= longer.len(),
        longer.take(w.len() as int) == w,
        j <= w.len(),
    ensures
        derives(rules, lex, n, symbol, w, i, j) == derives(rules, lex, n, symbol, longer, i, j),
    decreases n, 0nat,
{
    match symbol {
        Symbol::Terminal(t) => {
            if 0 <= i <= j {
                assert(w.subrange(i, j) =~= longer.subrange(i, j)) by {
                    assert forall|x: int| 0 <= x < j - i implies w.subrange(i, j)[x]
                        == longer.subrange(i, j)[x] by {
                        assert(longer.take(w.len() as int)[i + x] == w[i + x]);
                    }
                }
            }
        },
        Symbol::Nonterminal(a) => {
            if n > 0 {
                assert forall|p: int| 0 <= p < rules.len() implies derives_seq(
                    rules,
                    lex,
                    (n - 1) as nat,
                    #[trigger] rules[p].rhs,
                    w,
                    i,
                    j,
                ) == derives_seq(rules, lex, (n - 1) as nat, rules[p].rhs, longer, i, j) by {
                    lemma_derives_seq_extend(
                        rules,
                        lex,
                        (n - 1) as nat,
                        rules[p].rhs,
                        w,
                        longer,
                        i,
                        j,
                    );
                }
            }
        },
    }
}

/// A derivation of several symbols does not depend on the bytes behind it.
pub proof fn lemma_derives_seq_extend(
    rules: Seq<Rule>,
    lex: Lex,
    n: nat,
    symbols: Seq<Symbol>,
    w: Seq<u8>,
    longer: Seq<u8>,
    i: int,
    j: int,
)
    requires
        w.len() <= longer.len(),
        longer.take(w.len() as int) == w,
        j <= w.len(),
    ensures
        derives_seq(rules, lex, n, symbols, w, i, j) == derives_seq(
            rules,
            lex,
            n,
            symbols,
            longer,
            i,
            j,
        ),
    decreases n, symbols.len(),
{
    if symbols.len() > 0 {
        let front = symbols.drop_last();
        if derives_seq(rules, lex, n, symbols, w, i, j) {
            let k = choose|k: int| #[trigger]
                at(k) && derives_seq(rules, lex, n, front, w, i, k) && derives(
                    rules,
                    lex,
                    n,
                    symbols.last(),
                    w,
                    k,
                    j,
                );
            lemma_derives_bounds(rules, lex, n, symbols.last(), w, k, j);
            lemma_derives_seq_extend(rules, lex, n, front, w, longer, i, k);
            lemma_derives_extend(rules, lex, n, symbols.last(), w, longer, k, j);
            assert(at(k) && derives_seq(rules, lex, n, front, longer, i, k));
        }
        if derives_seq(rules, lex, n, symbols, longer, i, j) {
            let k = choose|k: int| #[trigger]
                at(k) && derives_seq(rules, lex, n, front, longer, i, k) && derives(
                    rules,
                    lex,
                    n,
                    symbols.last(),
                    longer,
                    k,
                    j,
                );
            lemma_derives_bounds(rules, lex, n, symbols.last(), longer, k, j);
            lemma_derives_seq_extend(rules, lex, n, front, w, longer, i, k);
            lemma_derives_extend(rules, lex, n, symbols.last(), w, longer, k, j);
            assert(at(k) && derives_seq(rules, lex, n, front, w, i, k));
        }
    }
}

/// A derivation of part of a string is one of that part alone.
pub proof fn lemma_derives_shift(
    rules: Seq<Rule>,
    lex: Lex,
    n: nat,
    symbol: Symbol,
    w: Seq<u8>,
    o: int,
    e: int,
    i: int,
    j: int,
)
    requires
        0 <= o <= i,
        j <= e <= w.len(),
    ensures
        derives(rules, lex, n, symbol, w, i, j) == derives(
            rules,
            lex,
            n,
            symbol,
            w.subrange(o, e),
            i - o,
            j - o,
        ),
    decreases n, 0nat,
{
    let part = w.subrange(o, e);
    match symbol {
        Symbol::Terminal(t) => {
            if i <= j {
                assert(part.subrange(i - o, j - o) =~= w.subrange(i, j));
            }
        },
        Symbol::Nonterminal(a) => {
            if n > 0 {
                assert forall|p: int| 0 <= p < rules.len() implies derives_seq(
                    rules,
                    lex,
                    (n - 1) as nat,
                    #[trigger] rules[p].rhs,
                    w,
                    i,
                    j,
                ) == derives_seq(rules, lex, (n - 1) as nat, rules[p].rhs, part, i - o, j - o) by {
                    lemma_derives_seq_shift(
                        rules,
                        lex,
                        (n - 1) as nat,
                        rules[p].rhs,
                        w,
                        o,
                        e,
                        i,
                        j,
                    );
                }
            }
        },
    }
}

/// A derivation of several symbols over part of a string is one of that part alone.
pub proof fn lemma_derives_seq_shift(
    rules: Seq<Rule>,
    lex: Lex,
    n: nat,
    symbols: Seq<Symbol>,
    w: Seq<u8>,
    o: int,
    e: int,
    i: int,
    j: int,
)
    requires
        0 <= o <= i,
        j <= e <= w.len(),
    ensures
        derives_seq(rules, lex, n, symbols, w, i, j) == derives_seq(
            rules,
            lex,
            n,
            symbols,
            w.subrange(o, e),
            i - o,
            j - o,
        ),
    decreases n, symbols.len(),
{
    let part = w.subrange(o, e);
    if symbols.len() > 0 {
        let front = symbols.drop_last();
        if derives_seq(rules, lex, n, symbols, w, i, j) {
            let k = choose|k: int| #[trigger]
                at(k) && derives_seq(rules, lex, n, front, w, i, k) && derives(
                    rules,
                    lex,
                    n,
                    symbols.last(),
                    w,
                    k,
                    j,
                );
            lemma_derives_bounds(rules, lex, n, symbols.last(), w, k, j);
            lemma_derives_seq_bounds(rules, lex, n, front, w, i, k);
            lemma_derives_seq_shift(rules, lex, n, front, w, o, e, i, k);
            lemma_derives_shift(rules, lex, n, symbols.last(), w, o, e, k, j);
            assert(at(k - o) && derives_seq(rules, lex, n, front, part, i - o, k - o));
        }
        if derives_seq(rules, lex, n, symbols, part, i - o, j - o) {
            let k = choose|k: int| #[trigger]
                at(k) && derives_seq(rules, lex, n, front, part, i - o, k) && derives(
                    rules,
                    lex,
                    n,
                    symbols.last(),
                    part,
                    k,
                    j - o,
                );
            lemma_derives_bounds(rules, lex, n, symbols.last(), part, k, j - o);
            lemma_derives_seq_bounds(rules, lex, n, front, part, i - o, k);
            lemma_derives_seq_shift(rules, lex, n, front, w, o, e, i, k + o);
            lemma_derives_shift(rules, lex, n, symbols.last(), w, o, e, k + o, j);
            assert(at(k + o) && derives_seq(rules, lex, n, front, w, i, k + o));
        }
    }
}

/// What a symbol derives between two positions is what it derives of the part between them.
pub proof fn lemma_yields_shift(
    rules: Seq<Rule>,
    lex: Lex,
    symbol: Symbol,
    w: Seq<u8>,
    i: int,
    j: int,
)
    requires
        0 <= i <= j <= w.len(),
    ensures
        yields(rules, lex, symbol, w, i, j) == yields(
            rules,
            lex,
            symbol,
            w.subrange(i, j),
            0,
            j - i,
        ),
{
    if yields(rules, lex, symbol, w, i, j) {
        let n = choose|n: nat| derives(rules, lex, n, symbol, w, i, j);
        lemma_derives_shift(rules, lex, n, symbol, w, i, j, i, j);
    }
    let part = w.subrange(i, j);
    let len = j - i;
    if yields(rules, lex, symbol, part, 0, len) {
        let n = choose|n: nat| derives(rules, lex, n, symbol, part, 0, len);
        lemma_derives_shift(rules, lex, n, symbol, w, i, j, i, j);
    }
}

/// Whether no symbol of a sequence is the given nonterminal.
pub open spec fn avoids(symbols: Seq<Symbol>, nonterminal: u32) -> bool {
    forall|i: int|
        0 <= i < symbols.len() ==> #[trigger] symbols[i] != Symbol::Nonterminal(nonterminal)
}

/// A production whose left-hand side occurs nowhere adds nothing to the other symbols.
pub proof fn lemma_derives_unused_rule(
    rules: Seq<Rule>,
    lex: Lex,
    extra: Rule,
    n: nat,
    symbol: Symbol,
    w: Seq<u8>,
    i: int,
    j: int,
)
    requires
        forall|p: int| 0 <= p < rules.len() ==> avoids((#[trigger] rules[p]).rhs, extra.lhs),
        symbol != Symbol::Nonterminal(extra.lhs),
    ensures
        derives(rules.push(extra), lex, n, symbol, w, i, j) == derives(
            rules,
            lex,
            n,
            symbol,
            w,
            i,
            j,
        ),
    decreases n, 0nat,
{
    let more = rules.push(extra);
    if let Symbol::Nonterminal(a) = symbol {
        if n > 0 {
            let n1 = (n - 1) as nat;
            if derives(more, lex, n, symbol, w, i, j) {
                let p = choose|p: int|
                    #![trigger more[p]]
                    0 <= p < more.len() && more[p].lhs == a && derives_seq(
                        more,
                        lex,
                        n1,
                        more[p].rhs,
                        w,
                        i,
                        j,
                    );
                assert(p < rules.len());
                assert(more[p] == rules[p]);
                lemma_derives_seq_unused_rule(rules, lex, extra, n1, rules[p].rhs, w, i, j);
                assert(rules[p].lhs == a);
            }
            if derives(rules, lex, n, symbol, w, i, j) {
                let p = choose|p: int|
                    #![trigger rules[p]]
                    0 <= p < rules.len() && rules[p].lhs == a && derives_seq(
                        rules,
                        lex,
                        n1,
                        rules[p].rhs,
                        w,
                        i,
                        j,
                    );
                assert(more[p] == rules[p]);
                lemma_derives_seq_unused_rule(rules, lex, extra, n1, rules[p].rhs, w, i, j);
                assert(more[p].lhs == a);
            }
        }
    }
}

/// A production whose left-hand side occurs nowhere adds nothing to sequences without it.
pub proof fn lemma_derives_seq_unused_rule(
    rules: Seq<Rule>,
    lex: Lex,
    extra: Rule,
    n: nat,
    symbols: Seq<Symbol>,
    w: Seq<u8>,
    i: int,
    j: int,
)
    requires
        forall|p: int| 0 <= p < rules.len() ==> avoids((#[trigger] rules[p]).rhs, extra.lhs),
        avoids(symbols, extra.lhs),
    ensures
        derives_seq(rules.push(extra), lex, n, symbols, w, i, j) == derives_seq(
            rules,
            lex,
            n,
            symbols,
            w,
            i,
            j,
        ),
    decreases n, symbols.len(),
{
    let more = rules.push(extra);
    if symbols.len() > 0 {
        let front = symbols.drop_last();
        assert(avoids(front, extra.lhs));
        assert(symbols[symbols.len() - 1] != Symbol::Nonterminal(extra.lhs));
        if derives_seq(more, lex, n, symbols, w, i, j) {
            let k = choose|k: int| #[trigger]
                at(k) && derives_seq(more, lex, n, front, w, i, k) && derives(
                    more,
                    lex,
                    n,
                    symbols.last(),
                    w,
                    k,
                    j,
                );
            lemma_derives_seq_unused_rule(rules, lex, extra, n, front, w, i, k);
            lemma_derives_unused_rule(rules, lex, extra, n, symbols.last(), w, k, j);
            assert(at(k));
        }
        if derives_seq(rules, lex, n, symbols, w, i, j) {
            let k = choose|k: int| #[trigger]
                at(k) && derives_seq(rules, lex, n, front, w, i, k) && derives(
                    rules,
                    lex,
                    n,
                    symbols.last(),
                    w,
                    k,
                    j,
                );
            lemma_derives_seq_unused_rule(rules, lex, extra, n, front, w, i, k);
            lemma_derives_unused_rule(rules, lex, extra, n, symbols.last(), w, k, j);
            assert(at(k));
        }
    }
}

/// A production whose left-hand side occurs nowhere leaves the other languages as they are.
pub proof fn lemma_yields_unused_rule(
    rules: Seq<Rule>,
    lex: Lex,
    extra: Rule,
    symbol: Symbol,
    w: Seq<u8>,
    i: int,
    j: int,
)
    requires
        forall|p: int| 0 <= p < rules.len() ==> avoids((#[trigger] rules[p]).rhs, extra.lhs),
        symbol != Symbol::Nonterminal(extra.lhs),
    ensures
        yields(rules.push(extra), lex, symbol, w, i, j) == yields(rules, lex, symbol, w, i, j),
{
    if yields(rules.push(extra), lex, symbol, w, i, j) {
        let n = choose|n: nat| derives(rules.push(extra), lex, n, symbol, w, i, j);
        lemma_derives_unused_rule(rules, lex, extra, n, symbol, w, i, j);
    }
    if yields(rules, lex, symbol, w, i, j) {
        let n = choose|n: nat| derives(rules, lex, n, symbol, w, i, j);
        lemma_derives_unused_rule(rules, lex, extra, n, symbol, w, i, j);
    }
}

} // verus!
