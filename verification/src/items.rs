//! The dotted items that an Earley chart holds, as a relation, and what they have to do with
//! derivations.

use vstd::prelude::*;

use crate::derivation;
use crate::derivation::{Lex, Rule};
use crate::symbol::Symbol;

verus! {

/// Marks the production, dot and origin of an item.
pub open spec fn item_at(p: int, dot: int, i: int) -> bool {
    true
}

/// Whether the item `p` with its dot before symbol `dot` and origin `i` belongs to column `j`, by
/// a deduction of depth at most `n`. Production `root` is the one that recognition starts with.
pub open spec fn item_within(
    rules: Seq<Rule>,
    lex: Lex,
    root: int,
    n: nat,
    w: Seq<u8>,
    j: int,
    p: int,
    dot: int,
    i: int,
) -> bool
    decreases n,
{
    &&& n > 0
    &&& 0 <= p < rules.len()
    &&& 0 <= dot <= rules[p].rhs.len()
    &&& 0 <= i <= j <= w.len()
    &&& if dot == 0 {
        i == j && ((p == root && j == 0) || exists|q: int, d: int, k: int| #[trigger]
            item_at(q, d, k) && item_within(rules, lex, root, (n - 1) as nat, w, j, q, d, k) && d
                < rules[q].rhs.len() && rules[q].rhs[d] == Symbol::Nonterminal(rules[p].lhs))
    } else {
        match rules[p].rhs[dot - 1] {
            Symbol::Terminal(t) => exists|k: int| #[trigger]
                derivation::at(k) && k <= j && item_within(
                    rules,
                    lex,
                    root,
                    (n - 1) as nat,
                    w,
                    k,
                    p,
                    dot - 1,
                    i,
                ) && lex(t, w.subrange(k, j)),
            Symbol::Nonterminal(b) => exists|k: int, q: int| #[trigger]
                item_at(q, rules[q].rhs.len() as int, k) && k <= j && item_within(
                    rules,
                    lex,
                    root,
                    (n - 1) as nat,
                    w,
                    k,
                    p,
                    dot - 1,
                    i,
                ) && rules[q].lhs == b && item_within(
                    rules,
                    lex,
                    root,
                    (n - 1) as nat,
                    w,
                    j,
                    q,
                    rules[q].rhs.len() as int,
                    k,
                ),
        }
    }
}

/// Whether the item belongs to column `j`.
pub open spec fn item_in(
    rules: Seq<Rule>,
    lex: Lex,
    root: int,
    w: Seq<u8>,
    j: int,
    p: int,
    dot: int,
    i: int,
) -> bool {
    exists|n: nat| item_within(rules, lex, root, n, w, j, p, dot, i)
}

/// A deduction stays one when more depth is allowed.
pub proof fn lemma_within_mono(
    rules: Seq<Rule>,
    lex: Lex,
    root: int,
    n: nat,
    m: nat,
    w: Seq<u8>,
    j: int,
    p: int,
    dot: int,
    i: int,
)
    requires
        item_within(rules, lex, root, n, w, j, p, dot, i),
        n <= m,
    ensures
        item_within(rules, lex, root, m, w, j, p, dot, i),
    decreases n,
{
    let n1 = (n - 1) as nat;
    let m1 = (m - 1) as nat;
    if dot == 0 {
        if !(p == root && j == 0) {
            let (q, d, k) = choose|q: int, d: int, k: int| #[trigger]
                item_at(q, d, k) && item_within(rules, lex, root, n1, w, j, q, d, k) && d
                    < rules[q].rhs.len() && rules[q].rhs[d] == Symbol::Nonterminal(rules[p].lhs);
            lemma_within_mono(rules, lex, root, n1, m1, w, j, q, d, k);
            assert(item_at(q, d, k));
        }
    } else {
        match rules[p].rhs[dot - 1] {
            Symbol::Terminal(t) => {
                let k = choose|k: int| #[trigger]
                    derivation::at(k) && k <= j && item_within(
                        rules,
                        lex,
                        root,
                        n1,
                        w,
                        k,
                        p,
                        dot - 1,
                        i,
                    ) && lex(t, w.subrange(k, j));
                lemma_within_mono(rules, lex, root, n1, m1, w, k, p, dot - 1, i);
                assert(derivation::at(k));
            },
            Symbol::Nonterminal(b) => {
                let (k, q) = choose|k: int, q: int| #[trigger]
                    item_at(q, rules[q].rhs.len() as int, k) && k <= j && item_within(
                        rules,
                        lex,
                        root,
                        n1,
                        w,
                        k,
                        p,
                        dot - 1,
                        i,
                    ) && rules[q].lhs == b && item_within(
                        rules,
                        lex,
                        root,
                        n1,
                        w,
                        j,
                        q,
                        rules[q].rhs.len() as int,
                        k,
                    );
                lemma_within_mono(rules, lex, root, n1, m1, w, k, p, dot - 1, i);
                lemma_within_mono(
                    rules,
                    lex,
                    root,
                    n1,
                    m1,
                    w,
                    j,
                    q,
                    rules[q].rhs.len() as int,
                    k,
                );
                assert(item_at(q, rules[q].rhs.len() as int, k));
            },
        }
    }
}

/// The starting item belongs to the first column.
pub proof fn lemma_item_start(rules: Seq<Rule>, lex: Lex, root: int, w: Seq<u8>)
    requires
        0 <= root < rules.len(),
    ensures
        item_in(rules, lex, root, w, 0, root, 0, 0),
{
    assert(item_within(rules, lex, root, 1, w, 0, root, 0, 0));
}

/// An item before a nonterminal brings in the productions of that nonterminal.
pub proof fn lemma_item_predict(
    rules: Seq<Rule>,
    lex: Lex,
    root: int,
    w: Seq<u8>,
    j: int,
    q: int,
    d: int,
    k: int,
    p: int,
)
    requires
        item_in(rules, lex, root, w, j, q, d, k),
        0 <= d < rules[q].rhs.len(),
        0 <= p < rules.len(),
        rules[q].rhs[d] == Symbol::Nonterminal(rules[p].lhs),
    ensures
        item_in(rules, lex, root, w, j, p, 0, j),
{
    let n = choose|n: nat| item_within(rules, lex, root, n, w, j, q, d, k);
    assert(item_at(q, d, k));
    assert(item_within(rules, lex, root, n + 1, w, j, p, 0, j));
}

/// An item moves over a terminal that matches.
pub proof fn lemma_item_scan(
    rules: Seq<Rule>,
    lex: Lex,
    root: int,
    w: Seq<u8>,
    k: int,
    j: int,
    p: int,
    dot: int,
    i: int,
    t: u32,
)
    requires
        item_in(rules, lex, root, w, k, p, dot, i),
        0 <= dot < rules[p].rhs.len(),
        rules[p].rhs[dot] == Symbol::Terminal(t),
        k <= j <= w.len(),
        lex(t, w.subrange(k, j)),
    ensures
        item_in(rules, lex, root, w, j, p, dot + 1, i),
{
    let n = choose|n: nat| item_within(rules, lex, root, n, w, k, p, dot, i);
    assert(derivation::at(k));
    assert((dot + 1) - 1 == dot);
    assert(item_within(rules, lex, root, n + 1, w, j, p, dot + 1, i));
}

/// An item moves over a nonterminal that a complete item recognized.
pub proof fn lemma_item_complete(
    rules: Seq<Rule>,
    lex: Lex,
    root: int,
    w: Seq<u8>,
    k: int,
    j: int,
    p: int,
    dot: int,
    i: int,
    q: int,
)
    requires
        item_in(rules, lex, root, w, k, p, dot, i),
        0 <= dot < rules[p].rhs.len(),
        0 <= q < rules.len(),
        rules[p].rhs[dot] == Symbol::Nonterminal(rules[q].lhs),
        item_in(rules, lex, root, w, j, q, rules[q].rhs.len() as int, k),
    ensures
        item_in(rules, lex, root, w, j, p, dot + 1, i),
{
    let len = rules[q].rhs.len() as int;
    let n1 = choose|n: nat| item_within(rules, lex, root, n, w, k, p, dot, i);
    let n2 = choose|n: nat| item_within(rules, lex, root, n, w, j, q, len, k);
    let n = if n1 < n2 {
        n2
    } else {
        n1
    };
    lemma_within_mono(rules, lex, root, n1, n, w, k, p, dot, i);
    lemma_within_mono(rules, lex, root, n2, n, w, j, q, len, k);
    assert(item_at(q, len, k));
    assert((dot + 1) - 1 == dot);
    assert(item_within(rules, lex, root, n + 1, w, j, p, dot + 1, i));
}

/// Membership of a column depends on the bytes up to that column only.
pub proof fn lemma_within_prefix(
    rules: Seq<Rule>,
    lex: Lex,
    root: int,
    n: nat,
    w: Seq<u8>,
    v: Seq<u8>,
    j: int,
    p: int,
    dot: int,
    i: int,
)
    requires
        item_within(rules, lex, root, n, w, j, p, dot, i),
        j <= v.len(),
        w.take(j) == v.take(j),
    ensures
        item_within(rules, lex, root, n, v, j, p, dot, i),
    decreases n,
{
    let n1 = (n - 1) as nat;
    if dot == 0 {
        if !(p == root && j == 0) {
            let (q, d, k) = choose|q: int, d: int, k: int| #[trigger]
                item_at(q, d, k) && item_within(rules, lex, root, n1, w, j, q, d, k) && d
                    < rules[q].rhs.len() && rules[q].rhs[d] == Symbol::Nonterminal(rules[p].lhs);
            lemma_within_prefix(rules, lex, root, n1, w, v, j, q, d, k);
            assert(item_at(q, d, k));
        }
    } else {
        match rules[p].rhs[dot - 1] {
            Symbol::Terminal(t) => {
                let k = choose|k: int| #[trigger]
                    derivation::at(k) && k <= j && item_within(
                        rules,
                        lex,
                        root,
                        n1,
                        w,
                        k,
                        p,
                        dot - 1,
                        i,
                    ) && lex(t, w.subrange(k, j));
                assert(w.take(k) =~= w.take(j).take(k));
                assert(v.take(k) =~= v.take(j).take(k));
                assert(w.subrange(k, j) =~= w.take(j).subrange(k, j));
                assert(v.subrange(k, j) =~= v.take(j).subrange(k, j));
                lemma_within_prefix(rules, lex, root, n1, w, v, k, p, dot - 1, i);
                assert(derivation::at(k));
            },
            Symbol::Nonterminal(b) => {
                let (k, q) = choose|k: int, q: int| #[trigger]
                    item_at(q, rules[q].rhs.len() as int, k) && k <= j && item_within(
                        rules,
                        lex,
                        root,
                        n1,
                        w,
                        k,
                        p,
                        dot - 1,
                        i,
                    ) && rules[q].lhs == b && item_within(
                        rules,
                        lex,
                        root,
                        n1,
                        w,
                        j,
                        q,
                        rules[q].rhs.len() as int,
                        k,
                    );
                assert(w.take(k) =~= w.take(j).take(k));
                assert(v.take(k) =~= v.take(j).take(k));
                lemma_within_prefix(rules, lex, root, n1, w, v, k, p, dot - 1, i);
                lemma_within_prefix(
                    rules,
                    lex,
                    root,
                    n1,
                    w,
                    v,
                    j,
                    q,
                    rules[q].rhs.len() as int,
                    k,
                );
                assert(item_at(q, rules[q].rhs.len() as int, k));
            },
        }
    }
}

/// Membership of a column depends on the bytes up to that column only.
pub proof fn lemma_item_prefix(
    rules: Seq<Rule>,
    lex: Lex,
    root: int,
    w: Seq<u8>,
    v: Seq<u8>,
    j: int,
    p: int,
    dot: int,
    i: int,
)
    requires
        j <= w.len(),
        j <= v.len(),
        w.take(j) == v.take(j),
    ensures
        item_in(rules, lex, root, w, j, p, dot, i) == item_in(
            rules,
            lex,
            root,
            v,
            j,
            p,
            dot,
            i,
        ),
{
    if item_in(rules, lex, root, w, j, p, dot, i) {
        let n = choose|n: nat| item_within(rules, lex, root, n, w, j, p, dot, i);
        lemma_within_prefix(rules, lex, root, n, w, v, j, p, dot, i);
    }
    if item_in(rules, lex, root, v, j, p, dot, i) {
        let n = choose|n: nat| item_within(rules, lex, root, n, v, j, p, dot, i);
        lemma_within_prefix(rules, lex, root, n, v, w, j, p, dot, i);
    }
}

/// An item's origin and column lie in the string, and its dot in its production.
pub proof fn lemma_item_bounds(
    rules: Seq<Rule>,
    lex: Lex,
    root: int,
    w: Seq<u8>,
    j: int,
    p: int,
    dot: int,
    i: int,
)
    requires
        item_in(rules, lex, root, w, j, p, dot, i),
    ensures
        0 <= p < rules.len(),
        0 <= dot <= rules[p].rhs.len(),
        0 <= i <= j <= w.len(),
{
}

/// The symbols before an item's dot derive what lies between its origin and its column.
pub proof fn lemma_item_sound(
    rules: Seq<Rule>,
    lex: Lex,
    root: int,
    n: nat,
    w: Seq<u8>,
    j: int,
    p: int,
    dot: int,
    i: int,
)
    requires
        item_within(rules, lex, root, n, w, j, p, dot, i),
    ensures
        derivation::yields_seq(rules, lex, rules[p].rhs.take(dot), w, i, j),
    decreases n,
{
    let n1 = (n - 1) as nat;
    let before = rules[p].rhs.take(dot);
    if dot == 0 {
        assert(derivation::derives_seq(rules, lex, 0, before, w, i, j));
    } else {
        let shorter = rules[p].rhs.take(dot - 1);
        let symbol = rules[p].rhs[dot - 1];
        assert(before =~= shorter.push(symbol));
        match symbol {
            Symbol::Terminal(t) => {
                let k = choose|k: int| #[trigger]
                    derivation::at(k) && k <= j && item_within(
                        rules,
                        lex,
                        root,
                        n1,
                        w,
                        k,
                        p,
                        dot - 1,
                        i,
                    ) && lex(t, w.subrange(k, j));
                lemma_item_sound(rules, lex, root, n1, w, k, p, dot - 1, i);
                assert(derivation::derives(rules, lex, 0, symbol, w, k, j));
                derivation::lemma_yields_seq_push(rules, lex, shorter, symbol, w, i, k, j);
            },
            Symbol::Nonterminal(b) => {
                let (k, q) = choose|k: int, q: int| #[trigger]
                    item_at(q, rules[q].rhs.len() as int, k) && k <= j && item_within(
                        rules,
                        lex,
                        root,
                        n1,
                        w,
                        k,
                        p,
                        dot - 1,
                        i,
                    ) && rules[q].lhs == b && item_within(
                        rules,
                        lex,
                        root,
                        n1,
                        w,
                        j,
                        q,
                        rules[q].rhs.len() as int,
                        k,
                    );
                lemma_item_sound(rules, lex, root, n1, w, k, p, dot - 1, i);
                lemma_item_sound(rules, lex, root, n1, w, j, q, rules[q].rhs.len() as int, k);
                assert(rules[q].rhs.take(rules[q].rhs.len() as int) =~= rules[q].rhs);
                derivation::lemma_yields_rule(rules, lex, q, w, k, j);
                derivation::lemma_yields_seq_push(rules, lex, shorter, symbol, w, i, k, j);
            },
        }
    }
}

/// An item moves over every symbol that derives what follows it.
pub proof fn lemma_item_over_symbol(
    rules: Seq<Rule>,
    lex: Lex,
    root: int,
    n: nat,
    w: Seq<u8>,
    k: int,
    j: int,
    p: int,
    dot: int,
    i: int,
)
    requires
        item_in(rules, lex, root, w, k, p, dot, i),
        0 <= dot < rules[p].rhs.len(),
        derivation::derives(rules, lex, n, rules[p].rhs[dot], w, k, j),
    ensures
        item_in(rules, lex, root, w, j, p, dot + 1, i),
    decreases n, 0nat,
{
    match rules[p].rhs[dot] {
        Symbol::Terminal(t) => {
            lemma_item_scan(rules, lex, root, w, k, j, p, dot, i, t);
        },
        Symbol::Nonterminal(b) => {
            let n1 = (n - 1) as nat;
            let q = choose|q: int|
                #![trigger rules[q]]
                0 <= q < rules.len() && rules[q].lhs == b && derivation::derives_seq(
                    rules,
                    lex,
                    n1,
                    rules[q].rhs,
                    w,
                    k,
                    j,
                );
            lemma_item_predict(rules, lex, root, w, k, p, dot, i, q);
            let len = rules[q].rhs.len() as int;
            assert(rules[q].rhs.take(len) =~= rules[q].rhs);
            lemma_item_over_seq(rules, lex, root, n1, w, k, j, q, len);
            lemma_item_complete(rules, lex, root, w, k, j, p, dot, i, q);
        },
    }
}

/// A predicted item moves over every part of its production that derives what follows it.
pub proof fn lemma_item_over_seq(
    rules: Seq<Rule>,
    lex: Lex,
    root: int,
    n: nat,
    w: Seq<u8>,
    k: int,
    j: int,
    q: int,
    dot: int,
)
    requires
        item_in(rules, lex, root, w, k, q, 0, k),
        0 <= dot <= rules[q].rhs.len(),
        derivation::derives_seq(rules, lex, n, rules[q].rhs.take(dot), w, k, j),
    ensures
        item_in(rules, lex, root, w, j, q, dot, k),
    decreases n, dot,
{
    let before = rules[q].rhs.take(dot);
    if dot > 0 {
        assert(before.drop_last() =~= rules[q].rhs.take(dot - 1));
        let m = choose|m: int| #[trigger]
            derivation::at(m) && derivation::derives_seq(rules, lex, n, before.drop_last(), w, k, m)
                && derivation::derives(rules, lex, n, before.last(), w, m, j);
        lemma_item_over_seq(rules, lex, root, n, w, k, m, q, dot - 1);
        lemma_item_over_symbol(rules, lex, root, n, w, m, j, q, dot - 1, k);
    }
}

/// The root production is recognized over the whole string exactly if its symbol derives it.
pub proof fn lemma_item_accepts(rules: Seq<Rule>, lex: Lex, root: int, start: u32, w: Seq<u8>)
    requires
        0 <= root < rules.len(),
        rules[root].rhs =~= seq![Symbol::Nonterminal(start)],
    ensures
        item_in(rules, lex, root, w, w.len() as int, root, 1, 0) <==> derivation::generates(
            rules,
            lex,
            start,
            w,
        ),
{
    let len = w.len() as int;
    let symbol = Symbol::Nonterminal(start);
    if item_in(rules, lex, root, w, len, root, 1, 0) {
        let n = choose|n: nat| item_within(rules, lex, root, n, w, len, root, 1, 0);
        lemma_item_sound(rules, lex, root, n, w, len, root, 1, 0);
        let k = derivation::lemma_yields_seq_pop(rules, lex, rules[root].rhs.take(1), w, 0, len);
        let m = choose|m: nat|
            derivation::derives_seq(rules, lex, m, rules[root].rhs.take(1).drop_last(), w, 0, k);
        assert(k == 0);
    }
    if derivation::generates(rules, lex, start, w) {
        let n = choose|n: nat| derivation::derives(rules, lex, n, symbol, w, 0, len);
        lemma_item_start(rules, lex, root, w);
        lemma_item_over_symbol(rules, lex, root, n, w, 0, len, root, 0, 0);
    }
}

/// A terminal that an item waits for in column `c`, and that ends at `e`.
pub struct OpenTerminal {
    pub production: int,
    pub dot: int,
    pub origin: int,
    pub terminal: u32,
    pub c: int,
    pub e: int,
}

/// Whether an item waits for a terminal that covers place `m`.
pub open spec fn open_at(
    rules: Seq<Rule>,
    lex: Lex,
    root: int,
    w: Seq<u8>,
    m: int,
    open: OpenTerminal,
) -> bool {
    &&& item_in(rules, lex, root, w, open.c, open.production, open.dot, open.origin)
    &&& 0 <= open.dot < rules[open.production].rhs.len()
    &&& rules[open.production].rhs[open.dot] == Symbol::Terminal(open.terminal)
    &&& open.c <= m < open.e <= w.len()
    &&& lex(open.terminal, w.subrange(open.c, open.e))
}

/// Within what the symbol behind an item's dot derives, every place is covered by a terminal that
/// some item waits for.
pub proof fn lemma_item_open(
    rules: Seq<Rule>,
    lex: Lex,
    root: int,
    n: nat,
    w: Seq<u8>,
    m: int,
    k: int,
    j: int,
    p: int,
    dot: int,
    i: int,
) -> (open: OpenTerminal)
    requires
        item_in(rules, lex, root, w, k, p, dot, i),
        0 <= dot < rules[p].rhs.len(),
        derivation::derives(rules, lex, n, rules[p].rhs[dot], w, k, j),
        k <= m < j,
    ensures
        open_at(rules, lex, root, w, m, open),
    decreases n, 0nat,
{
    derivation::lemma_derives_bounds(rules, lex, n, rules[p].rhs[dot], w, k, j);
    match rules[p].rhs[dot] {
        Symbol::Terminal(t) => OpenTerminal {
            production: p,
            dot,
            origin: i,
            terminal: t,
            c: k,
            e: j,
        },
        Symbol::Nonterminal(b) => {
            let n1 = (n - 1) as nat;
            let q = choose|q: int|
                #![trigger rules[q]]
                0 <= q < rules.len() && rules[q].lhs == b && derivation::derives_seq(
                    rules,
                    lex,
                    n1,
                    rules[q].rhs,
                    w,
                    k,
                    j,
                );
            lemma_item_predict(rules, lex, root, w, k, p, dot, i, q);
            let length = rules[q].rhs.len() as int;
            assert(rules[q].rhs.take(length) =~= rules[q].rhs);
            lemma_seq_open(rules, lex, root, n1, w, m, k, j, q, length)
        },
    }
}

proof fn lemma_seq_open(
    rules: Seq<Rule>,
    lex: Lex,
    root: int,
    n: nat,
    w: Seq<u8>,
    m: int,
    k: int,
    j: int,
    q: int,
    dot: int,
) -> (open: OpenTerminal)
    requires
        item_in(rules, lex, root, w, k, q, 0, k),
        0 <= dot <= rules[q].rhs.len(),
        derivation::derives_seq(rules, lex, n, rules[q].rhs.take(dot), w, k, j),
        k <= m < j,
    ensures
        open_at(rules, lex, root, w, m, open),
    decreases n, dot + 1,
{
    let before = rules[q].rhs.take(dot);
    if dot == 0 {
        OpenTerminal { production: 0, dot: 0, origin: 0, terminal: 0, c: 0, e: 0 }
    } else {
        assert(before.drop_last() =~= rules[q].rhs.take(dot - 1));
        let x = choose|x: int| #[trigger]
            derivation::at(x) && derivation::derives_seq(rules, lex, n, before.drop_last(), w, k, x)
                && derivation::derives(rules, lex, n, before.last(), w, x, j);
        if x <= m {
            lemma_item_over_seq(rules, lex, root, n, w, k, x, q, dot - 1);
            lemma_item_open(rules, lex, root, n, w, m, x, j, q, dot - 1, k)
        } else {
            lemma_seq_open(rules, lex, root, n, w, m, k, x, q, dot - 1)
        }
    }
}

} // verus!
