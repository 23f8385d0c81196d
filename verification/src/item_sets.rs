//! Sets of items: what they begin with, their closures, and their successors.

use std::collections::VecDeque;

use vstd::prelude::*;

use crate::count;
use crate::derivation::Rule;
use crate::error::{enforce_compile_limit, CompileError, CompileStage};
use crate::lr;
use crate::lr::{Lookahead, Lr1Item};
use crate::residual;
use crate::residual::ResidualGrammar;
use crate::schema::{CompileLimits, Provenance};
use crate::symbol::{NonterminalId, ProductionId, Symbol};

verus! {

/// A production of the parser. The augmented one has no original.
#[derive(Debug, PartialEq, Eq)]
pub struct ParserProduction {
    pub lhs: NonterminalId,
    pub rhs: Vec<Symbol>,
    pub provenance: Provenance,
    pub original: Option<ProductionId>,
}

/// The mathematical value of a production.
pub open spec fn parser_rule(production: ParserProduction) -> Rule {
    Rule { lhs: production.lhs, rhs: production.rhs@ }
}

/// The mathematical values of productions.
pub open spec fn parser_rules(productions: Seq<ParserProduction>) -> Seq<Rule> {
    productions.map_values(|production: ParserProduction| parser_rule(production))
}

/// Whether every symbol of the productions is within the counts.
pub open spec fn productions_in(
    productions: Seq<ParserProduction>,
    nonterminals: nat,
    terminals: nat,
) -> bool {
    forall|p: int|
        0 <= p < productions.len() ==> residual::symbols_in(
            (#[trigger] productions[p]).rhs@,
            nonterminals,
            terminals,
        )
}

/// A lookahead as a number.
pub open spec fn lookahead_rank(lookahead: Lookahead) -> int {
    match lookahead {
        Lookahead::Terminal(t) => t as int,
        Lookahead::Eof => 0x1_0000_0000,
    }
}

/// An item as a number: by production, then dot, then lookahead.
pub open spec fn item_rank(item: Lr1Item) -> int {
    item.production * 0x4_0000_0000_0000_0000 + item.dot * 0x2_0000_0000 + lookahead_rank(
        item.lookahead,
    )
}

/// Whether one lookahead comes before another: terminals by their numbers, and the end last.
pub fn lookahead_before(a: Lookahead, b: Lookahead) -> (before: bool)
    ensures
        before == (lookahead_rank(a) < lookahead_rank(b)),
{
    match (a, b) {
        (Lookahead::Terminal(x), Lookahead::Terminal(y)) => x < y,
        (Lookahead::Terminal(_), Lookahead::Eof) => true,
        (Lookahead::Eof, _) => false,
    }
}

/// Whether one item comes before another.
fn item_before(a: Lr1Item, b: Lr1Item) -> (before: bool)
    ensures
        before == (item_rank(a) < item_rank(b)),
{
    if a.production != b.production {
        return a.production < b.production;
    }
    if a.dot != b.dot {
        return a.dot < b.dot;
    }
    lookahead_before(a.lookahead, b.lookahead)
}

/// Items with the same number are the same.
pub proof fn lemma_item_rank(a: Lr1Item, b: Lr1Item)
    requires
        item_rank(a) == item_rank(b),
    ensures
        a == b,
{
}

/// Whether items ascend, each once.
pub open spec fn items_ascend(items: Seq<Lr1Item>) -> bool {
    forall|i: int, j: int|
        0 <= i < j < items.len() ==> item_rank(items[i]) < item_rank(items[j])
}

/// The place at which an item is or belongs.
fn item_place(items: &Vec<Lr1Item>, item: Lr1Item) -> (place: usize)
    requires
        items_ascend(items@),
    ensures
        place <= items@.len(),
        forall|i: int| 0 <= i < place ==> item_rank(#[trigger] items@[i]) < item_rank(item),
        forall|i: int|
            place <= i < items@.len() ==> item_rank(#[trigger] items@[i]) >= item_rank(item),
{
    let mut low: usize = 0;
    let mut high: usize = items.len();
    while low < high
        invariant
            items_ascend(items@),
            low <= high <= items@.len(),
            forall|i: int| 0 <= i < low ==> item_rank(#[trigger] items@[i]) < item_rank(item),
            forall|i: int|
                high <= i < items@.len() ==> item_rank(#[trigger] items@[i]) >= item_rank(item),
        decreases high - low,
    {
        let middle: usize = low + (high - low) / 2;
        if item_before(items[middle], item) {
            assert forall|i: int| 0 <= i < middle + 1 implies item_rank(#[trigger] items@[i])
                < item_rank(item) by {
                if i < middle {
                    assert(item_rank(items@[i]) < item_rank(items@[middle as int]));
                }
            }
            low = middle + 1;
        } else {
            assert forall|i: int| middle <= i < items@.len() implies item_rank(
                #[trigger] items@[i],
            ) >= item_rank(item) by {
                if i > middle {
                    assert(item_rank(items@[middle as int]) < item_rank(items@[i]));
                }
            }
            high = middle;
        }
    }
    low
}

/// Adds an item, and says whether it was not there before.
pub(crate) fn insert_item(items: &mut Vec<Lr1Item>, item: Lr1Item) -> (added: bool)
    requires
        items_ascend(old(items)@),
    ensures
        items_ascend(final(items)@),
        added == !old(items)@.contains(item),
        forall|x: Lr1Item| #[trigger]
            final(items)@.contains(x) <==> old(items)@.contains(x) || x == item,
        !added ==> final(items)@ == old(items)@,
        added ==> final(items)@.len() == old(items)@.len() + 1,
{
    let ghost before = items@;
    let place = item_place(items, item);
    if place < items.len() && items[place] == item {
        assert(before.contains(item)) by {
            assert(before[place as int] == item);
        }
        return false;
    }
    assert(!before.contains(item)) by {
        if before.contains(item) {
            let i = choose|i: int| 0 <= i < before.len() && before[i] == item;
            assert(item_rank(before[i]) == item_rank(item));
            assert(i >= place);
            if i > place {
                assert(item_rank(before[place as int]) < item_rank(before[i]));
            }
        }
    }
    items.insert(place, item);
    proof {
        let p = place as int;
        assert(items@ == before.insert(p, item));
        assert forall|i: int, j: int| 0 <= i < j < items@.len() implies item_rank(items@[i])
            < item_rank(items@[j]) by {
            if i == p {
                assert(items@[j] == before[j - 1]);
                if item_rank(before[j - 1]) == item_rank(item) {
                    lemma_item_rank(before[j - 1], item);
                    assert(before.contains(item));
                }
            } else if j == p {
                assert(items@[i] == before[i]);
            } else {
                let x = if i < p {
                    i
                } else {
                    i - 1
                };
                let y = if j < p {
                    j
                } else {
                    j - 1
                };
                assert(items@[i] == before[x] && items@[j] == before[y]);
            }
        }
        assert forall|x: Lr1Item| #[trigger] items@.contains(x) <==> before.contains(x) || x
            == item by {
            if items@.contains(x) {
                let i = choose|i: int| 0 <= i < items@.len() && items@[i] == x;
                if i < p {
                    assert(before[i] == x);
                } else if i > p {
                    assert(before[i - 1] == x);
                }
            }
            if before.contains(x) {
                let i = choose|i: int| 0 <= i < before.len() && before[i] == x;
                if i < p {
                    assert(items@[i] == x);
                } else {
                    assert(items@[i + 1] == x);
                }
            }
            if x == item {
                assert(items@[p] == x);
            }
        }
    }
    true
}

/// How many marks of all rows are unset.
pub open spec fn unset_count(rows: Seq<Vec<bool>>) -> nat
    decreases rows.len(),
{
    if rows.len() == 0 {
        0
    } else {
        unset_count(rows.drop_last()) + (rows.last()@.len() - count::count_true(
            rows.last()@,
        )) as nat
    }
}

proof fn lemma_unset_update(rows: Seq<Vec<bool>>, i: int, row: Vec<bool>)
    requires
        0 <= i < rows.len(),
        row@.len() == rows[i]@.len(),
        count::count_true(row@) == count::count_true(rows[i]@) + 1,
    ensures
        unset_count(rows.update(i, row)) + 1 == unset_count(rows),
    decreases rows.len(),
{
    let after = rows.update(i, row);
    count::lemma_count_bound(row@);
    if i == rows.len() - 1 {
        assert(after.drop_last() =~= rows.drop_last());
    } else {
        lemma_unset_update(rows.drop_last(), i, row);
        assert(after.drop_last() =~= rows.drop_last().update(i, row));
        assert(after.last() == rows.last());
    }
}

/// Whether marks say which terminals each nonterminal can begin with, as far as they are set.
pub open spec fn marks_sound(
    rules: Seq<Rule>,
    nullable: Seq<bool>,
    terminals: nat,
    first: Seq<Vec<bool>>,
) -> bool {
    forall|a: int, t: int|
        0 <= a < first.len() && 0 <= t < terminals && #[trigger] first[a]@[t] ==> lr::can_begin(
            rules,
            nullable,
            Symbol::Nonterminal(a as u32),
            t as u32,
        )
}

/// Whether marks say which terminals each nonterminal can begin with.
pub open spec fn marks_exact(
    rules: Seq<Rule>,
    nullable: Seq<bool>,
    terminals: nat,
    first: Seq<Vec<bool>>,
) -> bool {
    forall|a: u32, t: u32|
        #![trigger first[a as int]@[t as int]]
        a < first.len() && t < terminals ==> (first[a as int]@[t as int] <==> lr::can_begin(
            rules,
            nullable,
            Symbol::Nonterminal(a),
            t,
        ))
}

pub open spec fn rows_shaped(first: Seq<Vec<bool>>, terminals: nat) -> bool {
    forall|a: int| 0 <= a < first.len() ==> (#[trigger] first[a])@.len() == terminals
}

/// Whether the marks of a symbol are among those of a nonterminal.
spec fn symbol_marked(first: Seq<Vec<bool>>, a: int, symbol: Symbol) -> bool {
    match symbol {
        Symbol::Terminal(t) => first[a]@[t as int],
        Symbol::Nonterminal(b) => forall|t: int|
            0 <= t < first[a]@.len() && #[trigger] first[b as int]@[t] ==> first[a]@[t],
    }
}

/// Whether a production adds nothing to the marks.
spec fn production_marked(first: Seq<Vec<bool>>, nullable: Seq<bool>, rule: Rule) -> bool {
    forall|x: int|
        0 <= x < rule.rhs.len() && lr::all_nullable(nullable, rule.rhs.take(x)) ==> symbol_marked(
            first,
            rule.lhs as int,
            #[trigger] rule.rhs[x],
        )
}

/// Marks to which no production adds anything hold all that nonterminals can begin with.
proof fn lemma_marks_closed(
    rules: Seq<Rule>,
    nullable: Seq<bool>,
    nonterminals: nat,
    terminals: nat,
    first: Seq<Vec<bool>>,
    n: nat,
    a: u32,
    t: u32,
)
    requires
        first.len() == nonterminals,
        rows_shaped(first, terminals),
        forall|p: int|
            0 <= p < rules.len() ==> (#[trigger] rules[p]).lhs < nonterminals
                && residual::symbols_in(rules[p].rhs, nonterminals, terminals)
                && production_marked(first, nullable, rules[p]),
        a < nonterminals,
        lr::begins(rules, nullable, n, Symbol::Nonterminal(a), t),
    ensures
        t < terminals,
        first[a as int]@[t as int],
    decreases n,
{
    let (p, x) = choose|p: int, x: int|
        #![trigger rules[p].rhs[x]]
        0 <= p < rules.len() && rules[p].lhs == a && 0 <= x < rules[p].rhs.len()
            && lr::all_nullable(nullable, rules[p].rhs.take(x)) && lr::begins(
            rules,
            nullable,
            (n - 1) as nat,
            rules[p].rhs[x],
            t,
        );
    let rule = rules[p];
    assert(production_marked(first, nullable, rule));
    assert(symbol_marked(first, a as int, rule.rhs[x]));
    assert(residual::symbol_in(rule.rhs[x], nonterminals, terminals));
    if let Symbol::Nonterminal(b) = rule.rhs[x] {
        lemma_marks_closed(
            rules,
            nullable,
            nonterminals,
            terminals,
            first,
            (n - 1) as nat,
            b,
            t,
        );
    }
}

/// Marks a terminal for a nonterminal, and says whether it was not marked before.
fn mark_terminal(first: &mut Vec<Vec<bool>>, a: usize, t: usize) -> (changed: bool)
    requires
        a < old(first)@.len(),
        t < old(first)@[a as int]@.len(),
    ensures
        final(first)@.len() == old(first)@.len(),
        changed == !old(first)@[a as int]@[t as int],
        forall|b: int|
            0 <= b < final(first)@.len() && b != a ==> (#[trigger] final(first)@[b]) == old(
                first,
            )@[b],
        final(first)@[a as int]@ == old(first)@[a as int]@.update(t as int, true),
        changed ==> unset_count(final(first)@) + 1 == unset_count(old(first)@),
        !changed ==> final(first)@ == old(first)@,
{
    let ghost before = first@;
    if first[a][t] {
        assert(before[a as int]@.update(t as int, true) =~= before[a as int]@);
        return false;
    }
    first[a].set(t, true);
    proof {
        let row = first@[a as int];
        assert(row@ =~= before[a as int]@.update(t as int, true));
        count::lemma_count_set(before[a as int]@, t as int);
        assert(first@ =~= before.update(a as int, row));
        lemma_unset_update(before, a as int, row);
    }
    true
}

/// Adds what a production begins with to the marks of its nonterminal. Says whether that changed
/// anything.
fn mark_production(
    grammar: &ResidualGrammar,
    index: usize,
    first: &mut Vec<Vec<bool>>,
) -> (changed: bool)
    requires
        grammar.wf(),
        index < grammar.productions@.len(),
        old(first)@.len() == grammar.nonterminals@.len(),
        rows_shaped(old(first)@, grammar.terminals@.len()),
        marks_sound(
            grammar.rules(),
            grammar.nullable@,
            grammar.terminals@.len(),
            old(first)@,
        ),
    ensures
        final(first)@.len() == old(first)@.len(),
        rows_shaped(final(first)@, grammar.terminals@.len()),
        marks_sound(
            grammar.rules(),
            grammar.nullable@,
            grammar.terminals@.len(),
            final(first)@,
        ),
        changed ==> unset_count(final(first)@) < unset_count(old(first)@),
        !changed ==> final(first)@ == old(first)@ && production_marked(
            old(first)@,
            grammar.nullable@,
            grammar.rules()[index as int],
        ),
{
    let ghost rules = grammar.rules();
    let ghost nullable = grammar.nullable@;
    let production = &grammar.productions[index];
    let lhs: usize = production.lhs as usize;
    let width: usize = grammar.terminals.len();
    let ghost before = first@;
    let ghost rhs = production.rhs@;
    assert(rules[index as int].rhs == rhs && rules[index as int].lhs == production.lhs);
    let mut changed = false;
    let mut position: usize = 0;
    assert(rhs.take(0).len() == 0);
    while position < production.rhs.len()
        invariant
            grammar.wf(),
            index < grammar.productions@.len(),
            *production == grammar.productions@[index as int],
            rules == grammar.rules(),
            nullable == grammar.nullable@,
            rhs == production.rhs@,
            rules[index as int].rhs == rhs,
            rules[index as int].lhs == production.lhs,
            lhs == production.lhs,
            lhs < first@.len(),
            width == grammar.terminals@.len(),
            before == old(first)@,
            before.len() == first@.len() == grammar.nonterminals@.len(),
            rows_shaped(first@, width as nat),
            marks_sound(rules, nullable, width as nat, first@),
            position <= rhs.len(),
            lr::all_nullable(nullable, rhs.take(position as int)),
            changed ==> unset_count(first@) < unset_count(before),
            !changed ==> first@ == before && forall|x: int|
                0 <= x < position ==> symbol_marked(before, lhs as int, #[trigger] rhs[x]),
        decreases rhs.len() - position,
    {
        assert(residual::symbol_in(
            rhs[position as int],
            grammar.nonterminals@.len(),
            grammar.terminals@.len(),
        ));
        let ghost symbol = rhs[position as int];
        let mut on = true;
        match production.rhs[position] {
            Symbol::Terminal(terminal) => {
                let ghost then = first@;
                if mark_terminal(first, lhs, terminal as usize) {
                    changed = true;
                }
                proof {
                    let id = lhs as u32;
                    assert(lr::begins(rules, nullable, 0, symbol, terminal));
                    assert(rules[index as int].rhs[position as int] == symbol);
                    assert(lr::begins(rules, nullable, 1, Symbol::Nonterminal(id), terminal));
                    assert forall|a: int, t: int|
                        0 <= a < first@.len() && 0 <= t < width
                            && #[trigger] first@[a]@[t] implies lr::can_begin(
                        rules,
                        nullable,
                        Symbol::Nonterminal(a as u32),
                        t as u32,
                    ) by {
                        if a == lhs && t == terminal {
                        } else {
                            assert(then[a]@[t]);
                        }
                    }
                }
                on = false;
            },
            Symbol::Nonterminal(inner) => {
                let mut terminal: usize = 0;
                let ghost at_start = first@;
                while terminal < width
                    invariant
                        grammar.wf(),
                        index < grammar.productions@.len(),
                        rules == grammar.rules(),
                        nullable == grammar.nullable@,
                        symbol == Symbol::Nonterminal(inner),
                        inner < first@.len(),
                        lhs < first@.len(),
                        lhs <= u32::MAX,
                        width == grammar.terminals@.len(),
                        before.len() == first@.len() == grammar.nonterminals@.len(),
                        rows_shaped(first@, width as nat),
                        marks_sound(rules, nullable, width as nat, first@),
                        terminal <= width,
                        0 <= position < rhs.len(),
                        rules[index as int].rhs == rhs,
                        rules[index as int].lhs == lhs,
                        rhs[position as int] == symbol,
                        index < rules.len(),
                        lr::all_nullable(nullable, rhs.take(position as int)),
                        changed ==> unset_count(first@) < unset_count(before),
                        !changed ==> first@ == before && forall|t: int|
                            0 <= t < terminal && #[trigger] before[inner as int]@[t]
                                ==> before[lhs as int]@[t],
                        !changed ==> forall|x: int|
                            0 <= x < position ==> symbol_marked(
                                before,
                                lhs as int,
                                #[trigger] rhs[x],
                            ),
                    decreases width - terminal,
                {
                    if first[inner as usize][terminal] {
                        let ghost then = first@;
                        assert(then[inner as int]@[terminal as int]);
                        if mark_terminal(first, lhs, terminal) {
                            changed = true;
                        }
                        proof {
                            let id = lhs as u32;
                            let t0 = terminal as u32;
                            assert(lr::can_begin(rules, nullable, symbol, t0));
                            let n = choose|n: nat| lr::begins(rules, nullable, n, symbol, t0);
                            assert(rules[index as int].rhs[position as int] == symbol);
                            assert((n + 1 - 1) as nat == n);
                            assert(lr::begins(
                                rules,
                                nullable,
                                n + 1,
                                Symbol::Nonterminal(id),
                                t0,
                            ));
                            assert forall|a: int, t: int|
                                0 <= a < first@.len() && 0 <= t < width
                                    && #[trigger] first@[a]@[t] implies lr::can_begin(
                                rules,
                                nullable,
                                Symbol::Nonterminal(a as u32),
                                t as u32,
                            ) by {
                                if a == lhs && t == terminal {
                                } else {
                                    assert(then[a]@[t]);
                                }
                            }
                        }
                    }
                    terminal += 1;
                }
                if !grammar.nullable[inner as usize] {
                    on = false;
                }
            },
        }
        if !on {
            proof {
                if !changed {
                    assert forall|x: int|
                        0 <= x < rhs.len() && lr::all_nullable(
                            nullable,
                            rhs.take(x),
                        ) implies symbol_marked(before, lhs as int, #[trigger] rhs[x]) by {
                        if x > position {
                            assert(rhs.take(x)[position as int] == rhs[position as int]);
                            assert(lr::is_nullable(nullable, rhs.take(x)[position as int]));
                        }
                    }
                }
            }
            return changed;
        }
        proof {
            let more = rhs.take(position + 1);
            assert forall|x: int| 0 <= x < more.len() implies lr::is_nullable(
                nullable,
                #[trigger] more[x],
            ) by {
                if x < position {
                    assert(more[x] == rhs.take(position as int)[x]);
                }
            }
        }
        position += 1;
    }
    changed
}

/// The terminals that each nonterminal can begin with.
pub fn compute_first(grammar: &ResidualGrammar) -> (first: Vec<Vec<bool>>)
    requires
        grammar.wf(),
    ensures
        first@.len() == grammar.nonterminals@.len(),
        rows_shaped(first@, grammar.terminals@.len()),
        marks_exact(grammar.rules(), grammar.nullable@, grammar.terminals@.len(), first@),
{
    let width: usize = grammar.terminals.len();
    let mut first: Vec<Vec<bool>> = Vec::new();
    while first.len() < grammar.nonterminals.len()
        invariant
            width == grammar.terminals@.len(),
            first@.len() <= grammar.nonterminals@.len(),
            rows_shaped(first@, width as nat),
            forall|a: int, t: int|
                0 <= a < first@.len() && 0 <= t < width ==> !#[trigger] first@[a]@[t],
        decreases grammar.nonterminals@.len() - first@.len(),
    {
        first.push(count::unset_marks(width));
    }
    let mut changed = true;
    while changed
        invariant
            grammar.wf(),
            width == grammar.terminals@.len(),
            first@.len() == grammar.nonterminals@.len(),
            rows_shaped(first@, width as nat),
            marks_sound(grammar.rules(), grammar.nullable@, width as nat, first@),
            !changed ==> forall|p: int|
                0 <= p < grammar.productions@.len() ==> production_marked(
                    first@,
                    grammar.nullable@,
                    #[trigger] grammar.rules()[p],
                ),
        decreases
            unset_count(first@),
            if changed {
                1nat
            } else {
                0nat
            },
    {
        changed = false;
        let ghost before = first@;
        let mut index: usize = 0;
        while index < grammar.productions.len()
            invariant
                grammar.wf(),
                width == grammar.terminals@.len(),
                first@.len() == grammar.nonterminals@.len(),
                rows_shaped(first@, width as nat),
                marks_sound(grammar.rules(), grammar.nullable@, width as nat, first@),
                index <= grammar.productions@.len(),
                changed ==> unset_count(first@) < unset_count(before),
                !changed ==> first@ == before && forall|p: int|
                    0 <= p < index ==> production_marked(
                        before,
                        grammar.nullable@,
                        #[trigger] grammar.rules()[p],
                    ),
            decreases grammar.productions@.len() - index,
        {
            if mark_production(grammar, index, &mut first) {
                changed = true;
            }
            index += 1;
        }
    }
    proof {
        let rules = grammar.rules();
        assert forall|p: int| 0 <= p < rules.len() implies (#[trigger] rules[p]).lhs
            < grammar.nonterminals@.len() && residual::symbols_in(
            rules[p].rhs,
            grammar.nonterminals@.len(),
            width as nat,
        ) && production_marked(first@, grammar.nullable@, rules[p]) by {
            assert(rules[p] == residual::residual_rule(grammar.productions@[p]));
        }
        assert forall|a: u32, t: u32|
            #![trigger first@[a as int]@[t as int]]
            a < first@.len() && t < width implies (first@[a as int]@[t as int] <==> lr::can_begin(
            rules,
            grammar.nullable@,
            Symbol::Nonterminal(a),
            t,
        )) by {
            if lr::can_begin(rules, grammar.nullable@, Symbol::Nonterminal(a), t) {
                let n = choose|n: nat|
                    lr::begins(rules, grammar.nullable@, n, Symbol::Nonterminal(a), t);
                lemma_marks_closed(
                    rules,
                    grammar.nullable@,
                    grammar.nonterminals@.len(),
                    width as nat,
                    first@,
                    n,
                    a,
                    t,
                );
            }
        }
    }
    first
}

/// What a symbol begins with does not change with a production that nothing refers to.
pub proof fn lemma_begins_augmented(
    rules: Seq<Rule>,
    nullable: Seq<bool>,
    extra: Rule,
    n: nat,
    symbol: Symbol,
    t: u32,
)
    requires
        forall|p: int, x: int|
            0 <= p < rules.len() && 0 <= x < rules[p].rhs.len() ==> #[trigger] rules[p].rhs[x]
                != Symbol::Nonterminal(extra.lhs),
        symbol != Symbol::Nonterminal(extra.lhs),
    ensures
        lr::begins(rules.push(extra), nullable, n, symbol, t) == lr::begins(
            rules,
            nullable,
            n,
            symbol,
            t,
        ),
    decreases n,
{
    let more = rules.push(extra);
    if let Symbol::Nonterminal(a) = symbol {
        if n > 0 {
            let n1 = (n - 1) as nat;
            if lr::begins(more, nullable, n, symbol, t) {
                let (p, x) = choose|p: int, x: int|
                    #![trigger more[p].rhs[x]]
                    0 <= p < more.len() && more[p].lhs == a && 0 <= x < more[p].rhs.len()
                        && lr::all_nullable(nullable, more[p].rhs.take(x)) && lr::begins(
                        more,
                        nullable,
                        n1,
                        more[p].rhs[x],
                        t,
                    );
                assert(p < rules.len());
                assert(more[p] == rules[p]);
                assert(rules[p].rhs[x] != Symbol::Nonterminal(extra.lhs));
                lemma_begins_augmented(rules, nullable, extra, n1, rules[p].rhs[x], t);
            }
            if lr::begins(rules, nullable, n, symbol, t) {
                let (p, x) = choose|p: int, x: int|
                    #![trigger rules[p].rhs[x]]
                    0 <= p < rules.len() && rules[p].lhs == a && 0 <= x < rules[p].rhs.len()
                        && lr::all_nullable(nullable, rules[p].rhs.take(x)) && lr::begins(
                        rules,
                        nullable,
                        n1,
                        rules[p].rhs[x],
                        t,
                    );
                assert(more[p] == rules[p]);
                assert(rules[p].rhs[x] != Symbol::Nonterminal(extra.lhs));
                lemma_begins_augmented(rules, nullable, extra, n1, rules[p].rhs[x], t);
                assert(more[p].rhs[x] == rules[p].rhs[x]);
            }
        }
    }
}

/// The productions of a parser, and what is known of its symbols.
pub struct LrGrammar {
    pub productions: Vec<ParserProduction>,
    pub by_lhs: Vec<Vec<ProductionId>>,
    pub nullable: Vec<bool>,
    pub first: Vec<Vec<bool>>,
    pub terminals: usize,
}

impl LrGrammar {
    /// The productions.
    pub open spec fn rules(&self) -> Seq<Rule> {
        parser_rules(self.productions@)
    }

    /// Whether the lists and marks are right, and the last production is the augmented one.
    pub open spec fn wf(&self) -> bool {
        let nonterminals = self.nullable@.len();
        let count = self.productions@.len();
        &&& 0 < count <= u32::MAX + 1
        &&& nonterminals <= u32::MAX
        &&& productions_in(self.productions@, nonterminals, self.terminals as nat)
        &&& forall|p: int|
            0 <= p < count - 1 ==> (#[trigger] self.productions@[p]).lhs < nonterminals
        &&& self.productions@[count - 1].lhs == nonterminals
        &&& self.productions@[count - 1].rhs@.len() == 1
        &&& self.productions@[count - 1].rhs@[0] is Nonterminal
        &&& self.by_lhs@.len() == nonterminals
        &&& forall|a: u32, p: u32|
            #![trigger self.by_lhs@[a as int]@.contains(p)]
            a < nonterminals ==> (self.by_lhs@[a as int]@.contains(p) <==> p < count
                && self.productions@[p as int].lhs == a)
        &&& self.first@.len() == nonterminals
        &&& rows_shaped(self.first@, self.terminals as nat)
        &&& marks_exact(self.rules(), self.nullable@, self.terminals as nat, self.first@)
    }

    /// Whether an item names a production and a position in it.
    pub open spec fn item_in(&self, item: Lr1Item) -> bool {
        &&& item.production < self.productions@.len()
        &&& item.dot <= self.productions@[item.production as int].rhs@.len()
        &&& item.lookahead matches Lookahead::Terminal(t) ==> t < self.terminals
    }

    pub proof fn lemma_rule(&self, p: int)
        requires
            0 <= p < self.productions@.len(),
        ensures
            self.rules().len() == self.productions@.len(),
            self.rules()[p].lhs == self.productions@[p].lhs,
            self.rules()[p].rhs == self.productions@[p].rhs@,
    {
        assert(self.rules()[p] == parser_rule(self.productions@[p]));
    }

    /// The symbol behind an item's dot.
    pub fn symbol_after_dot(&self, item: Lr1Item) -> (symbol: Option<Symbol>)
        requires
            self.item_in(item),
        ensures
            symbol == lr::after_dot(self.rules(), item),
    {
        proof {
            self.lemma_rule(item.production as int);
        }
        let rhs = &self.productions[item.production as usize].rhs;
        if (item.dot as usize) < rhs.len() {
            Some(rhs[item.dot as usize])
        } else {
            None
        }
    }

    /// The lookaheads that can follow the symbol behind an item's dot, in ascending order.
    fn first_of_tail(&self, item: Lr1Item) -> (lookaheads: Vec<Lookahead>)
        requires
            self.wf(),
            self.item_in(item),
            item.dot < self.productions@[item.production as int].rhs@.len(),
        ensures
            forall|la: Lookahead| #[trigger]
                lookaheads@.contains(la) <==> lr::ahead(self.rules(), self.nullable@, item, la),
            forall|x: int|
                0 <= x < lookaheads@.len() ==> (#[trigger] lookaheads@[x] matches Lookahead::Terminal(
                    t,
                ) ==> t < self.terminals),
    {
        let ghost rules = self.rules();
        let ghost nullable = self.nullable@;
        proof {
            self.lemma_rule(item.production as int);
        }
        let rhs = &self.productions[item.production as usize].rhs;
        let length: usize = rhs.len();
        assert(item.dot < length);
        let start: usize = item.dot as usize + 1;
        let ghost tail = rhs@.skip(start as int);
        let mut marks = count::unset_marks(self.terminals);
        let mut tail_nullable = true;
        let mut position: usize = start;
        while tail_nullable && position < length
            invariant
                length == rhs@.len(),
                self.wf(),
                item.production < self.productions@.len(),
                *rhs == self.productions@[item.production as int].rhs,
                rules == self.rules(),
                nullable == self.nullable@,
                tail == rhs@.skip(start as int),
                start <= position <= rhs@.len(),
                marks@.len() == self.terminals,
                tail_nullable ==> lr::all_nullable(nullable, tail.take(position - start)),
                !tail_nullable ==> start < position && lr::all_nullable(
                    nullable,
                    tail.take(position - start - 1),
                ) && !lr::is_nullable(nullable, tail[position - start - 1]),
                forall|t: u32|
                    t < self.terminals ==> (#[trigger] marks@[t as int] <==> starts_within(
                        rules,
                        nullable,
                        tail,
                        position - start,
                        t,
                    )),
            decreases rhs@.len() - position,
        {
            let ghost before = marks@;
            let ghost x = position - start;
            assert(tail[x] == rhs@[position as int]);
            assert(residual::symbol_in(
                rhs@[position as int],
                self.nullable@.len(),
                self.terminals as nat,
            ));
            let ghost symbol = tail[x];
            match rhs[position] {
                Symbol::Terminal(terminal) => {
                    marks.set(terminal as usize, true);
                    tail_nullable = false;
                    proof {
                        assert(lr::begins(rules, nullable, 0, symbol, terminal));
                        assert forall|t: u32| t < self.terminals implies (
                        #[trigger] marks@[t as int] <==> before[t as int] || lr::can_begin(
                            rules,
                            nullable,
                            symbol,
                            t,
                        )) by {
                            if lr::can_begin(rules, nullable, symbol, t) {
                                let n = choose|n: nat| lr::begins(rules, nullable, n, symbol, t);
                                assert(t == terminal);
                            }
                        }
                    }
                },
                Symbol::Nonterminal(inner) => {
                    let mut terminal: usize = 0;
                    while terminal < self.terminals
                        invariant
                            self.wf(),
                            inner < self.nullable@.len(),
                            marks@.len() == self.terminals == before.len(),
                            terminal <= self.terminals,
                            forall|t: int|
                                0 <= t < marks@.len() ==> (#[trigger] marks@[t] <==> before[t] || (t
                                    < terminal && self.first@[inner as int]@[t])),
                        decreases self.terminals - terminal,
                    {
                        if self.first[inner as usize][terminal] {
                            marks.set(terminal, true);
                        }
                        terminal += 1;
                    }
                    if !self.nullable[inner as usize] {
                        tail_nullable = false;
                    }
                    proof {
                        assert forall|t: u32| t < self.terminals implies (
                        #[trigger] marks@[t as int] <==> before[t as int] || lr::can_begin(
                            rules,
                            nullable,
                            symbol,
                            t,
                        )) by {
                            assert(self.first@[inner as int]@[t as int] <==> lr::can_begin(
                                rules,
                                nullable,
                                Symbol::Nonterminal(inner),
                                t,
                            ));
                        }
                    }
                },
            }
            proof {
                assert forall|t: u32| t < self.terminals implies (#[trigger] marks@[t as int]
                    <==> starts_within(rules, nullable, tail, x + 1, t)) by {
                    assert(before[t as int] <==> starts_within(rules, nullable, tail, x, t));
                    if starts_within(rules, nullable, tail, x, t) {
                        let y = choose|y: int|
                            #![trigger tail[y]]
                            0 <= y < x && lr::all_nullable(nullable, tail.take(y))
                                && lr::can_begin(rules, nullable, tail[y], t);
                        assert(0 <= y < x + 1);
                    }
                    if lr::can_begin(rules, nullable, symbol, t) {
                        assert(tail[x] == symbol);
                        assert(starts_within(rules, nullable, tail, x + 1, t));
                    }
                    if starts_within(rules, nullable, tail, x + 1, t) {
                        let y = choose|y: int|
                            #![trigger tail[y]]
                            0 <= y < x + 1 && lr::all_nullable(nullable, tail.take(y))
                                && lr::can_begin(rules, nullable, tail[y], t);
                        if y < x {
                            assert(starts_within(rules, nullable, tail, x, t));
                        }
                    }
                }
                if tail_nullable {
                    let more = tail.take(x + 1);
                    assert forall|y: int| 0 <= y < more.len() implies lr::is_nullable(
                        nullable,
                        #[trigger] more[y],
                    ) by {
                        if y < x {
                            assert(more[y] == tail.take(x)[y]);
                        }
                    }
                } else {
                    assert(tail.take(x + 1 - 1) =~= tail.take(x));
                }
            }
            position += 1;
        }
        proof {
            if tail_nullable {
                assert(tail.take(position - start) =~= tail);
            } else {
                let x = position - start - 1;
                assert(!lr::all_nullable(nullable, tail)) by {
                    assert(!lr::is_nullable(nullable, tail[x]));
                }
            }
            assert forall|t: u32| t < self.terminals implies (#[trigger] marks@[t as int]
                <==> lr::can_start(rules, nullable, tail, t)) by {
                assert(marks@[t as int] <==> starts_within(
                    rules,
                    nullable,
                    tail,
                    position - start,
                    t,
                ));
                if lr::can_start(rules, nullable, tail, t) {
                    let y = choose|y: int|
                        #![trigger tail[y]]
                        0 <= y < tail.len() && lr::all_nullable(nullable, tail.take(y))
                            && lr::can_begin(rules, nullable, tail[y], t);
                    if y >= position - start {
                        let x = position - start - 1;
                        assert(!tail_nullable);
                        assert(tail.take(y)[x] == tail[x]);
                        assert(lr::is_nullable(nullable, tail.take(y)[x]));
                    }
                }
                if starts_within(rules, nullable, tail, position - start, t) {
                    let y = choose|y: int|
                        #![trigger tail[y]]
                        0 <= y < position - start && lr::all_nullable(nullable, tail.take(y))
                            && lr::can_begin(rules, nullable, tail[y], t);
                    assert(0 <= y < tail.len());
                }
            }
            assert forall|t: u32| lr::can_start(rules, nullable, tail, t) implies t
                < self.terminals by {
                let y = choose|y: int|
                    #![trigger tail[y]]
                    0 <= y < tail.len() && lr::all_nullable(nullable, tail.take(y))
                        && lr::can_begin(rules, nullable, tail[y], t);
                let n = choose|n: nat| lr::begins(rules, nullable, n, tail[y], t);
                assert(residual::symbol_in(
                    rhs@[start + y],
                    self.nullable@.len(),
                    self.terminals as nat,
                ));
                self.lemma_begins_in(n, tail[y], t);
            }
        }
        let mut end = false;
        if tail_nullable {
            match item.lookahead {
                Lookahead::Terminal(t) => {
                    marks.set(t as usize, true);
                },
                Lookahead::Eof => {
                    end = true;
                },
            }
        }
        let mut lookaheads: Vec<Lookahead> = Vec::new();
        let mut terminal: usize = 0;
        while terminal < self.terminals && terminal <= u32::MAX as usize
            invariant
                marks@.len() == self.terminals,
                terminal <= self.terminals,
                terminal <= u32::MAX + 1,
                forall|t: u32|
                    t < terminal && marks@[t as int] ==> #[trigger] lookaheads@.contains(
                        Lookahead::Terminal(t),
                    ),
                forall|x: int|
                    0 <= x < lookaheads@.len() ==> (#[trigger] lookaheads@[x] matches Lookahead::Terminal(
                        t,
                    ) && t < terminal && marks@[t as int]),
            decreases self.terminals - terminal,
        {
            if marks[terminal] {
                let ghost then = lookaheads@;
                let la = Lookahead::Terminal(terminal as u32);
                lookaheads.push(la);
                proof {
                    assert forall|t: u32| t < terminal + 1 && marks@[t as int] implies
                        #[trigger] lookaheads@.contains(Lookahead::Terminal(t)) by {
                        if t == terminal {
                            assert(lookaheads@[then.len() as int] == la);
                        } else {
                            assert(then.contains(Lookahead::Terminal(t)));
                            let x = choose|x: int|
                                0 <= x < then.len() && then[x] == Lookahead::Terminal(t);
                            assert(lookaheads@[x] == then[x]);
                        }
                    }
                }
            }
            terminal += 1;
        }
        let ghost named = lookaheads@;
        if end {
            lookaheads.push(Lookahead::Eof);
        }
        proof {
            assert forall|la: Lookahead| #[trigger] lookaheads@.contains(la) <==> lr::ahead(
                rules,
                nullable,
                item,
                la,
            ) by {
                assert(rules[item.production as int].rhs.skip(item.dot + 1) =~= tail);
                match la {
                    Lookahead::Terminal(t) => {
                        if lookaheads@.contains(la) {
                            let x = choose|x: int|
                                0 <= x < lookaheads@.len() && lookaheads@[x] == la;
                            assert(x < named.len());
                            assert(named[x] == la);
                        }
                        if lr::ahead(rules, nullable, item, la) {
                            assert(t < self.terminals);
                            assert(marks@[t as int]);
                            assert(named.contains(la));
                            let x = choose|x: int| 0 <= x < named.len() && named[x] == la;
                            assert(lookaheads@[x] == la);
                        }
                    },
                    Lookahead::Eof => {
                        if end {
                            assert(lookaheads@[named.len() as int] == la);
                        } else if lookaheads@.contains(la) {
                            let x = choose|x: int|
                                0 <= x < lookaheads@.len() && lookaheads@[x] == la;
                            assert(named[x] == la);
                        }
                    },
                }
            }
            assert forall|x: int| 0 <= x < lookaheads@.len() implies (
            #[trigger] lookaheads@[x] matches Lookahead::Terminal(t) ==> t < self.terminals) by {
                if x < named.len() {
                    assert(named[x] == lookaheads@[x]);
                }
            }
        }
        lookaheads
    }

    /// What a symbol can begin with is a terminal of the grammar.
    proof fn lemma_begins_in(&self, n: nat, symbol: Symbol, t: u32)
        requires
            self.wf(),
            residual::symbol_in(symbol, self.nullable@.len(), self.terminals as nat),
            lr::begins(self.rules(), self.nullable@, n, symbol, t),
        ensures
            t < self.terminals,
        decreases n,
    {
        let rules = self.rules();
        if let Symbol::Nonterminal(a) = symbol {
            let (p, x) = choose|p: int, x: int|
                #![trigger rules[p].rhs[x]]
                0 <= p < rules.len() && rules[p].lhs == a && 0 <= x < rules[p].rhs.len()
                    && lr::all_nullable(self.nullable@, rules[p].rhs.take(x)) && lr::begins(
                    rules,
                    self.nullable@,
                    (n - 1) as nat,
                    rules[p].rhs[x],
                    t,
                );
            self.lemma_rule(p);
            assert(residual::symbol_in(
                self.productions@[p].rhs@[x],
                self.nullable@.len(),
                self.terminals as nat,
            ));
            self.lemma_begins_in((n - 1) as nat, rules[p].rhs[x], t);
        }
    }
}

/// Whether one of the first symbols, behind nullable ones, can begin with a terminal.
spec fn starts_within(
    rules: Seq<Rule>,
    nullable: Seq<bool>,
    symbols: Seq<Symbol>,
    count: int,
    t: u32,
) -> bool {
    exists|x: int|
        #![trigger symbols[x]]
        0 <= x < count && lr::all_nullable(nullable, symbols.take(x)) && lr::can_begin(
            rules,
            nullable,
            symbols[x],
            t,
        )
}

/// Whether an item is brought by a seed over at most `n` steps.
pub open spec fn closed_within(
    rules: Seq<Rule>,
    nullable: Seq<bool>,
    seed: Seq<Lr1Item>,
    n: nat,
    item: Lr1Item,
) -> bool
    decreases n,
{
    seed.contains(item) || (n > 0 && exists|before: Lr1Item| #[trigger]
        lr::brings(rules, nullable, before, item) && closed_within(
            rules,
            nullable,
            seed,
            (n - 1) as nat,
            before,
        ))
}

/// Whether an item is in the closure of a seed.
pub open spec fn in_closure(
    rules: Seq<Rule>,
    nullable: Seq<bool>,
    seed: Seq<Lr1Item>,
    item: Lr1Item,
) -> bool {
    exists|n: nat| closed_within(rules, nullable, seed, n, item)
}

/// Whether a list of items holds what its items bring.
pub open spec fn is_closed(rules: Seq<Rule>, nullable: Seq<bool>, items: Seq<Lr1Item>) -> bool {
    forall|item: Lr1Item, other: Lr1Item|
        #![trigger items.contains(item), lr::brings(rules, nullable, item, other)]
        items.contains(item) && lr::brings(rules, nullable, item, other) ==> items.contains(other)
}

/// Whether a list of items is the closure of a seed, in ascending order.
pub open spec fn is_closure(
    rules: Seq<Rule>,
    nullable: Seq<bool>,
    seed: Seq<Lr1Item>,
    items: Seq<Lr1Item>,
) -> bool {
    &&& items_ascend(items)
    &&& forall|item: Lr1Item| #[trigger] seed.contains(item) ==> items.contains(item)
    &&& is_closed(rules, nullable, items)
    &&& forall|item: Lr1Item| #[trigger]
        items.contains(item) ==> in_closure(rules, nullable, seed, item)
}

/// Whether the items of a list that are not waiting have brought all that they bring.
spec fn brought(
    rules: Seq<Rule>,
    nullable: Seq<bool>,
    items: Seq<Lr1Item>,
    waiting: Seq<Lr1Item>,
) -> bool {
    forall|item: Lr1Item, other: Lr1Item|
        #![trigger items.contains(item), lr::brings(rules, nullable, item, other)]
        items.contains(item) && !waiting.contains(item) && lr::brings(rules, nullable, item, other)
            ==> items.contains(other)
}

impl LrGrammar {
    /// Whether every item names a production and a position in it.
    pub open spec fn items_in(&self, items: Seq<Lr1Item>) -> bool {
        forall|x: int| 0 <= x < items.len() ==> self.item_in(#[trigger] items[x])
    }

    /// The closure of a seed.
    pub fn closure(&self, seed: Vec<Lr1Item>, limits: &CompileLimits) -> (result: Result<
        Vec<Lr1Item>,
        CompileError,
    >)
        requires
            self.wf(),
            self.items_in(seed@),
        ensures
            match result {
                Ok(items) => is_closure(self.rules(), self.nullable@, seed@, items@)
                    && self.items_in(items@) && (items@.len() <= seed@.len() || items@.len()
                    <= limits.max_lr_items),
                Err(error) => over_limit(
                    error,
                    CompileStage::LrConstruction,
                    limits.max_lr_items,
                ) && long_closure(
                    self.rules(),
                    self.nullable@,
                    seed@,
                    limits.max_lr_items,
                    error,
                ),
            },
    {
        let ghost rules = self.rules();
        let ghost nullable = self.nullable@;
        let mut items: Vec<Lr1Item> = Vec::new();
        let mut agenda: VecDeque<Lr1Item> = VecDeque::new();
        let mut index: usize = 0;
        while index < seed.len()
            invariant
                index <= seed@.len(),
                items@.len() <= index,
                self.items_in(seed@),
                items_ascend(items@),
                forall|x: int| 0 <= x < index ==> items@.contains(#[trigger] seed@[x]),
                forall|item: Lr1Item| #[trigger]
                    items@.contains(item) ==> seed@.contains(item) && agenda@.contains(item),
                forall|x: int| 0 <= x < agenda@.len() ==> items@.contains(#[trigger] agenda@[x]),
            decreases seed@.len() - index,
        {
            let item = seed[index];
            let ghost before = items@;
            let ghost then = agenda@;
            if insert_item(&mut items, item) {
                agenda.push_back(item);
                assert(agenda@[then.len() as int] == item);
                assert forall|x: Lr1Item| #[trigger] items@.contains(x) implies seed@.contains(x)
                    && agenda@.contains(x) by {
                    if x != item {
                        assert(before.contains(x));
                        let y = choose|y: int| 0 <= y < then.len() && then[y] == x;
                        assert(agenda@[y] == x);
                    } else {
                        assert(seed@[index as int] == x);
                    }
                }
                assert forall|x: int| 0 <= x < agenda@.len() implies items@.contains(
                    #[trigger] agenda@[x],
                ) by {
                    if x < then.len() {
                        assert(before.contains(then[x]));
                    }
                }
            }
            assert forall|x: int| 0 <= x < index + 1 implies items@.contains(
                #[trigger] seed@[x],
            ) by {
                if x < index {
                    assert(before.contains(seed@[x]));
                }
            }
            index += 1;
        }
        proof {
            assert forall|item: Lr1Item| #[trigger] seed@.contains(item) implies items@.contains(
                item,
            ) by {
                let x = choose|x: int| 0 <= x < seed@.len() && seed@[x] == item;
            }
            assert forall|item: Lr1Item| #[trigger] items@.contains(item) implies in_closure(
                rules,
                nullable,
                seed@,
                item,
            ) by {
                assert(closed_within(rules, nullable, seed@, 0, item));
            }
            assert forall|x: int| 0 <= x < items@.len() implies self.item_in(
                #[trigger] items@[x],
            ) by {
                assert(items@.contains(items@[x]));
                let y = choose|y: int| 0 <= y < seed@.len() && seed@[y] == items@[x];
            }
        }
        while agenda.len() > 0
            invariant
                self.wf(),
                rules == self.rules(),
                nullable == self.nullable@,
                items_ascend(items@),
                self.items_in(items@),
                forall|item: Lr1Item| #[trigger]
                    seed@.contains(item) ==> items@.contains(item),
                forall|item: Lr1Item| #[trigger]
                    items@.contains(item) ==> in_closure(rules, nullable, seed@, item),
                forall|x: int| 0 <= x < agenda@.len() ==> items@.contains(#[trigger] agenda@[x]),
                brought(rules, nullable, items@, agenda@),
                items@.len() <= seed@.len() || items@.len() <= limits.max_lr_items,
            decreases
                if items@.len() <= limits.max_lr_items {
                    limits.max_lr_items - items@.len()
                } else {
                    0
                },
                agenda@.len(),
        {
            let ghost waiting = agenda@;
            match agenda.pop_front() {
                Some(item) => {
                    let ghost rest = agenda@;
                    assert(waiting[0] == item);
                    assert(rest =~= waiting.skip(1));
                    assert(items@.contains(item));
                    assert(self.item_in(item)) by {
                        let y = choose|y: int| 0 <= y < items@.len() && items@[y] == item;
                        assert(self.item_in(items@[y]));
                    }
                    assert forall|x: int| 0 <= x < rest.len() implies items@.contains(
                        #[trigger] rest[x],
                    ) by {
                        assert(rest[x] == waiting[x + 1]);
                    }
                    assert forall|x: Lr1Item| waiting.contains(x) && x != item implies
                        #[trigger] rest.contains(x) by {
                        let y = choose|y: int| 0 <= y < waiting.len() && waiting[y] == x;
                        assert(rest[y - 1] == x);
                    }
                    match self.symbol_after_dot(item) {
                        Some(Symbol::Nonterminal(nonterminal)) => {
                            assert(brought(rules, nullable, items@, rest.push(item))) by {
                                assert forall|x: Lr1Item| waiting.contains(x) implies
                                    #[trigger] rest.push(item).contains(x) by {
                                    if x == item {
                                        assert(rest.push(item)[rest.len() as int] == x);
                                    } else {
                                        assert(rest.contains(x));
                                        let y = choose|y: int|
                                            0 <= y < rest.len() && rest[y] == x;
                                        assert(rest.push(item)[y] == x);
                                    }
                                }
                            }
                            match self.bring(
                                item,
                                nonterminal,
                                &mut items,
                                &mut agenda,
                                limits,
                                Ghost(seed@),
                            ) {
                                Ok(()) => {},
                                Err(error) => {
                                    return Err(error);
                                },
                            }
                        },
                        _ => {
                            assert(brought(rules, nullable, items@, agenda@));
                        },
                    }
                },
                None => {},
            }
        }
        Ok(items)
    }

    /// Adds what an item brings.
    fn bring(
        &self,
        item: Lr1Item,
        nonterminal: NonterminalId,
        items: &mut Vec<Lr1Item>,
        agenda: &mut VecDeque<Lr1Item>,
        limits: &CompileLimits,
        Ghost(seed): Ghost<Seq<Lr1Item>>,
    ) -> (result: Result<(), CompileError>)
        requires
            self.wf(),
            self.item_in(item),
            lr::after_dot(self.rules(), item) == Some(Symbol::Nonterminal(nonterminal)),
            items_ascend(old(items)@),
            self.items_in(old(items)@),
            old(items)@.contains(item),
            forall|x: Lr1Item| #[trigger]
                old(items)@.contains(x) ==> in_closure(self.rules(), self.nullable@, seed, x),
            forall|x: int|
                0 <= x < old(agenda)@.len() ==> old(items)@.contains(#[trigger] old(agenda)@[x]),
            brought(self.rules(), self.nullable@, old(items)@, old(agenda)@.push(item)),
        ensures
            match result {
                Ok(_) => {
                    &&& items_ascend(final(items)@)
                    &&& self.items_in(final(items)@)
                    &&& forall|x: Lr1Item| #[trigger]
                        old(items)@.contains(x) ==> final(items)@.contains(x)
                    &&& forall|x: Lr1Item| #[trigger]
                        final(items)@.contains(x) ==> in_closure(
                            self.rules(),
                            self.nullable@,
                            seed,
                            x,
                        )
                    &&& forall|x: int|
                        0 <= x < final(agenda)@.len() ==> final(items)@.contains(
                            #[trigger] final(agenda)@[x],
                        )
                    &&& brought(self.rules(), self.nullable@, final(items)@, final(agenda)@)
                    &&& final(items)@ == old(items)@ ==> final(agenda)@ == old(agenda)@
                    &&& final(items)@ != old(items)@ ==> old(items)@.len() < final(items)@.len()
                        <= limits.max_lr_items
                },
                Err(error) => over_limit(
                    error,
                    CompileStage::LrConstruction,
                    limits.max_lr_items,
                ) && long_closure(self.rules(), self.nullable@, seed, limits.max_lr_items, error),
            },
    {
        let ghost rules = self.rules();
        let ghost nullable = self.nullable@;
        proof {
            self.lemma_rule(item.production as int);
            assert(residual::symbol_in(
                self.productions@[item.production as int].rhs@[item.dot as int],
                self.nullable@.len(),
                self.terminals as nat,
            ));
        }
        let lookaheads = self.first_of_tail(item);
        let ghost before = items@;
        let ghost then = agenda@;
        let list = &self.by_lhs[nonterminal as usize];
        let mut index: usize = 0;
        while index < list.len()
            invariant
                self.wf(),
                rules == self.rules(),
                nullable == self.nullable@,
                nonterminal < self.nullable@.len(),
                *list == self.by_lhs@[nonterminal as int],
                self.item_in(item),
                lr::after_dot(rules, item) == Some(Symbol::Nonterminal(nonterminal)),
                forall|la: Lookahead| #[trigger]
                    lookaheads@.contains(la) <==> lr::ahead(rules, nullable, item, la),
                forall|x: int|
                    0 <= x < lookaheads@.len() ==> (#[trigger] lookaheads@[x] matches Lookahead::Terminal(
                        t,
                    ) ==> t < self.terminals),
                before.contains(item),
                then == old(agenda)@,
                before == old(items)@,
                self.bringing(item, before, then, items@, agenda@, seed, limits),
                index <= list@.len(),
                forall|x: int, y: int|
                    #![trigger list@[x], lookaheads@[y]]
                    0 <= x < index && 0 <= y < lookaheads@.len() ==> items@.contains(
                        Lr1Item { production: list@[x], dot: 0, lookahead: lookaheads@[y] },
                    ),
            decreases list@.len() - index,
        {
            let production = list[index];
            assert(list@.contains(production));
            assert(self.by_lhs@[nonterminal as int]@.contains(production));
            let mut position: usize = 0;
            while position < lookaheads.len()
                invariant
                    self.wf(),
                    rules == self.rules(),
                    nullable == self.nullable@,
                    nonterminal < self.nullable@.len(),
                    index < list@.len(),
                    production == list@[index as int],
                    production < self.productions@.len(),
                    self.productions@[production as int].lhs == nonterminal,
                    self.item_in(item),
                    lr::after_dot(rules, item) == Some(Symbol::Nonterminal(nonterminal)),
                    forall|la: Lookahead| #[trigger]
                        lookaheads@.contains(la) <==> lr::ahead(rules, nullable, item, la),
                    forall|x: int|
                        0 <= x < lookaheads@.len() ==> (#[trigger] lookaheads@[x] matches Lookahead::Terminal(
                            t,
                        ) ==> t < self.terminals),
                    before.contains(item),
                    self.bringing(item, before, then, items@, agenda@, seed, limits),
                    position <= lookaheads@.len(),
                    forall|x: int, y: int|
                        #![trigger list@[x], lookaheads@[y]]
                        0 <= x < index && 0 <= y < lookaheads@.len() ==> items@.contains(
                            Lr1Item { production: list@[x], dot: 0, lookahead: lookaheads@[y] },
                        ),
                    forall|y: int|
                        #![trigger lookaheads@[y]]
                        0 <= y < position ==> items@.contains(
                            Lr1Item { production, dot: 0, lookahead: lookaheads@[y] },
                        ),
                decreases lookaheads@.len() - position,
            {
                let lookahead = lookaheads[position];
                let candidate = Lr1Item { production, dot: 0, lookahead };
                let ghost mid = items@;
                let ghost queue = agenda@;
                proof {
                    self.lemma_rule(production as int);
                    assert(lookaheads@.contains(lookahead));
                    assert(lr::brings(rules, nullable, item, candidate));
                    assert(mid.contains(item));
                    let n = choose|n: nat| closed_within(rules, nullable, seed, n, item);
                    assert((n + 1 - 1) as nat == n);
                    assert(closed_within(rules, nullable, seed, n + 1, candidate));
                }
                if insert_item(items, candidate) {
                    match enforce_compile_limit(
                        CompileStage::LrConstruction,
                        items.len(),
                        limits.max_lr_items,
                    ) {
                        Ok(()) => {},
                        Err(error) => {
                            assert(crowds(rules, nullable, seed, limits.max_lr_items, items@));
                            return Err(error);
                        },
                    }
                    agenda.push_back(candidate);
                    proof {
                        assert(agenda@[queue.len() as int] == candidate);
                        assert(self.bringing(item, before, then, items@, agenda@, seed, limits))
                            by {
                            assert forall|x: int| 0 <= x < items@.len() implies self.item_in(
                                #[trigger] items@[x],
                            ) by {
                                assert(items@.contains(items@[x]));
                                if items@[x] != candidate {
                                    assert(mid.contains(items@[x]));
                                    let y = choose|y: int|
                                        0 <= y < mid.len() && mid[y] == items@[x];
                                    assert(self.item_in(mid[y]));
                                }
                            }
                            assert forall|x: int| 0 <= x < agenda@.len() implies items@.contains(
                                #[trigger] agenda@[x],
                            ) by {
                                if x < queue.len() {
                                    assert(mid.contains(queue[x]));
                                }
                            }
                            assert(brought(rules, nullable, items@, agenda@.push(item))) by {
                                assert forall|x: Lr1Item, other: Lr1Item|
                                    #![trigger items@.contains(x), lr::brings(rules, nullable, x, other)]
                                    items@.contains(x) && !agenda@.push(item).contains(x)
                                        && lr::brings(
                                        rules,
                                        nullable,
                                        x,
                                        other,
                                    ) implies items@.contains(other) by {
                                    if x == candidate {
                                        assert(agenda@.push(item)[queue.len() as int]
                                            == candidate);
                                    } else {
                                        assert(mid.contains(x));
                                        assert(!queue.push(item).contains(x)) by {
                                            if queue.push(item).contains(x) {
                                                let y = choose|y: int|
                                                    0 <= y < queue.push(item).len()
                                                        && queue.push(item)[y] == x;
                                                if y < queue.len() {
                                                    assert(agenda@.push(item)[y] == x);
                                                } else {
                                                    assert(agenda@.push(item)[agenda@.len() as int]
                                                        == x);
                                                }
                                            }
                                        }
                                        assert(mid.contains(other));
                                    }
                                }
                            }
                        }
                    }
                }
                proof {
                    assert forall|x: int, y: int|
                        #![trigger list@[x], lookaheads@[y]]
                        0 <= x < index && 0 <= y < lookaheads@.len() implies items@.contains(
                        Lr1Item { production: list@[x], dot: 0, lookahead: lookaheads@[y] },
                    ) by {
                        let z = Lr1Item {
                            production: list@[x],
                            dot: 0,
                            lookahead: lookaheads@[y],
                        };
                        assert(mid.contains(z));
                    }
                    assert forall|y: int|
                        #![trigger lookaheads@[y]]
                        0 <= y < position + 1 implies items@.contains(
                        Lr1Item { production, dot: 0, lookahead: lookaheads@[y] },
                    ) by {
                        let z = Lr1Item { production, dot: 0, lookahead: lookaheads@[y] };
                        if y < position {
                            assert(mid.contains(z));
                        } else {
                            assert(z == candidate);
                        }
                    }
                }
                position += 1;
            }
            index += 1;
        }
        proof {
            assert forall|x: Lr1Item, other: Lr1Item|
                #![trigger items@.contains(x), lr::brings(rules, nullable, x, other)]
                items@.contains(x) && !agenda@.contains(x) && lr::brings(
                    rules,
                    nullable,
                    x,
                    other,
                ) implies items@.contains(other) by {
                if x == item {
                    self.lemma_rule(other.production as int);
                    assert(self.by_lhs@[nonterminal as int]@.contains(other.production));
                    assert(lookaheads@.contains(other.lookahead));
                    let a = choose|a: int|
                        0 <= a < list@.len() && list@[a] == other.production;
                    let b = choose|b: int|
                        0 <= b < lookaheads@.len() && lookaheads@[b] == other.lookahead;
                    assert(items@.contains(
                        Lr1Item { production: list@[a], dot: 0, lookahead: lookaheads@[b] },
                    ));
                } else {
                    assert(!agenda@.push(item).contains(x)) by {
                        if agenda@.push(item).contains(x) {
                            let y = choose|y: int|
                                0 <= y < agenda@.push(item).len() && agenda@.push(item)[y] == x;
                            assert(agenda@[y] == x);
                        }
                    }
                }
            }
        }
        Ok(())
    }

    /// What holds while an item brings others.
    spec fn bringing(
        &self,
        item: Lr1Item,
        before: Seq<Lr1Item>,
        then: Seq<Lr1Item>,
        items: Seq<Lr1Item>,
        agenda: Seq<Lr1Item>,
        seed: Seq<Lr1Item>,
        limits: &CompileLimits,
    ) -> bool {
        &&& items_ascend(items)
        &&& self.items_in(items)
        &&& forall|x: Lr1Item| #[trigger] before.contains(x) ==> items.contains(x)
        &&& forall|x: Lr1Item| #[trigger]
            items.contains(x) ==> in_closure(self.rules(), self.nullable@, seed, x)
        &&& forall|x: int| 0 <= x < agenda.len() ==> items.contains(#[trigger] agenda[x])
        &&& brought(self.rules(), self.nullable@, items, agenda.push(item))
        &&& items == before ==> agenda == then
        &&& before.len() <= items.len()
        &&& items != before ==> before.len() < items.len() <= limits.max_lr_items
    }
}

/// Whether an error says that a quantity is above its limit.
pub open spec fn over_limit(error: CompileError, stage: CompileStage, limit: usize) -> bool {
    error matches CompileError::ResourceLimitExceeded { stage: s, observed: o, limit: l } && s
        == stage && l == limit && o > l
}

/// Whether items, each once, are all in the closure of a seed, and are more than a limit.
pub open spec fn crowds(
    rules: Seq<Rule>,
    nullable: Seq<bool>,
    seed: Seq<Lr1Item>,
    limit: usize,
    items: Seq<Lr1Item>,
) -> bool {
    &&& items_ascend(items)
    &&& items.len() > limit
    &&& forall|item: Lr1Item| #[trigger]
        items.contains(item) ==> in_closure(rules, nullable, seed, item)
}

/// Whether an error says that a number was observed.
pub open spec fn observes(error: CompileError, count: nat) -> bool {
    error matches CompileError::ResourceLimitExceeded { observed, .. } && observed
        == count::saturated(count)
}

/// Whether the closure of a seed has more items than a limit, and an error says how many were found.
pub open spec fn long_closure(
    rules: Seq<Rule>,
    nullable: Seq<bool>,
    seed: Seq<Lr1Item>,
    limit: usize,
    error: CompileError,
) -> bool {
    exists|items: Seq<Lr1Item>| #[trigger]
        crowds(rules, nullable, seed, limit, items) && observes(error, items.len())
}

/// Whether the closure of what a symbol leads to has more items than a limit, and an error says how
/// many were found.
pub open spec fn long_successor(
    rules: Seq<Rule>,
    nullable: Seq<bool>,
    items: Seq<Lr1Item>,
    symbol: Symbol,
    limit: usize,
    error: CompileError,
) -> bool {
    exists|seed: Seq<Lr1Item>| #[trigger]
        is_moved(rules, items, symbol, seed) && long_closure(rules, nullable, seed, limit, error)
}

/// Whether items are those of a list that have a symbol behind the dot, with the dot behind it.
pub open spec fn is_moved(
    rules: Seq<Rule>,
    items: Seq<Lr1Item>,
    symbol: Symbol,
    seed: Seq<Lr1Item>,
) -> bool {
    &&& forall|item: Lr1Item| #[trigger]
        items.contains(item) && lr::after_dot(rules, item) == Some(symbol) ==> item.dot < u32::MAX
            && seed.contains(lr::moved(item))
    &&& forall|x: int|
        0 <= x < seed.len() ==> moved_from(rules, items, symbol, #[trigger] seed[x])
}

/// Whether an item is one of a list with the dot moved over a symbol.
pub open spec fn moved_from(
    rules: Seq<Rule>,
    items: Seq<Lr1Item>,
    symbol: Symbol,
    item: Lr1Item,
) -> bool {
    exists|before: Lr1Item| #[trigger]
        items.contains(before) && lr::after_dot(rules, before) == Some(symbol) && before.dot
            < u32::MAX && item == lr::moved(before)
}

/// Whether a list of items is the closure of those of another, moved over a symbol.
#[verifier::opaque]
pub open spec fn is_successor(
    rules: Seq<Rule>,
    nullable: Seq<bool>,
    items: Seq<Lr1Item>,
    symbol: Symbol,
    next: Seq<Lr1Item>,
) -> bool {
    exists|seed: Seq<Lr1Item>| #[trigger]
        is_moved(rules, items, symbol, seed) && is_closure(rules, nullable, seed, next)
}

impl LrGrammar {
    /// The items behind a symbol: those that have it behind the dot, moved over it, and what they
    /// bring.
    pub fn successor(&self, items: &Vec<Lr1Item>, symbol: Symbol, limits: &CompileLimits) -> (result:
        Result<Vec<Lr1Item>, CompileError>)
        requires
            self.wf(),
            self.items_in(items@),
        ensures
            match result {
                Ok(next) => is_successor(
                    self.rules(),
                    self.nullable@,
                    items@,
                    symbol,
                    next@,
                ) && self.items_in(next@),
                Err(error) => (over_limit(
                    error,
                    CompileStage::LrConstruction,
                    limits.max_lr_items,
                ) && long_successor(
                    self.rules(),
                    self.nullable@,
                    items@,
                    symbol,
                    limits.max_lr_items,
                    error,
                )) || overlong(error, self.productions@),
            },
    {
        let ghost rules = self.rules();
        let mut seed: Vec<Lr1Item> = Vec::new();
        let mut index: usize = 0;
        while index < items.len()
            invariant
                self.wf(),
                rules == self.rules(),
                self.items_in(items@),
                index <= items@.len(),
                self.items_in(seed@),
                forall|x: int|
                    0 <= x < index && lr::after_dot(rules, #[trigger] items@[x]) == Some(symbol)
                        ==> items@[x].dot < u32::MAX && seed@.contains(lr::moved(items@[x])),
                forall|x: int|
                    0 <= x < seed@.len() ==> moved_from(
                        rules,
                        items@,
                        symbol,
                        #[trigger] seed@[x],
                    ),
            decreases items@.len() - index,
        {
            let item = items[index];
            let ghost before = seed@;
            let matching = match self.symbol_after_dot(item) {
                Some(found) => found == symbol,
                None => false,
            };
            if matching {
                proof {
                    self.lemma_rule(item.production as int);
                }
                if item.dot == u32::MAX {
                    proof {
                        assert(self.productions@[item.production as int].rhs@.len() > u32::MAX);
                    }
                    return Err(
                        CompileError::InternalInvariant { message: "LR item dot overflowed" },
                    );
                }
                let next = Lr1Item {
                    production: item.production,
                    dot: item.dot + 1,
                    lookahead: item.lookahead,
                };
                seed.push(next);
                proof {
                    assert(next == lr::moved(item));
                    assert(items@.contains(item));
                    assert(moved_from(rules, items@, symbol, next));
                    assert(seed@[before.len() as int] == next);
                }
            }
            proof {
                assert forall|x: int|
                    0 <= x < index + 1 && lr::after_dot(rules, #[trigger] items@[x]) == Some(
                        symbol,
                    ) implies items@[x].dot < u32::MAX && seed@.contains(
                    lr::moved(items@[x]),
                ) by {
                    if x < index {
                        assert(before.contains(lr::moved(items@[x])));
                        let y = choose|y: int|
                            0 <= y < before.len() && before[y] == lr::moved(items@[x]);
                        assert(seed@[y] == lr::moved(items@[x]));
                    }
                }
            }
            index += 1;
        }
        proof {
            reveal(is_successor);
            assert(is_moved(rules, items@, symbol, seed@)) by {
                assert forall|item: Lr1Item| #[trigger]
                    items@.contains(item) && lr::after_dot(rules, item) == Some(
                        symbol,
                    ) implies item.dot < u32::MAX && seed@.contains(lr::moved(item)) by {
                    let x = choose|x: int| 0 <= x < items@.len() && items@[x] == item;
                    assert(lr::after_dot(rules, items@[x]) == Some(symbol));
                }
            }
        }
        self.closure(seed, limits)
    }
}

/// Whether an error says that a production is too long, and one is.
pub open spec fn overlong(error: CompileError, productions: Seq<ParserProduction>) -> bool {
    &&& error matches CompileError::InternalInvariant { message: _ }
    &&& exists|p: int|
        0 <= p < productions.len() && (#[trigger] productions[p]).rhs@.len() > u32::MAX
}

} // verus!
