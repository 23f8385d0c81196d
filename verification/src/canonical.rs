//! The canonical collection of item sets.

use rustc_hash::FxHashMap;
use vstd::prelude::*;

use crate::derivation::Rule;
use crate::error::{enforce_compile_limit, CompileError, CompileStage};
use crate::fx;
use crate::item_sets;
use crate::item_sets::LrGrammar;
use crate::lr;
use crate::lr::{Lookahead, Lr1Item};
use crate::schema::CompileLimits;
use crate::symbol::Symbol;

verus! {

/// A symbol as a number: terminals before nonterminals.
pub open spec fn symbol_rank(symbol: Symbol) -> int {
    match symbol {
        Symbol::Terminal(t) => t as int,
        Symbol::Nonterminal(a) => 0x1_0000_0000 + a,
    }
}

/// A symbol as a number: terminals before nonterminals.
fn symbol_key(symbol: Symbol) -> (key: u64)
    ensures
        key == symbol_rank(symbol),
{
    match symbol {
        Symbol::Terminal(t) => t as u64,
        Symbol::Nonterminal(a) => 0x1_0000_0000 + a as u64,
    }
}

/// Adds a symbol in ascending order, if it is not there.
fn insert_symbol(symbols: &mut Vec<Symbol>, symbol: Symbol)
    requires
        symbols_ascend(old(symbols)@),
    ensures
        symbols_ascend(final(symbols)@),
        forall|x: Symbol| #[trigger]
            final(symbols)@.contains(x) <==> old(symbols)@.contains(x) || x == symbol,
{
    let ghost before = symbols@;
    let key = symbol_key(symbol);
    let mut place: usize = 0;
    while place < symbols.len() && symbol_key(symbols[place]) < key
        invariant
            place <= symbols@.len(),
            symbols@ == before,
            key == symbol_rank(symbol),
            forall|x: int| 0 <= x < place ==> symbol_rank(#[trigger] symbols@[x]) < key,
        decreases symbols@.len() - place,
    {
        place += 1;
    }
    if place < symbols.len() && symbols[place] == symbol {
        assert(before[place as int] == symbol);
        return;
    }
    symbols.insert(place, symbol);
    proof {
        let p = place as int;
        assert(symbols@ == before.insert(p, symbol));
        assert forall|i: int, j: int| 0 <= i < j < symbols@.len() implies symbol_rank(
            symbols@[i],
        ) < symbol_rank(symbols@[j]) by {
            let x = if i < p {
                i
            } else {
                i - 1
            };
            let y = if j < p {
                j
            } else {
                j - 1
            };
            if i == p {
                assert(symbols@[j] == before[y]);
                if y > p {
                    assert(symbol_rank(before[p]) < symbol_rank(before[y]));
                }
                assert(before[p] != symbol);
            } else if j == p {
                assert(symbols@[i] == before[i]);
            } else {
                assert(symbols@[i] == before[x] && symbols@[j] == before[y]);
            }
        }
        assert forall|x: Symbol| #[trigger] symbols@.contains(x) <==> before.contains(x) || x
            == symbol by {
            if symbols@.contains(x) {
                let i = choose|i: int| 0 <= i < symbols@.len() && symbols@[i] == x;
                if i < p {
                    assert(before[i] == x);
                } else if i > p {
                    assert(before[i - 1] == x);
                }
            }
            if before.contains(x) {
                let i = choose|i: int| 0 <= i < before.len() && before[i] == x;
                if i < p {
                    assert(symbols@[i] == x);
                } else {
                    assert(symbols@[i + 1] == x);
                }
            }
            if x == symbol {
                assert(symbols@[p] == x);
            }
        }
    }
}

/// Whether symbols ascend, each once.
pub open spec fn symbols_ascend(symbols: Seq<Symbol>) -> bool {
    forall|i: int, j: int|
        0 <= i < j < symbols.len() ==> symbol_rank(symbols[i]) < symbol_rank(symbols[j])
}

/// The symbols behind the dots of items, in ascending order.
fn next_symbols(grammar: &LrGrammar, items: &Vec<Lr1Item>) -> (symbols: Vec<Symbol>)
    requires
        grammar.wf(),
        grammar.items_in(items@),
    ensures
        symbols_ascend(symbols@),
        forall|symbol: Symbol| #[trigger]
            symbols@.contains(symbol) <==> follows(grammar.rules(), items@, symbol),
{
    let mut symbols: Vec<Symbol> = Vec::new();
    let ghost rules = grammar.rules();
    let mut index: usize = 0;
    while index < items.len()
        invariant
            grammar.wf(),
            rules == grammar.rules(),
            grammar.items_in(items@),
            index <= items@.len(),
            symbols_ascend(symbols@),
            forall|symbol: Symbol| #[trigger]
                symbols@.contains(symbol) ==> follows(rules, items@, symbol),
            forall|x: int|
                0 <= x < index && lr::after_dot(rules, #[trigger] items@[x]) is Some
                    ==> symbols@.contains(lr::after_dot(rules, items@[x])->0),
        decreases items@.len() - index,
    {
        let ghost before = symbols@;
        match grammar.symbol_after_dot(items[index]) {
            Some(symbol) => {
                insert_symbol(&mut symbols, symbol);
                assert(items@.contains(items@[index as int]));
                assert(follows(rules, items@, symbol));
            },
            None => {},
        }
        assert forall|x: int|
            0 <= x < index + 1 && lr::after_dot(rules, #[trigger] items@[x])
                is Some implies symbols@.contains(lr::after_dot(rules, items@[x])->0) by {
            if x < index {
                assert(before.contains(lr::after_dot(rules, items@[x])->0));
            }
        }
        index += 1;
    }
    proof {
        assert forall|symbol: Symbol| #[trigger] symbols@.contains(symbol) <==> follows(
            rules,
            items@,
            symbol,
        ) by {
            if follows(rules, items@, symbol) {
                let item = choose|item: Lr1Item| #[trigger]
                    items@.contains(item) && lr::after_dot(rules, item) == Some(symbol);
                let x = choose|x: int| 0 <= x < items@.len() && items@[x] == item;
                assert(lr::after_dot(rules, items@[x]) is Some);
            }
        }
    }
    symbols
}

/// Whether an item of a list has a symbol behind its dot.
pub open spec fn follows(rules: Seq<Rule>, items: Seq<Lr1Item>, symbol: Symbol) -> bool {
    exists|item: Lr1Item| #[trigger]
        items.contains(item) && lr::after_dot(rules, item) == Some(symbol)
}

/// A number for the first items of a list. Lists with different numbers are different.
pub open spec fn items_code(items: Seq<Lr1Item>, n: nat) -> u32
    decreases n,
{
    if n == 0 {
        0u32
    } else {
        let item = items[n - 1];
        let lookahead = match item.lookahead {
            Lookahead::Terminal(t) => t,
            Lookahead::Eof => u32::MAX,
        };
        items_code(items, (n - 1) as nat).wrapping_mul(31).wrapping_add(
            item.production.wrapping_mul(7),
        ).wrapping_add(item.dot).wrapping_mul(31).wrapping_add(lookahead)
    }
}

fn code_items(items: &Vec<Lr1Item>) -> (code: u32)
    ensures
        code == items_code(items@, items@.len()),
{
    let mut code: u32 = 0;
    let mut index: usize = 0;
    while index < items.len()
        invariant
            index <= items@.len(),
            code == items_code(items@, index as nat),
        decreases items@.len() - index,
    {
        let item = items[index];
        let lookahead: u32 = match item.lookahead {
            Lookahead::Terminal(t) => t,
            Lookahead::Eof => u32::MAX,
        };
        code = code.wrapping_mul(31).wrapping_add(item.production.wrapping_mul(7)).wrapping_add(
            item.dot,
        ).wrapping_mul(31).wrapping_add(lookahead);
        index += 1;
    }
    code
}

/// Whether two lists of items are the same.
fn same_items(a: &Vec<Lr1Item>, b: &Vec<Lr1Item>) -> (same: bool)
    ensures
        same == (a@ == b@),
{
    if a.len() != b.len() {
        return false;
    }
    let mut index: usize = 0;
    while index < a.len()
        invariant
            index <= a@.len() == b@.len(),
            forall|i: int| 0 <= i < index ==> a@[i] == b@[i],
        decreases a@.len() - index,
    {
        if a[index] != b[index] {
            return false;
        }
        index += 1;
    }
    assert(a@ =~= b@);
    true
}

/// Item sets, and where each symbol leads from each of them.
pub struct Canonical {
    pub states: Vec<Vec<Lr1Item>>,
    pub edges: Vec<Vec<(Symbol, u32)>>,
    pub total_items: usize,
}

/// The item that everything starts from.
pub open spec fn start_item(grammar: &LrGrammar) -> Lr1Item {
    Lr1Item {
        production: (grammar.productions@.len() - 1) as u32,
        dot: 0,
        lookahead: Lookahead::Eof,
    }
}

/// How many items there are in all.
pub open spec fn items_total(states: Seq<Vec<Lr1Item>>) -> nat
    decreases states.len(),
{
    if states.len() == 0 {
        0
    } else {
        items_total(states.drop_last()) + states.last()@.len()
    }
}

/// Whether an edge leads where a symbol leads from a state.
pub open spec fn edge_exact(
    grammar: &LrGrammar,
    states: Seq<Vec<Lr1Item>>,
    s: int,
    edge: (Symbol, u32),
) -> bool {
    &&& edge.1 < states.len()
    &&& follows(grammar.rules(), states[s]@, edge.0)
    &&& item_sets::is_successor(
        grammar.rules(),
        grammar.nullable@,
        states[s]@,
        edge.0,
        states[edge.1 as int]@,
    )
}

/// Whether a row has an edge for each symbol behind a dot, and no other.
pub open spec fn row_exact(
    grammar: &LrGrammar,
    states: Seq<Vec<Lr1Item>>,
    s: int,
    row: Seq<(Symbol, u32)>,
) -> bool {
    &&& forall|e: int| 0 <= e < row.len() ==> edge_exact(grammar, states, s, #[trigger] row[e])
    &&& forall|symbol: Symbol| #[trigger]
        follows(grammar.rules(), states[s]@, symbol) ==> exists|e: int|
            0 <= e < row.len() && (#[trigger] row[e]).0 == symbol
    &&& forall|e: int, f: int|
        0 <= e < f < row.len() ==> (#[trigger] row[e]).0 != (#[trigger] row[f]).0
}

/// Whether the states are item sets, each once: the first is that of the start item, and each other
/// holds an item of which something was read.
#[verifier::opaque]
pub open spec fn states_exact(grammar: &LrGrammar, states: Seq<Vec<Lr1Item>>) -> bool {
    &&& 0 < states.len() <= u32::MAX + 1
    &&& item_sets::is_closure(
        grammar.rules(),
        grammar.nullable@,
        seq![start_item(grammar)],
        states[0]@,
    )
    &&& forall|s: int|
        0 <= s < states.len() ==> grammar.items_in((#[trigger] states[s])@)
            && item_sets::items_ascend(states[s]@) && item_sets::is_closed(
            grammar.rules(),
            grammar.nullable@,
            states[s]@,
        )
    &&& forall|s: int| 0 < s < states.len() ==> some_read((#[trigger] states[s])@)
    &&& forall|s: int| 0 < s < states.len() ==> #[trigger] reached(grammar, states, s)
    &&& forall|s: int|
        0 <= s < states.len() ==> grounded(grammar, (#[trigger] states[s])@, s == 0)
    &&& forall|s: int, t: int|
        0 <= s < t < states.len() ==> (#[trigger] states[s])@ != (#[trigger] states[t])@
}

/// Whether a symbol leads from an earlier state to a state.
pub open spec fn reached(grammar: &LrGrammar, states: Seq<Vec<Lr1Item>>, s: int) -> bool {
    exists|r: int, symbol: Symbol| #[trigger] leads(grammar, states, r, symbol, s)
}

/// Whether a symbol leads from one state to a later one.
pub open spec fn leads(
    grammar: &LrGrammar,
    states: Seq<Vec<Lr1Item>>,
    r: int,
    symbol: Symbol,
    s: int,
) -> bool {
    &&& 0 <= r < s < states.len()
    &&& follows(grammar.rules(), states[r]@, symbol)
    &&& item_sets::is_successor(
        grammar.rules(),
        grammar.nullable@,
        states[r]@,
        symbol,
        states[s]@,
    )
}

/// Every state is the closure of items of which something was read, but for the first, which is that
/// of the start item.
pub proof fn lemma_state_closure(grammar: &LrGrammar, states: Seq<Vec<Lr1Item>>, s: int) -> (seed: Seq<
    Lr1Item,
>)
    requires
        states_exact(grammar, states),
        0 <= s < states.len(),
    ensures
        item_sets::is_closure(grammar.rules(), grammar.nullable@, seed, states[s]@),
        forall|item: Lr1Item| #[trigger]
            seed.contains(item) ==> item.dot > 0 || (s == 0 && item == start_item(grammar)),
{
    reveal(states_exact);
    if s == 0 {
        seq![start_item(grammar)]
    } else {
        assert(reached(grammar, states, s));
        let (r, symbol) = choose|r: int, symbol: Symbol| #[trigger]
            leads(grammar, states, r, symbol, s);
        reveal(item_sets::is_successor);
        let seed = choose|seed: Seq<Lr1Item>| #[trigger]
            item_sets::is_moved(grammar.rules(), states[r]@, symbol, seed)
                && item_sets::is_closure(grammar.rules(), grammar.nullable@, seed, states[s]@);
        assert forall|item: Lr1Item| #[trigger] seed.contains(item) implies item.dot > 0 by {
            let z = choose|z: int| 0 <= z < seed.len() && seed[z] == item;
            assert(item_sets::moved_from(grammar.rules(), states[r]@, symbol, seed[z]));
        }
        seed
    }
}

/// Whether every item of which nothing was read is the start item or brought by another, and the
/// items of the augmented production expect the end.
pub open spec fn grounded(grammar: &LrGrammar, items: Seq<Lr1Item>, first: bool) -> bool {
    &&& forall|item: Lr1Item| #[trigger]
        items.contains(item) && item.dot == 0 ==> (first && item == start_item(grammar))
            || item_brought(grammar, items, item)
    &&& forall|item: Lr1Item| #[trigger]
        items.contains(item) && item.production == grammar.productions@.len() - 1
            ==> item.lookahead == Lookahead::Eof
}

/// Whether an item of a list brings another.
pub open spec fn item_brought(grammar: &LrGrammar, items: Seq<Lr1Item>, item: Lr1Item) -> bool {
    exists|before: Lr1Item| #[trigger]
        items.contains(before) && lr::brings(grammar.rules(), grammar.nullable@, before, item)
}

/// What is in the closure of a seed is in a closed list that holds the seed.
pub proof fn lemma_closure_held(
    rules: Seq<Rule>,
    nullable: Seq<bool>,
    seed: Seq<Lr1Item>,
    items: Seq<Lr1Item>,
    n: nat,
    item: Lr1Item,
)
    requires
        item_sets::is_closure(rules, nullable, seed, items),
        item_sets::closed_within(rules, nullable, seed, n, item),
    ensures
        items.contains(item),
    decreases n,
{
    if !seed.contains(item) {
        let before = choose|before: Lr1Item| #[trigger]
            lr::brings(rules, nullable, before, item) && item_sets::closed_within(
                rules,
                nullable,
                seed,
                (n - 1) as nat,
                before,
            );
        lemma_closure_held(rules, nullable, seed, items, (n - 1) as nat, before);
    }
}

/// A nonterminal that a production names is not the augmented one.
pub proof fn lemma_brings_plain(grammar: &LrGrammar, before: Lr1Item, item: Lr1Item)
    requires
        grammar.wf(),
        lr::brings(grammar.rules(), grammar.nullable@, before, item),
    ensures
        item.production != grammar.productions@.len() - 1,
{
    grammar.lemma_rule(before.production as int);
    grammar.lemma_rule(item.production as int);
    assert(crate::residual::symbol_in(
        grammar.productions@[before.production as int].rhs@[before.dot as int],
        grammar.nullable@.len(),
        grammar.terminals as nat,
    ));
}

/// The closure of a seed whose items were read, or of the start item, is grounded.
proof fn lemma_grounded(
    grammar: &LrGrammar,
    seed: Seq<Lr1Item>,
    items: Seq<Lr1Item>,
    first: bool,
)
    requires
        grammar.wf(),
        item_sets::is_closure(grammar.rules(), grammar.nullable@, seed, items),
        forall|item: Lr1Item| #[trigger]
            seed.contains(item) ==> item.dot > 0 || (first && item == start_item(grammar)),
        forall|item: Lr1Item| #[trigger]
            seed.contains(item) && item.production == grammar.productions@.len() - 1
                ==> item.lookahead == Lookahead::Eof,
    ensures
        grounded(grammar, items, first),
{
    let rules = grammar.rules();
    let nullable = grammar.nullable@;
    assert forall|item: Lr1Item| #[trigger] items.contains(item) implies (item.dot == 0 ==> (first
        && item == start_item(grammar)) || item_brought(grammar, items, item)) && (item.production
        == grammar.productions@.len() - 1 ==> item.lookahead == Lookahead::Eof) by {
        assert(item_sets::in_closure(rules, nullable, seed, item));
        let n = choose|n: nat| item_sets::closed_within(rules, nullable, seed, n, item);
        if !seed.contains(item) {
            let before = choose|before: Lr1Item| #[trigger]
                lr::brings(rules, nullable, before, item) && item_sets::closed_within(
                    rules,
                    nullable,
                    seed,
                    (n - 1) as nat,
                    before,
                );
            lemma_closure_held(rules, nullable, seed, items, (n - 1) as nat, before);
            lemma_brings_plain(grammar, before, item);
            assert(items.contains(before));
        }
    }
}

/// Whether something was read of an item.
pub open spec fn some_read(items: Seq<Lr1Item>) -> bool {
    exists|x: int| 0 <= x < items.len() && (#[trigger] items[x]).dot > 0
}

impl Canonical {
    /// Whether the states are the item sets that are reached from the start item, and the edges
    /// lead from each to its successors.
    pub open spec fn exact(&self, grammar: &LrGrammar) -> bool {
        &&& states_exact(grammar, self.states@)
        &&& self.edges@.len() == self.states@.len()
        &&& forall|s: int|
            0 <= s < self.states@.len() ==> row_exact(
                grammar,
                self.states@,
                s,
                (#[trigger] self.edges@[s])@,
            )
        &&& self.total_items == items_total(self.states@)
    }

    /// Whether the states and their items keep within the limits. One state with one item always
    /// does.
    pub open spec fn within(&self, limits: &CompileLimits) -> bool {
        &&& self.states@.len() == 1 || self.states@.len() <= limits.max_lr_states
        &&& self.total_items <= limits.max_lr_items || (self.states@.len() == 1 && self.total_items
            <= 1)
    }
}

/// Whether every state is found under its number.
#[verifier::opaque]
spec fn indexed(states: Seq<Vec<Lr1Item>>, index: Map<u32, Vec<u32>>) -> bool {
    forall|s: int|
        #![trigger states[s]]
        0 <= s < states.len() ==> index.dom().contains(
            items_code(states[s]@, states[s]@.len()),
        ) && index[items_code(states[s]@, states[s]@.len())]@.contains(s as u32)
}

/// The state with the given items, if there is one.
fn find_state(
    states: &Vec<Vec<Lr1Item>>,
    index: &FxHashMap<u32, Vec<u32>>,
    items: &Vec<Lr1Item>,
) -> (found: Option<u32>)
    requires
        indexed(states@, index@),
        states@.len() <= u32::MAX + 1,
    ensures
        match found {
            Some(s) => s < states@.len() && states@[s as int]@ == items@,
            None => forall|s: int| 0 <= s < states@.len() ==> (#[trigger] states@[s])@ != items@,
        },
{
    proof {
        reveal(indexed);
    }
    let code = code_items(items);
    match fx::map_get(index, code) {
        Some(list) => {
            let mut place: usize = 0;
            while place < list.len()
                invariant
                    place <= list@.len(),
                    forall|x: int|
                        0 <= x < place && (#[trigger] list@[x]) < states@.len()
                            ==> states@[list@[x] as int]@ != items@,
                decreases list@.len() - place,
            {
                let state = list[place];
                if (state as usize) < states.len() && same_items(
                    &states[state as usize],
                    items,
                ) {
                    return Some(state);
                }
                place += 1;
            }
            assert forall|s: int| 0 <= s < states@.len() implies (#[trigger] states@[s])@
                != items@ by {
                if states@[s]@ == items@ {
                    assert(list@.contains(s as u32));
                    let x = choose|x: int| 0 <= x < list@.len() && list@[x] == s as u32;
                    assert(list@[x] < states@.len());
                }
            }
            None
        },
        None => {
            assert forall|s: int| 0 <= s < states@.len() implies (#[trigger] states@[s])@
                != items@ by {
                if states@[s]@ == items@ {
                    assert(index@.dom().contains(code));
                }
            }
            None
        },
    }
}

/// Notes a new state under its number.
fn note_state(
    states: &Vec<Vec<Lr1Item>>,
    index: &mut FxHashMap<u32, Vec<u32>>,
    code: u32,
    state: u32,
)
    requires
        0 < states@.len() <= u32::MAX + 1,
        state == states@.len() - 1,
        code == items_code(states@.last()@, states@.last()@.len()),
        indexed(states@.drop_last(), old(index)@),
    ensures
        indexed(states@, final(index)@),
{
    proof {
        reveal(indexed);
    }
    let ghost before = index@;
    let mut list: Vec<u32> = match fx::map_get(index, code) {
        Some(list) => {
            let copy = list.clone();
            assert(copy@ =~= list@);
            copy
        },
        None => Vec::new(),
    };
    let ghost old_list = list@;
    list.push(state);
    assert(list@[old_list.len() as int] == state);
    fx::map_insert(index, code, list);
    assert forall|s: int|
        #![trigger states@[s]]
        0 <= s < states@.len() implies index@.dom().contains(
        items_code(states@[s]@, states@[s]@.len()),
    ) && index@[items_code(states@[s]@, states@[s]@.len())]@.contains(s as u32) by {
        let front = states@.drop_last();
        if s < front.len() {
            assert(front[s] == states@[s]);
            let c = items_code(front[s]@, front[s]@.len());
            assert(before.dom().contains(c) && before[c]@.contains(s as u32));
            if c == code {
                let x = choose|x: int| 0 <= x < old_list.len() && old_list[x] == s as u32;
                assert(list@[x] == s as u32);
            }
        }
    }
}

/// Whether a list was only added to.
spec fn grown(before: Seq<Vec<Lr1Item>>, after: Seq<Vec<Lr1Item>>) -> bool {
    &&& before.len() <= after.len()
    &&& forall|s: int| 0 <= s < before.len() ==> after[s] == #[trigger] before[s]
}

proof fn lemma_row_grown(
    grammar: &LrGrammar,
    before: Seq<Vec<Lr1Item>>,
    after: Seq<Vec<Lr1Item>>,
    s: int,
    row: Seq<(Symbol, u32)>,
)
    requires
        grown(before, after),
        0 <= s < before.len(),
        row_exact(grammar, before, s, row),
    ensures
        row_exact(grammar, after, s, row),
{
    assert(after[s] == before[s]);
    assert forall|e: int| 0 <= e < row.len() implies edge_exact(
        grammar,
        after,
        s,
        #[trigger] row[e],
    ) by {
        assert(edge_exact(grammar, before, s, row[e]));
        assert(after[row[e].1 as int] == before[row[e].1 as int]);
    }
}

/// Whether states of a grammar are more than a limit, or than can be numbered.
pub open spec fn many_states(
    grammar: &LrGrammar,
    limit: usize,
    states: Seq<Vec<Lr1Item>>,
    error: CompileError,
) -> bool {
    &&& states_exact(grammar, states)
    &&& states.len() > limit || states.len() > u32::MAX
    &&& item_sets::observes(error, states.len()) || (states.len() > u32::MAX
        && item_sets::observes(error, states.len() + 1))
}

/// Whether states of a grammar have more items than a limit, or are more than can be numbered.
pub open spec fn many_items(
    grammar: &LrGrammar,
    limit: usize,
    states: Seq<Vec<Lr1Item>>,
    error: CompileError,
) -> bool {
    &&& states_exact(grammar, states)
    &&& (items_total(states) > limit && item_sets::observes(error, items_total(states)))
        || states.len() > u32::MAX
}

/// Whether a symbol leads from a state of a grammar to more items than a limit.
pub open spec fn long_step(
    grammar: &LrGrammar,
    limit: usize,
    states: Seq<Vec<Lr1Item>>,
    s: int,
    symbol: Symbol,
    error: CompileError,
) -> bool {
    &&& states_exact(grammar, states)
    &&& 0 <= s < states.len()
    &&& item_sets::long_successor(
        grammar.rules(),
        grammar.nullable@,
        states[s]@,
        symbol,
        limit,
        error,
    )
}

/// Whether an error is that of a limit.
pub open spec fn limit_error(error: CompileError, limit: usize) -> bool {
    error matches CompileError::ResourceLimitExceeded { stage, limit: found, .. } && stage
        == CompileStage::LrConstruction && found == limit
}

/// Whether an error says that there are too many states or items, or that a production is too long,
/// and it is so.
pub open spec fn construction_error(
    error: CompileError,
    grammar: &LrGrammar,
    limits: &CompileLimits,
) -> bool {
    ||| limit_error(error, limits.max_lr_items) && item_sets::long_closure(
        grammar.rules(),
        grammar.nullable@,
        seq![start_item(grammar)],
        limits.max_lr_items,
        error,
    )
    ||| limit_error(error, limits.max_lr_items) && exists|
        states: Seq<Vec<Lr1Item>>,
        s: int,
        symbol: Symbol,
    | #[trigger] long_step(grammar, limits.max_lr_items, states, s, symbol, error)
    ||| limit_error(error, limits.max_lr_states) && exists|states: Seq<Vec<Lr1Item>>| #[trigger]
        many_states(grammar, limits.max_lr_states, states, error)
    ||| limit_error(error, limits.max_lr_items) && exists|states: Seq<Vec<Lr1Item>>| #[trigger]
        many_items(grammar, limits.max_lr_items, states, error)
    ||| limit_error(error, u32::MAX as usize) && exists|states: Seq<Vec<Lr1Item>>| #[trigger]
        many_states(grammar, u32::MAX as usize, states, error)
    ||| item_sets::overlong(error, grammar.productions@)
}

/// A state names productions and positions in them, and there are not too many.
pub proof fn lemma_state_items(grammar: &LrGrammar, states: Seq<Vec<Lr1Item>>, s: int)
    requires
        states_exact(grammar, states),
        0 <= s < states.len(),
    ensures
        0 < states.len() <= u32::MAX + 1,
        grammar.items_in(states[s]@),
        item_sets::items_ascend(states[s]@),
        item_sets::is_closed(grammar.rules(), grammar.nullable@, states[s]@),
        s > 0 ==> some_read(states[s]@),
        grounded(grammar, states[s]@, s == 0),
        item_sets::is_closure(
            grammar.rules(),
            grammar.nullable@,
            seq![start_item(grammar)],
            states[0]@,
        ),
{
    reveal(states_exact);
}

/// The first state is the closure of the start item.
pub proof fn lemma_state_items_first(grammar: &LrGrammar, states: Seq<Vec<Lr1Item>>)
    requires
        states_exact(grammar, states),
    ensures
        0 < states.len() <= u32::MAX + 1,
        item_sets::is_closure(
            grammar.rules(),
            grammar.nullable@,
            seq![start_item(grammar)],
            states[0]@,
        ),
{
    reveal(states_exact);
}

/// A new successor of a state can be added.
proof fn lemma_push_state(
    grammar: &LrGrammar,
    before: Seq<Vec<Lr1Item>>,
    next: Vec<Lr1Item>,
    state: int,
    symbol: Symbol,
)
    requires
        grammar.wf(),
        states_exact(grammar, before),
        before.len() <= u32::MAX,
        0 <= state < before.len(),
        follows(grammar.rules(), before[state]@, symbol),
        grammar.items_in(next@),
        item_sets::is_successor(
            grammar.rules(),
            grammar.nullable@,
            before[state]@,
            symbol,
            next@,
        ),
        forall|s: int| 0 <= s < before.len() ==> (#[trigger] before[s])@ != next@,
    ensures
        states_exact(grammar, before.push(next)),
        grown(before, before.push(next)),
        edge_exact(grammar, before.push(next), state, (symbol, before.len() as u32)),
{
    reveal(states_exact);
    reveal(item_sets::is_successor);
    let states = before.push(next);
    let rules = grammar.rules();
    let items = next@;
    assert forall|s: int, t: int| 0 <= s < t < states.len() implies (#[trigger] states[s])@ != (
    #[trigger] states[t])@ by {
        assert(states[s] == before[s]);
        if t < before.len() {
            assert(states[t] == before[t]);
        }
    }
    let seed = choose|seed: Seq<Lr1Item>| #[trigger]
        item_sets::is_moved(rules, before[state]@, symbol, seed) && item_sets::is_closure(
            rules,
            grammar.nullable@,
            seed,
            items,
        );
    let item = choose|item: Lr1Item| #[trigger]
        before[state]@.contains(item) && lr::after_dot(rules, item) == Some(symbol);
    assert(seed.contains(lr::moved(item)));
    assert(items.contains(lr::moved(item)));
    let x = choose|x: int| 0 <= x < items.len() && items[x] == lr::moved(item);
    assert(items[x].dot > 0);
    assert(grounded(grammar, items, false)) by {
        assert forall|y: Lr1Item| #[trigger] seed.contains(y) implies y.dot > 0 && (y.production
            == grammar.productions@.len() - 1 ==> y.lookahead == Lookahead::Eof) by {
            let z = choose|z: int| 0 <= z < seed.len() && seed[z] == y;
            assert(item_sets::moved_from(rules, before[state]@, symbol, seed[z]));
            let was = choose|was: Lr1Item| #[trigger]
                before[state]@.contains(was) && lr::after_dot(rules, was) == Some(symbol)
                    && was.dot < u32::MAX && y == lr::moved(was);
            assert(grounded(grammar, before[state]@, state == 0));
        }
        lemma_grounded(grammar, seed, items, false);
    }
    assert forall|s: int| 0 <= s < states.len() implies grounded(
        grammar,
        (#[trigger] states[s])@,
        s == 0,
    ) by {
        if s < before.len() {
            assert(states[s] == before[s]);
        }
    }
    assert forall|s: int| 0 < s < states.len() implies #[trigger] reached(grammar, states, s) by {
        if s < before.len() {
            assert(reached(grammar, before, s));
            let (r, by) = choose|r: int, by: Symbol| #[trigger] leads(grammar, before, r, by, s);
            assert(states[r] == before[r] && states[s] == before[s]);
            assert(leads(grammar, states, r, by, s));
        } else {
            assert(states[state] == before[state]);
            assert(leads(grammar, states, state, symbol, s));
        }
    }
    assert forall|s: int| 0 < s < states.len() implies some_read((#[trigger] states[s])@) by {
        if s < before.len() {
            assert(states[s] == before[s]);
        }
    }
    assert(states[0] == before[0]);
    assert forall|s: int| 0 <= s < states.len() implies grammar.items_in((#[trigger] states[s])@)
        && item_sets::items_ascend(states[s]@) && item_sets::is_closed(
        rules,
        grammar.nullable@,
        states[s]@,
    ) by {
        if s < before.len() {
            assert(states[s] == before[s]);
        }
    }
}

/// The successor of a state, which is added if it is new.
fn reach_state(
    grammar: &LrGrammar,
    limits: &CompileLimits,
    state: usize,
    symbol: Symbol,
    states: &mut Vec<Vec<Lr1Item>>,
    index: &mut FxHashMap<u32, Vec<u32>>,
    total_items: &mut usize,
) -> (result: Result<u32, CompileError>)
    requires
        grammar.wf(),
        states_exact(grammar, old(states)@),
        indexed(old(states)@, old(index)@),
        state < old(states)@.len(),
        follows(grammar.rules(), old(states)@[state as int]@, symbol),
        *old(total_items) == items_total(old(states)@),
    ensures
        match result {
            Ok(target) => {
                &&& states_exact(grammar, final(states)@)
                &&& indexed(final(states)@, final(index)@)
                &&& grown(old(states)@, final(states)@)
                &&& edge_exact(grammar, final(states)@, state as int, (symbol, target))
                &&& *final(total_items) == items_total(final(states)@)
                &&& final(states)@.len() > old(states)@.len() ==> final(states)@.len()
                    <= limits.max_lr_states && *final(total_items) <= limits.max_lr_items
                &&& final(states)@.len() == old(states)@.len() ==> final(states)@ == old(states)@
            },
            Err(error) => construction_error(error, grammar, limits),
        },
{
    let ghost before = states@;
    proof {
        lemma_state_items(grammar, before, state as int);
    }
    let target = match grammar.successor(&states[state], symbol, limits) {
        Ok(target) => target,
        Err(error) => {
            assert(item_sets::long_successor(
                grammar.rules(),
                grammar.nullable@,
                before[state as int]@,
                symbol,
                limits.max_lr_items,
                error,
            ) ==> long_step(grammar, limits.max_lr_items, before, state as int, symbol, error));
            return Err(error);
        },
    };
    match find_state(states, index, &target) {
        Some(id) => {
            return Ok(id);
        },
        None => {},
    }
    let count: usize = states.len();
    let ghost wider = if count <= u32::MAX {
        before.push(target)
    } else {
        before
    };
    proof {
        if count <= u32::MAX {
            lemma_push_state(grammar, before, target, state as int, symbol);
            assert(wider.drop_last() =~= before);
        }
        reveal(states_exact);
    }
    match enforce_compile_limit(
        CompileStage::LrConstruction,
        count.saturating_add(1),
        limits.max_lr_states,
    ) {
        Ok(()) => {},
        Err(error) => {
            assert(many_states(grammar, limits.max_lr_states, wider, error));
            return Err(error);
        },
    }
    let total = match (*total_items).checked_add(target.len()) {
        Some(total) => total,
        None => {
            let error = CompileError::ResourceLimitExceeded {
                stage: CompileStage::LrConstruction,
                observed: usize::MAX,
                limit: limits.max_lr_items,
            };
            assert(many_items(grammar, limits.max_lr_items, wider, error));
            return Err(error);
        },
    };
    match enforce_compile_limit(CompileStage::LrConstruction, total, limits.max_lr_items) {
        Ok(()) => {},
        Err(error) => {
            assert(many_items(grammar, limits.max_lr_items, wider, error));
            return Err(error);
        },
    }
    if count > u32::MAX as usize {
        let error = CompileError::ResourceLimitExceeded {
            stage: CompileStage::LrConstruction,
            observed: count,
            limit: u32::MAX as usize,
        };
        assert(many_states(grammar, u32::MAX as usize, wider, error));
        return Err(error);
    }
    let code = code_items(&target);
    states.push(target);
    let id: u32 = (states.len() - 1) as u32;
    *total_items = total;
    proof {
        assert(states@.drop_last() =~= before);
        lemma_push_state(grammar, before, states@.last(), state as int, symbol);
        assert(states@ =~= before.push(states@.last()));
    }
    note_state(states, index, code, id);
    Ok(id)
}

/// The item sets that are reached from the start item.
pub fn collect_states(grammar: &LrGrammar, limits: &CompileLimits) -> (result: Result<
    Canonical,
    CompileError,
>)
    requires
        grammar.wf(),
    ensures
        match result {
            Ok(canonical) => canonical.exact(grammar) && canonical.within(limits),
            Err(error) => construction_error(error, grammar, limits),
        },
{
    let start = Lr1Item {
        production: (grammar.productions.len() - 1) as u32,
        dot: 0,
        lookahead: Lookahead::Eof,
    };
    let mut seed: Vec<Lr1Item> = Vec::new();
    seed.push(start);
    assert(seed@ =~= seq![start_item(grammar)]);
    let initial = match grammar.closure(seed, limits) {
        Ok(initial) => initial,
        Err(error) => {
            return Err(error);
        },
    };
    let mut total_items: usize = initial.len();
    let mut index: FxHashMap<u32, Vec<u32>> = fx::map_new();
    let code = code_items(&initial);
    let mut states: Vec<Vec<Lr1Item>> = Vec::new();
    states.push(initial);
    proof {
        assert(states@.drop_last() =~= Seq::empty());
        assert(items_total(states@.drop_last()) == 0);
        reveal(states_exact);
        reveal(indexed);
        lemma_grounded(grammar, seq![start_item(grammar)], states@[0]@, true);
    }
    note_state(&states, &mut index, code, 0);
    let mut edges: Vec<Vec<(Symbol, u32)>> = Vec::new();
    while edges.len() < states.len()
        invariant
            grammar.wf(),
            states_exact(grammar, states@),
            indexed(states@, index@),
            total_items == items_total(states@),
            states@.len() == 1 || states@.len() <= limits.max_lr_states,
            total_items <= limits.max_lr_items || (states@.len() == 1 && total_items <= 1),
            edges@.len() <= states@.len(),
            forall|s: int|
                0 <= s < edges@.len() ==> row_exact(
                    grammar,
                    states@,
                    s,
                    (#[trigger] edges@[s])@,
                ),
        decreases limits.max_lr_states + 1 - edges@.len(),
    {
        let state: usize = edges.len();
        proof {
            lemma_state_items(grammar, states@, state as int);
        }
        let symbols = next_symbols(grammar, &states[state]);
        let ghost first = states@;
        let mut row: Vec<(Symbol, u32)> = Vec::new();
        while row.len() < symbols.len()
            invariant
                grammar.wf(),
                states_exact(grammar, states@),
                indexed(states@, index@),
                total_items == items_total(states@),
                grown(first, states@),
                state < first.len(),
                states@.len() == 1 || states@.len() <= limits.max_lr_states,
                total_items <= limits.max_lr_items || (states@.len() == 1 && total_items <= 1),
                symbols_ascend(symbols@),
                forall|symbol: Symbol| #[trigger]
                    symbols@.contains(symbol) <==> follows(
                        grammar.rules(),
                        first[state as int]@,
                        symbol,
                    ),
                row@.len() <= symbols@.len(),
                forall|e: int|
                    0 <= e < row@.len() ==> (#[trigger] row@[e]).0 == symbols@[e] && edge_exact(
                        grammar,
                        states@,
                        state as int,
                        row@[e],
                    ),
            decreases symbols@.len() - row@.len(),
        {
            let symbol = symbols[row.len()];
            let ghost before = states@;
            let ghost then = row@;
            proof {
                assert(symbols@.contains(symbol));
                assert(states@[state as int] == first[state as int]);
            }
            match reach_state(
                grammar,
                limits,
                state,
                symbol,
                &mut states,
                &mut index,
                &mut total_items,
            ) {
                Ok(target) => {
                    row.push((symbol, target));
                    proof {
                        assert forall|s: int| 0 <= s < first.len() implies states@[s]
                            == #[trigger] first[s] by {
                            assert(before[s] == first[s]);
                            assert(states@[s] == before[s]);
                        }
                        assert forall|e: int| 0 <= e < row@.len() implies (#[trigger] row@[e]).0
                            == symbols@[e] && edge_exact(
                            grammar,
                            states@,
                            state as int,
                            row@[e],
                        ) by {
                            if e < then.len() {
                                assert(row@[e] == then[e]);
                                assert(edge_exact(grammar, before, state as int, then[e]));
                                assert(states@[then[e].1 as int] == before[then[e].1 as int]);
                                assert(states@[state as int] == before[state as int]);
                            }
                        }
                    }
                },
                Err(error) => {
                    return Err(error);
                },
            }
        }
        proof {
            assert(states@[state as int] == first[state as int]);
            assert(row_exact(grammar, states@, state as int, row@)) by {
                assert forall|symbol: Symbol| #[trigger]
                    follows(grammar.rules(), states@[state as int]@, symbol) implies exists|
                    e: int,
                | 0 <= e < row@.len() && (#[trigger] row@[e]).0 == symbol by {
                    assert(symbols@.contains(symbol));
                    let e = choose|e: int| 0 <= e < symbols@.len() && symbols@[e] == symbol;
                    assert(row@[e].0 == symbol);
                }
                assert forall|e: int, f: int| 0 <= e < f < row@.len() implies (
                #[trigger] row@[e]).0 != (#[trigger] row@[f]).0 by {
                    assert(symbol_rank(symbols@[e]) < symbol_rank(symbols@[f]));
                }
            }
            assert forall|s: int| 0 <= s < edges@.len() implies row_exact(
                grammar,
                states@,
                s,
                (#[trigger] edges@[s])@,
            ) by {
                lemma_row_grown(grammar, first, states@, s, edges@[s]@);
            }
        }
        edges.push(row);
    }
    Ok(Canonical { states, edges, total_items })
}

} // verus!
