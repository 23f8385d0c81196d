//! Deterministic LALR(1) table construction and incremental recognition.

use std::sync::Arc;

use vstd::prelude::*;

use crate::canonical;
use crate::canonical::Canonical;
use crate::count;
use crate::derivation::Rule;
use crate::error::{usize_to_u64, CompileError, CompileStage};
use crate::fx;
use crate::item_sets;
use crate::item_sets::{LrGrammar, ParserProduction};
use crate::lr;
use crate::lr::{Action, Lookahead, Lr1Item, Machine};
use crate::merge;
use crate::merge::Merged;
use crate::residual;
use crate::residual::{CompiledTerminal, ResidualGrammar, TerminalCursorState};
use crate::schema::CompileLimits;
use crate::symbol::{ProductionId, Symbol};
use crate::table;
use crate::table::{LalrConflict, LalrTable};

verus! {

/// What the construction of tables came to.
#[derive(Clone, Debug, Default, PartialEq, Eq)]
pub struct LalrBuildStats {
    pub canonical_states: u64,
    pub merged_states: u64,
    pub lr_items: u64,
    pub action_entries: u64,
    pub goto_entries: u64,
    pub conflicts: u64,
}

/// The item sets of merged states.
pub open spec fn item_seqs(states: Seq<Vec<Lr1Item>>) -> Seq<Seq<Lr1Item>> {
    states.map_values(|state: Vec<Lr1Item>| state@)
}

/// The machine of productions, item sets and a table.
pub open spec fn machine_of(
    rules: Seq<Rule>,
    nullable: Seq<bool>,
    items: Seq<Seq<Lr1Item>>,
    table: LalrTable,
) -> Machine {
    Machine {
        rules,
        nullable,
        items,
        actions: |state: u32, lookahead: Lookahead| table.action(state, lookahead),
        gotos: |state: u32, nonterminal: u32| table.goto(state, nonterminal),
    }
}

/// An item of a state with a symbol behind its dot is followed on by that symbol.
proof fn lemma_item_leads(
    grammar: &LrGrammar,
    canonical: &Canonical,
    merged: &Merged,
    s: int,
    item: Lr1Item,
    symbol: Symbol,
)
    requires
        grammar.wf(),
        canonical.exact(grammar),
        merged.exact(canonical),
        0 <= s < merged.states@.len(),
        merged.states@[s]@.contains(item),
        lr::after_dot(grammar.rules(), item) == Some(symbol),
    ensures
        merge::row_target(merged.edges@[s]@, symbol) is Some,
        merge::row_target(merged.edges@[s]@, symbol)->0 < merged.states@.len(),
        item.dot < u32::MAX,
        merged.states@[merge::row_target(merged.edges@[s]@, symbol)->0 as int]@.contains(
            lr::moved(item),
        ),
{
    reveal(merge::merged_exact);
    reveal(item_sets::is_successor);
    let sets = canonical.states@;
    let map = merged.mapping@;
    assert(merge::from_set(sets, map, s, item));
    let c = choose|c: int|
        0 <= c < map.len() && #[trigger] map[c] == s && sets[c]@.contains(item);
    assert(canonical::row_exact(grammar, sets, c, canonical.edges@[c]@));
    assert(canonical::follows(grammar.rules(), sets[c]@, symbol));
    let row = canonical.edges@[c]@;
    let e = choose|e: int| 0 <= e < row.len() && (#[trigger] row[e]).0 == symbol;
    assert(canonical::edge_exact(grammar, sets, c, row[e]));
    let t = row[e].1 as int;
    let seed = choose|seed: Seq<Lr1Item>| #[trigger]
        item_sets::is_moved(grammar.rules(), sets[c]@, symbol, seed) && item_sets::is_closure(
            grammar.rules(),
            grammar.nullable@,
            seed,
            sets[t]@,
        );
    assert(seed.contains(lr::moved(item)));
    assert(sets[t]@.contains(lr::moved(item)));
    assert(canonical.edges@[c]@[e] == row[e]);
    assert(map[t] < merged.states@.len());
}

/// The states of merged item sets lead where they should.
proof fn lemma_states_lead(grammar: &LrGrammar, canonical: &Canonical, merged: &Merged)
    requires
        grammar.wf(),
        canonical.exact(grammar),
        merged.exact(canonical),
    ensures
        table::states_lead(grammar, merged),
{
    reveal(merge::merged_exact);
    assert forall|s: int, x: int|
        0 <= s < merged.states@.len() && 0 <= x < merged.states@[s]@.len() implies grammar.item_in(
        #[trigger] merged.states@[s]@[x],
    ) by {
        lemma_item_in(grammar, canonical, merged, s, merged.states@[s]@[x]);
    }
    assert forall|s: int, x: int, t: u32|
        0 <= s < merged.states@.len() && 0 <= x < merged.states@[s]@.len()
            && #[trigger] lr::after_dot(grammar.rules(), merged.states@[s]@[x]) == Some(
            Symbol::Terminal(t),
        ) implies #[trigger] merge::row_target(
        merged.edges@[s]@,
        Symbol::Terminal(t),
    ) is Some by {
        let item = merged.states@[s]@[x];
        assert(merged.states@[s]@.contains(item));
        lemma_item_leads(grammar, canonical, merged, s, item, Symbol::Terminal(t));
    }
}

/// An item of a state names a production and a position in it.
proof fn lemma_item_in(
    grammar: &LrGrammar,
    canonical: &Canonical,
    merged: &Merged,
    s: int,
    item: Lr1Item,
) -> (c: int)
    requires
        grammar.wf(),
        canonical.exact(grammar),
        merged.exact(canonical),
        0 <= s < merged.states@.len(),
        merged.states@[s]@.contains(item),
    ensures
        grammar.item_in(item),
        0 <= c < canonical.states@.len(),
        merged.mapping@[c] == s,
        canonical.states@[c]@.contains(item),
{
    reveal(merge::merged_exact);
    let sets = canonical.states@;
    let map = merged.mapping@;
    assert(merge::from_set(sets, map, s, item));
    let c = choose|c: int|
        0 <= c < map.len() && #[trigger] map[c] == s && sets[c]@.contains(item);
    canonical::lemma_state_items(grammar, sets, c);
    let x = choose|x: int| 0 <= x < sets[c]@.len() && sets[c]@[x] == item;
    assert(grammar.item_in(sets[c]@[x]));
    c
}

/// What a state holds.
proof fn lemma_has(
    grammar: &LrGrammar,
    merged: &Merged,
    built: LalrTable,
    s: u32,
    item: Lr1Item,
)
    ensures
        machine_of(
            grammar.rules(),
            grammar.nullable@,
            item_seqs(merged.states@),
            built,
        ).has(s, item) <==> s < merged.states@.len() && merged.states@[s as int]@.contains(item),
{
    let items = item_seqs(merged.states@);
    if s < merged.states@.len() {
        assert(items[s as int] == merged.states@[s as int]@);
    }
}

/// A machine without conflicts follows every item on, or acts on it.
proof fn lemma_followed(
    grammar: &LrGrammar,
    canonical: &Canonical,
    merged: &Merged,
    built: LalrTable,
    conflicts: Seq<LalrConflict>,
    s: u32,
    item: Lr1Item,
)
    requires
        grammar.wf(),
        canonical.exact(grammar),
        merged.exact(canonical),
        table::table_exact(grammar, merged, &built, conflicts),
        conflicts.len() == 0,
        s < merged.states@.len(),
        merged.states@[s as int]@.contains(item),
    ensures
        machine_of(
            grammar.rules(),
            grammar.nullable@,
            item_seqs(merged.states@),
            built,
        ).item_followed(s, item),
{
    let machine = machine_of(
        grammar.rules(),
        grammar.nullable@,
        item_seqs(merged.states@),
        built,
    );
    let c = lemma_item_in(grammar, canonical, merged, s as int, item);
    let x = choose|x: int|
        0 <= x < merged.states@[s as int]@.len() && merged.states@[s as int]@[x] == item;
    let edges = merged.edges@[s as int]@;
    assert(table::wanted(grammar, edges, merged.states@[s as int]@[x]) matches Some(pair)
        ==> built.action(s, pair.0) == Some(pair.1));
    grammar.lemma_rule(item.production as int);
    match lr::after_dot(grammar.rules(), item) {
        Some(symbol) => {
            lemma_item_leads(grammar, canonical, merged, s as int, item, symbol);
            let next = merge::row_target(edges, symbol)->0;
            lemma_has(grammar, merged, built, next, lr::moved(item));
            if let Symbol::Nonterminal(a) = symbol {
                assert(built.goto(s, a) == Some(next));
            }
        },
        None => {
            canonical::lemma_state_items(grammar, canonical.states@, c);
            assert(canonical::grounded(grammar, canonical.states@[c]@, c == 0));
        },
    }
}

/// Without conflicts, the machine is complete.
proof fn lemma_machine_complete(
    grammar: &LrGrammar,
    canonical: &Canonical,
    merged: &Merged,
    built: LalrTable,
    conflicts: Seq<LalrConflict>,
)
    requires
        grammar.wf(),
        canonical.exact(grammar),
        merged.exact(canonical),
        table::table_exact(grammar, merged, &built, conflicts),
        conflicts.len() == 0,
    ensures
        machine_of(
            grammar.rules(),
            grammar.nullable@,
            item_seqs(merged.states@),
            built,
        ).complete(),
{
    let machine = machine_of(
        grammar.rules(),
        grammar.nullable@,
        item_seqs(merged.states@),
        built,
    );
    lemma_augmentation(grammar, machine);
    let start = canonical::start_item(grammar);
    assert(machine.has(0, start)) by {
        reveal(merge::merged_exact);
        canonical::lemma_state_items_first(grammar, canonical.states@);
        assert(seq![start].contains(start)) by {
            assert(seq![start][0] == start);
        }
        assert(canonical.states@[0]@.contains(start));
        assert(merged.mapping@[0] < merged.states@.len());
        lemma_has(grammar, merged, built, 0, start);
    }
    assert forall|s: u32, item: Lr1Item| #[trigger] machine.has(s, item) implies item.production
        < machine.rules.len() && item.dot <= machine.rules[item.production as int].rhs.len() by {
        lemma_has(grammar, merged, built, s, item);
        let c = lemma_item_in(grammar, canonical, merged, s as int, item);
        grammar.lemma_rule(item.production as int);
    }
    assert forall|s: u32, item: Lr1Item, other: Lr1Item| #[trigger]
        machine.has(s, item) && #[trigger] lr::brings(
            machine.rules,
            machine.nullable,
            item,
            other,
        ) implies machine.has(s, other) by {
        lemma_has(grammar, merged, built, s, item);
        lemma_has(grammar, merged, built, s, other);
        let c = lemma_item_in(grammar, canonical, merged, s as int, item);
        canonical::lemma_state_items(grammar, canonical.states@, c);
        assert(canonical.states@[c]@.contains(other));
        reveal(merge::merged_exact);
    }
    assert forall|s: u32, item: Lr1Item| machine.has(s, item) implies #[trigger] machine.item_followed(
        s,
        item,
    ) by {
        lemma_has(grammar, merged, built, s, item);
        lemma_followed(grammar, canonical, merged, built, conflicts, s, item);
    }
}

/// The last production is the augmented one.
proof fn lemma_augmentation(grammar: &LrGrammar, machine: Machine)
    requires
        grammar.wf(),
        machine.rules == grammar.rules(),
    ensures
        machine.augmentation(),
        machine.augmented() <= u32::MAX,
        machine.augmented() == grammar.productions@.len() - 1,
{
    let last = grammar.productions@.len() - 1;
    grammar.lemma_rule(last);
    assert forall|p: int| 0 <= p < machine.rules.len() - 1 implies (#[trigger] machine.rules[p]).lhs
        != machine.rules.last().lhs by {
        grammar.lemma_rule(p);
        assert(grammar.productions@[p].lhs < grammar.nullable@.len());
    }
    assert forall|p: int, x: int|
        0 <= p < machine.rules.len() && 0 <= x < machine.rules[p].rhs.len() implies
        #[trigger] machine.rules[p].rhs[x] != Symbol::Nonterminal(machine.rules.last().lhs) by {
        grammar.lemma_rule(p);
        assert(residual::symbol_in(
            grammar.productions@[p].rhs@[x],
            grammar.nullable@.len(),
            grammar.terminals as nat,
        ));
    }
}

/// What led to a state was read before its items.
proof fn lemma_goes_soundly(
    grammar: &LrGrammar,
    canonical: &Canonical,
    merged: &Merged,
    built: LalrTable,
    s: u32,
    symbol: Symbol,
    next: u32,
)
    requires
        grammar.wf(),
        canonical.exact(grammar),
        merged.exact(canonical),
        s < merged.states@.len(),
        merge::row_target(merged.edges@[s as int]@, symbol) == Some(next),
    ensures
        machine_of(
            grammar.rules(),
            grammar.nullable@,
            item_seqs(merged.states@),
            built,
        ).goes_soundly(s, symbol, next),
{
    let machine = machine_of(
        grammar.rules(),
        grammar.nullable@,
        item_seqs(merged.states@),
        built,
    );
    let rules = grammar.rules();
    let sets = canonical.states@;
    let map = merged.mapping@;
    assert(merge::follows_set(canonical, map, s as int, symbol, next));
    let (c, e) = choose|c: int, e: int|
        #![trigger canonical.edges@[c]@[e]]
        0 <= c < map.len() && map[c] == s && 0 <= e < canonical.edges@[c]@.len()
            && canonical.edges@[c]@[e].0 == symbol && map[canonical.edges@[c]@[e].1 as int] == next;
    let t = canonical.edges@[c]@[e].1 as int;
    canonical::lemma_state_items_first(grammar, sets);
    lemma_map(canonical, merged, 0);
    lemma_map(canonical, merged, c);
    assert(t < sets.len()) by {
        assert(canonical::row_exact(grammar, sets, c, canonical.edges@[c]@));
        assert(canonical::edge_exact(grammar, sets, c, canonical.edges@[c]@[e]));
    }
    lemma_map(canonical, merged, t);
    // Something was read of an item of the target, so it is not the first state.
    if next == 0 {
        let on = lemma_target_read(grammar, canonical, c, e);
        lemma_map(canonical, merged, 0);
        lemma_same_state(canonical, merged, t, 0, on);
        let la = choose|la: Lookahead| #[trigger]
            sets[0]@.contains(
                Lr1Item { production: on.production, dot: on.dot, lookahead: la },
            );
        lemma_first_unread(
            grammar,
            canonical,
            Lr1Item { production: on.production, dot: on.dot, lookahead: la },
        );
    }
    assert forall|item: Lr1Item| #[trigger] machine.has(next, item) && item.dot
        > 0 implies rules[item.production as int].rhs[item.dot - 1] == symbol && lr::has_core(
        &machine,
        s,
        item.production,
        item.dot - 1,
    ) by {
        lemma_has(grammar, merged, built, next, item);
        let d = lemma_item_in(grammar, canonical, merged, next as int, item);
        lemma_same_state(canonical, merged, d, t, item);
        let prior = lemma_target_prior(grammar, canonical, c, e, item.production, item.dot);
        lemma_set_in_state(canonical, merged, c, prior);
        lemma_has(grammar, merged, built, s, prior);
        assert(prior == (Lr1Item {
            production: item.production,
            dot: (item.dot - 1) as u32,
            lookahead: prior.lookahead,
        }));
    }
}

/// An item set maps to a state.
proof fn lemma_map(canonical: &Canonical, merged: &Merged, c: int)
    requires
        merged.exact(canonical),
        0 <= c < canonical.states@.len(),
    ensures
        merged.mapping@.len() == canonical.states@.len(),
        merged.mapping@[c] < merged.states@.len(),
        merged.mapping@[0] == 0,
{
    reveal(merge::merged_exact);
}

/// The items of an item set are in its state.
proof fn lemma_set_in_state(canonical: &Canonical, merged: &Merged, c: int, item: Lr1Item)
    requires
        merged.exact(canonical),
        0 <= c < canonical.states@.len(),
        canonical.states@[c]@.contains(item),
    ensures
        merged.states@[merged.mapping@[c] as int]@.contains(item),
{
    reveal(merge::merged_exact);
}

/// Item sets of one state hold the same items but for the lookaheads.
proof fn lemma_same_state(canonical: &Canonical, merged: &Merged, c: int, d: int, item: Lr1Item)
    requires
        merged.exact(canonical),
        0 <= c < canonical.states@.len(),
        0 <= d < canonical.states@.len(),
        merged.mapping@[c] == merged.mapping@[d],
        canonical.states@[c]@.contains(item),
    ensures
        merge::holds_core(canonical.states@[d]@, item.production, item.dot),
{
    reveal(merge::merged_exact);
    assert(merge::same_core(canonical.states@[c]@, canonical.states@[d]@));
    assert(item == (Lr1Item {
        production: item.production,
        dot: item.dot,
        lookahead: item.lookahead,
    }));
    assert(merge::holds_core(canonical.states@[c]@, item.production, item.dot));
}

/// Something was read of an item of a set that an edge leads to.
proof fn lemma_target_read(grammar: &LrGrammar, canonical: &Canonical, c: int, e: int) -> (on:
    Lr1Item)
    requires
        canonical.exact(grammar),
        0 <= c < canonical.states@.len(),
        0 <= e < canonical.edges@[c]@.len(),
    ensures
        on.dot > 0,
        canonical.states@[canonical.edges@[c]@[e].1 as int]@.contains(on),
{
    reveal(item_sets::is_successor);
    let rules = grammar.rules();
    let sets = canonical.states@;
    let symbol = canonical.edges@[c]@[e].0;
    assert(canonical::row_exact(grammar, sets, c, canonical.edges@[c]@));
    assert(canonical::edge_exact(grammar, sets, c, canonical.edges@[c]@[e]));
    let t = canonical.edges@[c]@[e].1 as int;
    let seed = choose|seed: Seq<Lr1Item>| #[trigger]
        item_sets::is_moved(rules, sets[c]@, symbol, seed) && item_sets::is_closure(
            rules,
            grammar.nullable@,
            seed,
            sets[t]@,
        );
    let was = choose|was: Lr1Item| #[trigger]
        sets[c]@.contains(was) && lr::after_dot(rules, was) == Some(symbol);
    let on = lr::moved(was);
    assert(seed.contains(on));
    assert(sets[t]@.contains(on) && on.dot > 0);
    on
}

/// An item of which something was read, in a set that an edge leads to, comes from one where the
/// edge starts.
proof fn lemma_target_prior(
    grammar: &LrGrammar,
    canonical: &Canonical,
    c: int,
    e: int,
    production: u32,
    dot: u32,
) -> (prior: Lr1Item)
    requires
        canonical.exact(grammar),
        0 <= c < canonical.states@.len(),
        0 <= e < canonical.edges@[c]@.len(),
        dot > 0,
        merge::holds_core(
            canonical.states@[canonical.edges@[c]@[e].1 as int]@,
            production,
            dot,
        ),
    ensures
        canonical.states@[c]@.contains(prior),
        prior.production == production,
        prior.dot == dot - 1,
        lr::after_dot(grammar.rules(), prior) == Some(canonical.edges@[c]@[e].0),
{
    reveal(item_sets::is_successor);
    let rules = grammar.rules();
    let nullable = grammar.nullable@;
    let sets = canonical.states@;
    let symbol = canonical.edges@[c]@[e].0;
    assert(canonical::row_exact(grammar, sets, c, canonical.edges@[c]@));
    assert(canonical::edge_exact(grammar, sets, c, canonical.edges@[c]@[e]));
    let t = canonical.edges@[c]@[e].1 as int;
    let seed = choose|seed: Seq<Lr1Item>| #[trigger]
        item_sets::is_moved(rules, sets[c]@, symbol, seed) && item_sets::is_closure(
            rules,
            nullable,
            seed,
            sets[t]@,
        );
    let la = choose|la: Lookahead| #[trigger]
        sets[t]@.contains(Lr1Item { production, dot, lookahead: la });
    let twin = Lr1Item { production, dot, lookahead: la };
    assert(sets[t]@.contains(twin));
    assert(item_sets::in_closure(rules, nullable, seed, twin));
    let n = choose|n: nat| item_sets::closed_within(rules, nullable, seed, n, twin);
    assert(seed.contains(twin));
    let z = choose|z: int| 0 <= z < seed.len() && seed[z] == twin;
    assert(item_sets::moved_from(rules, sets[c]@, symbol, seed[z]));
    choose|prior: Lr1Item| #[trigger]
        sets[c]@.contains(prior) && lr::after_dot(rules, prior) == Some(symbol) && prior.dot
            < u32::MAX && twin == lr::moved(prior)
}

/// Nothing was read of the items of the first state.
proof fn lemma_first_unread(grammar: &LrGrammar, canonical: &Canonical, item: Lr1Item)
    requires
        grammar.wf(),
        canonical.exact(grammar),
        canonical.states@[0]@.contains(item),
    ensures
        item.dot == 0,
{
    canonical::lemma_state_items_first(grammar, canonical.states@);
    let seed = seq![canonical::start_item(grammar)];
    assert(item_sets::in_closure(grammar.rules(), grammar.nullable@, seed, item));
    let n = choose|n: nat|
        item_sets::closed_within(grammar.rules(), grammar.nullable@, seed, n, item);
    if seed.contains(item) {
        let x = choose|x: int| 0 <= x < seed.len() && seed[x] == item;
    }
}

/// What is in the closure that a state has goes back to what it is the closure of.
proof fn lemma_based(
    grammar: &LrGrammar,
    merged: &Merged,
    built: LalrTable,
    s: u32,
    items: Seq<Lr1Item>,
    seed: Seq<Lr1Item>,
    n: nat,
    item: Lr1Item,
)
    requires
        grammar.wf(),
        s < merged.states@.len(),
        forall|x: Lr1Item| #[trigger] items.contains(x) ==> merged.states@[s as int]@.contains(x),
        item_sets::is_closure(grammar.rules(), grammar.nullable@, seed, items),
        forall|x: Lr1Item| #[trigger]
            seed.contains(x) ==> x.dot > 0 || (s == 0 && x == canonical::start_item(grammar)),
        item_sets::closed_within(grammar.rules(), grammar.nullable@, seed, n, item),
    ensures
        lr::based(
            &machine_of(
                grammar.rules(),
                grammar.nullable@,
                item_seqs(merged.states@),
                built,
            ),
            s,
            n,
            item,
        ),
    decreases n,
{
    canonical::lemma_closure_held(grammar.rules(), grammar.nullable@, seed, items, n, item);
    lemma_has(grammar, merged, built, s, item);
    let machine = machine_of(
        grammar.rules(),
        grammar.nullable@,
        item_seqs(merged.states@),
        built,
    );
    assert(machine.has(s, item));
    if !seed.contains(item) {
        let before = choose|before: Lr1Item| #[trigger]
            lr::brings(grammar.rules(), grammar.nullable@, before, item)
                && item_sets::closed_within(
                grammar.rules(),
                grammar.nullable@,
                seed,
                (n - 1) as nat,
                before,
            );
        lemma_based(grammar, merged, built, s, items, seed, (n - 1) as nat, before);
        assert(machine.has(s, before));
        assert(lr::after_dot(machine.rules, before) == Some(
            Symbol::Nonterminal(machine.rules[item.production as int].lhs),
        ));
    } else if item.dot == 0 {
        lemma_augmentation(grammar, machine);
        assert(item.production == machine.augmented());
    }
}

/// The machine is sound, with conflicts or without.
proof fn lemma_machine_sound(
    grammar: &LrGrammar,
    canonical: &Canonical,
    merged: &Merged,
    built: LalrTable,
    conflicts: Seq<LalrConflict>,
)
    requires
        grammar.wf(),
        canonical.exact(grammar),
        merged.exact(canonical),
        table::states_lead(grammar, merged),
        table::table_exact(grammar, merged, &built, conflicts),
    ensures
        machine_of(
            grammar.rules(),
            grammar.nullable@,
            item_seqs(merged.states@),
            built,
        ).sound(),
{
    let machine = machine_of(
        grammar.rules(),
        grammar.nullable@,
        item_seqs(merged.states@),
        built,
    );
    let sets = canonical.states@;
    let map = merged.mapping@;
    lemma_augmentation(grammar, machine);
    assert(machine.items.len() > 0) by {
        reveal(merge::merged_exact);
        canonical::lemma_state_items_first(grammar, sets);
        assert(map[0] < merged.states@.len());
    }
    assert forall|s: u32, item: Lr1Item| #[trigger] machine.has(s, item) implies item.production
        < machine.rules.len() && item.dot <= machine.rules[item.production as int].rhs.len() && (s
        == 0 ==> item.dot == 0) by {
        lemma_has(grammar, merged, built, s, item);
        let c = lemma_item_in(grammar, canonical, merged, s as int, item);
        grammar.lemma_rule(item.production as int);
        if s == 0 {
            reveal(merge::merged_exact);
            assert(map[c] == map[0]);
            assert(merge::same_core(sets[c]@, sets[0]@));
            assert(item == (Lr1Item {
                production: item.production,
                dot: item.dot,
                lookahead: item.lookahead,
            }));
            assert(merge::holds_core(sets[c]@, item.production, item.dot));
            let la = choose|la: Lookahead| #[trigger]
                sets[0]@.contains(
                    Lr1Item { production: item.production, dot: item.dot, lookahead: la },
                );
            lemma_first_unread(
                grammar,
                canonical,
                Lr1Item { production: item.production, dot: item.dot, lookahead: la },
            );
        }
    }
    assert forall|s: u32, item: Lr1Item|
        #![trigger machine.has(s, item)]
        machine.has(s, item) && item.dot == 0 implies (s == 0 && item.production
        == machine.augmented()) || (item.production != machine.augmented() && lr::expects(
        &machine,
        s,
        machine.rules[item.production as int].lhs,
    )) by {
        lemma_has(grammar, merged, built, s, item);
        let c = lemma_item_in(grammar, canonical, merged, s as int, item);
        canonical::lemma_state_items(grammar, sets, c);
        assert(canonical::grounded(grammar, sets[c]@, c == 0));
        if c == 0 && item == canonical::start_item(grammar) {
            reveal(merge::merged_exact);
        } else {
            let before = choose|before: Lr1Item| #[trigger]
                sets[c]@.contains(before) && lr::brings(
                    grammar.rules(),
                    grammar.nullable@,
                    before,
                    item,
                );
            canonical::lemma_brings_plain(grammar, before, item);
            assert(merged.states@[s as int]@.contains(before)) by {
                reveal(merge::merged_exact);
            }
            lemma_has(grammar, merged, built, s, before);
        }
    }
    assert forall|s: u32, item: Lr1Item| #[trigger] machine.has(s, item) implies exists|n: nat|
        lr::based(&machine, s, n, item) by {
        lemma_has(grammar, merged, built, s, item);
        let c = lemma_item_in(grammar, canonical, merged, s as int, item);
        let seed = canonical::lemma_state_closure(grammar, sets, c);
        assert(item_sets::in_closure(grammar.rules(), grammar.nullable@, seed, item));
        let n = choose|n: nat|
            item_sets::closed_within(grammar.rules(), grammar.nullable@, seed, n, item);
        assert(c == 0 ==> s == 0) by {
            reveal(merge::merged_exact);
        }
        assert forall|x: Lr1Item| #[trigger] sets[c]@.contains(x) implies merged.states@[
            s as int
        ]@.contains(x) by {
            reveal(merge::merged_exact);
        }
        lemma_based(grammar, merged, built, s, sets[c]@, seed, n, item);
    }
    assert forall|s: u32| s < machine.items.len() implies #[trigger] lr::inhabited(&machine, s) by {
        reveal(merge::merged_exact);
        assert(merge::has_member(map, s as int));
        let c = choose|c: int| 0 <= c < map.len() && #[trigger] map[c] == s;
        canonical::lemma_state_items(grammar, sets, c);
        let item = if c == 0 {
            canonical::start_item(grammar)
        } else {
            let x = choose|x: int| 0 <= x < sets[c]@.len() && (#[trigger] sets[c]@[x]).dot > 0;
            sets[c]@[x]
        };
        if c == 0 {
            assert(seq![canonical::start_item(grammar)][0] == item);
            assert(seq![canonical::start_item(grammar)].contains(item));
        }
        assert(sets[c]@.contains(item));
        lemma_has(grammar, merged, built, s, item);
    }
    assert forall|s: u32, a: u32| #[trigger] lr::expects(&machine, s, a) implies (machine.gotos)(
        s,
        a,
    ) is Some by {
        let item = choose|item: Lr1Item| #[trigger]
            machine.has(s, item) && lr::after_dot(machine.rules, item) == Some(
                Symbol::Nonterminal(a),
            );
        lemma_has(grammar, merged, built, s, item);
        lemma_item_leads(grammar, canonical, merged, s as int, item, Symbol::Nonterminal(a));
        assert(built.goto(s, a) is Some);
    }
    assert forall|s: u32, symbol: Symbol, next: u32| #[trigger]
        lr::goes(&machine, s, symbol, next) implies machine.goes_soundly(s, symbol, next) by {
        match symbol {
            Symbol::Terminal(t) => {
                let la = Lookahead::Terminal(t);
                assert(built.action(s, la) == Some(Action::Shift(next)));
                assert(table::called_for(grammar, merged, s as int, la, Action::Shift(next)));
                let x = choose|x: int|
                    0 <= x < merged.states@[s as int]@.len() && #[trigger] table::wanted(
                        grammar,
                        merged.edges@[s as int]@,
                        merged.states@[s as int]@[x],
                    ) == Some((la, Action::Shift(next)));
                assert(lr::after_dot(grammar.rules(), merged.states@[s as int]@[x]) == Some(
                    symbol,
                ));
                assert(merge::row_target(merged.edges@[s as int]@, symbol) is Some);
            },
            Symbol::Nonterminal(a) => {
                assert(built.goto(s, a) == Some(next));
            },
        }
        lemma_goes_soundly(grammar, canonical, merged, built, s, symbol, next);
    }
    assert forall|s: u32, lookahead: Lookahead|
        #![trigger (machine.actions)(s, lookahead)]
        machine.acts_soundly(s, lookahead) by {
        if let Some(action) = built.action(s, lookahead) {
            assert(table::called_for(grammar, merged, s as int, lookahead, action));
            let x = choose|x: int|
                0 <= x < merged.states@[s as int]@.len() && #[trigger] table::wanted(
                    grammar,
                    merged.edges@[s as int]@,
                    merged.states@[s as int]@[x],
                ) == Some((lookahead, action));
            let item = merged.states@[s as int]@[x];
            assert(merged.states@[s as int]@.contains(item));
            let c = lemma_item_in(grammar, canonical, merged, s as int, item);
            canonical::lemma_state_items(grammar, sets, c);
            assert(canonical::grounded(grammar, sets[c]@, c == 0));
            grammar.lemma_rule(item.production as int);
            lemma_has(grammar, merged, built, s, item);
            assert(item == (Lr1Item {
                production: item.production,
                dot: item.dot,
                lookahead: item.lookahead,
            }));
            if !(action is Shift) {
                assert(item.dot == machine.rules[item.production as int].rhs.len());
                assert(machine.has(
                    s,
                    (Lr1Item {
                        production: item.production,
                        dot: machine.rules[item.production as int].rhs.len() as u32,
                        lookahead: item.lookahead,
                    }),
                ));
            }
        }
    }
    reveal(Machine::sound);
}

/// Tables for a grammar, with what was found of them.
#[derive(Debug, PartialEq, Eq)]
pub struct CompiledLalr {
    pub grammar: Arc<ResidualGrammar>,
    pub productions: Vec<ParserProduction>,
    pub table: LalrTable,
    pub conflicts: Vec<LalrConflict>,
    pub lexical_safe: bool,
    pub stats: LalrBuildStats,
}

/// The production that leads to the start.
pub open spec fn augmented_rule(grammar: &ResidualGrammar) -> Rule {
    Rule {
        lhs: grammar.nonterminals@.len() as u32,
        rhs: seq![Symbol::Nonterminal(grammar.start)],
    }
}

/// Whether no word of a terminal begins another, even from a state that is not the start.
pub open spec fn prefix_free(terminal: CompiledTerminal) -> bool {
    match terminal {
        CompiledTerminal::Literal(_) => true,
        CompiledTerminal::Dfa(dfa) => forall|state: u32| #[trigger]
            dfa.accepts_at(state) ==> !dfa.extendable_at(state),
    }
}

/// Whether a string can be read by two terminals, and is a word of one of them.
pub open spec fn overlap(left: CompiledTerminal, right: CompiledTerminal) -> bool {
    exists|w: Seq<u8>| #[trigger] overlaps_on(left, right, w)
}

/// Whether a string can be read by two terminals, and is a word of one of them.
pub open spec fn overlaps_on(left: CompiledTerminal, right: CompiledTerminal, w: Seq<u8>) -> bool {
    &&& w.len() > 0
    &&& left.read(w) is Some
    &&& right.read(w) is Some
    &&& left.spec_accepting(left.read(w)->0) || right.spec_accepting(right.read(w)->0)
}

/// Whether the end of a token can be told without looking ahead, and which token it is.
pub open spec fn lexically_safe(terminals: Seq<CompiledTerminal>) -> bool {
    &&& forall|t: int| 0 <= t < terminals.len() ==> prefix_free(#[trigger] terminals[t])
    &&& forall|t: int, u: int|
        0 <= t < u < terminals.len() ==> !overlap(#[trigger] terminals[t], #[trigger] terminals[u])
}

impl CompiledLalr {
    /// The productions.
    pub open spec fn rules(&self) -> Seq<Rule> {
        item_sets::parser_rules(self.productions@)
    }

    /// The machine with given item sets.
    pub open spec fn machine_with(&self, items: Seq<Seq<Lr1Item>>) -> Machine {
        machine_of(self.rules(), self.grammar.nullable@, items, self.table)
    }

    /// Whether item sets explain the tables: soundly, and completely if there are no conflicts.
    pub open spec fn explained(&self, items: Seq<Seq<Lr1Item>>) -> bool {
        &&& self.machine_with(items).sound()
        &&& self.conflicts@.len() == 0 ==> self.machine_with(items).complete()
    }

    /// The machine, with item sets that explain the tables.
    pub open spec fn machine(&self) -> Machine {
        self.machine_with(choose|items: Seq<Seq<Lr1Item>>| self.explained(items))
    }

    /// Whether the tables are those of the grammar's productions: sound, and complete if there are
    /// no conflicts.
    pub open spec fn exact(&self) -> bool {
        &&& self.grammar.wf()
        &&& self.rules() == self.grammar.rules().push(augmented_rule(&*self.grammar))
        &&& self.grammar.nonterminals@.len() <= u32::MAX
        &&& self.table.wf()
        &&& self.lexical_safe == lexically_safe(self.grammar.terminals@)
        &&& exists|items: Seq<Seq<Lr1Item>>| self.explained(items)
    }

    /// Builds the tables of a grammar.
    pub fn build(grammar: Arc<ResidualGrammar>, limits: &CompileLimits) -> (result: Result<
        CompiledLalr,
        CompileError,
    >)
        requires
            grammar.wf(),
        ensures
            match result {
                Ok(compiled) => {
                    &&& compiled.grammar == grammar
                    &&& built(&compiled, limits)
                    &&& compiled.stats.merged_states == compiled.table.actions@.len()
                    &&& compiled.stats.action_entries == count::saturated(
                        table::entries(compiled.table.actions@),
                    )
                    &&& compiled.stats.goto_entries == count::saturated(
                        table::entries(compiled.table.gotos@),
                    )
                    &&& compiled.stats.conflicts == compiled.conflicts@.len()
                    &&& compiled.stats.canonical_states >= compiled.stats.merged_states
                },
                Err(error) => build_error(error, &*grammar, limits),
            },
    {
        let parser = match parser_grammar(&grammar) {
            Ok(parser) => parser,
            Err(error) => {
                return Err(error);
            },
        };
        let canonical = match canonical::collect_states(&parser, limits) {
            Ok(canonical) => canonical,
            Err(error) => {
                assert(parses(&*grammar, &parser) && parser_error(error, &parser, limits));
                return Err(error);
            },
        };
        let merged = match merge::merge(&parser, &canonical, limits) {
            Ok(merged) => merged,
            Err(error) => {
                assert(canonical.exact(&parser));
                assert(parses(&*grammar, &parser) && parser_error(error, &parser, limits));
                return Err(error);
            },
        };
        proof {
            lemma_states_lead(&parser, &canonical, &merged);
        }
        let (built, conflicts) = match table::build_table(&parser, &merged, limits) {
            Ok(built) => built,
            Err(error) => {
                assert(merge_of(&parser, &canonical, &merged));
                assert(parses(&*grammar, &parser) && parser_error(error, &parser, limits));
                return Err(error);
            },
        };
        let lexical_safe = lexical_safety(&grammar.terminals);
        let stats = LalrBuildStats {
            canonical_states: usize_to_u64(canonical.states.len()),
            merged_states: usize_to_u64(merged.states.len()),
            lr_items: usize_to_u64(canonical.total_items),
            action_entries: usize_to_u64(table::count_entries(&built.actions)),
            goto_entries: usize_to_u64(table::count_entries(&built.gotos)),
            conflicts: usize_to_u64(conflicts.len()),
        };
        proof {
            reveal(merge::merged_exact);
            lemma_machine_sound(&parser, &canonical, &merged, built, conflicts@);
            if conflicts@.len() == 0 {
                lemma_machine_complete(&parser, &canonical, &merged, built, conflicts@);
            }
        }
        let ghost items = item_seqs(merged.states@);
        let ghost whole = parser;
        let compiled = CompiledLalr {
            grammar,
            productions: parser.productions,
            table: built,
            conflicts,
            lexical_safe,
            stats,
        };
        assert(compiled.explained(items));
        assert(built_from(&compiled, limits, &whole, &canonical, &merged));
        Ok(compiled)
    }

    /// Whether the tables can drive a recognizer: without conflicts, and with tokens whose ends
    /// can be told.
    #[must_use]
    pub fn is_usable(&self) -> (usable: bool)
        ensures
            usable == (self.conflicts@.len() == 0 && self.lexical_safe),
    {
        self.conflicts.len() == 0 && self.lexical_safe
    }
}

/// Whether a parser is one for a grammar.
pub open spec fn parses(grammar: &ResidualGrammar, parser: &LrGrammar) -> bool {
    &&& parser.wf()
    &&& parser.rules() == grammar.rules().push(augmented_rule(grammar))
    &&& parser.nullable@ == grammar.nullable@
    &&& parser.productions@.len() == grammar.productions@.len() + 1
    &&& forall|p: int|
        0 <= p < grammar.productions@.len() ==> (#[trigger] parser.productions@[p]).provenance
            == grammar.productions@[p].provenance && parser.productions@[p].original == Some(
            grammar.productions@[p].original,
        )
    &&& parser.productions@.last().provenance == grammar.nonterminals@[grammar.start as int].provenance
    &&& parser.productions@.last().original is None
}

/// Whether an error says that the item sets of a parser, or what they merge to, or its tables, are
/// over a limit, and they are.
pub open spec fn parser_error(
    error: CompileError,
    parser: &LrGrammar,
    limits: &CompileLimits,
) -> bool {
    ||| canonical::construction_error(error, parser, limits)
    ||| exists|canonical: Canonical| #[trigger]
        canonical.exact(parser) && canonical.within(limits) && merge::merge_error(
            error,
            &canonical,
            limits,
        )
    ||| exists|canonical: Canonical, merged: Merged| #[trigger]
        merge_of(parser, &canonical, &merged) && canonical.within(limits) && table::table_error(
            error,
            parser,
            &merged,
            limits,
        )
}

/// Whether tables, conflicts and counts are those of a parser, within the limits.
pub open spec fn built_from(
    compiled: &CompiledLalr,
    limits: &CompileLimits,
    parser: &LrGrammar,
    canonical: &Canonical,
    merged: &Merged,
) -> bool {
    &&& parses(&*compiled.grammar, parser)
    &&& compiled.productions == parser.productions
    &&& merge_of(parser, canonical, merged)
    &&& canonical.within(limits)
    &&& merged.states@.len() <= limits.max_lr_states
    &&& table::table_exact(parser, merged, &compiled.table, compiled.conflicts@)
    &&& table::table_within(&compiled.table, compiled.conflicts@, limits)
    &&& compiled.stats.canonical_states == canonical.states@.len()
    &&& compiled.stats.merged_states == merged.states@.len()
    &&& compiled.stats.lr_items == canonical.total_items
}

/// Whether the tables of a grammar could be built within the limits, and are these.
pub open spec fn built(compiled: &CompiledLalr, limits: &CompileLimits) -> bool {
    &&& compiled.exact()
    &&& exists|parser: LrGrammar, canonical: Canonical, merged: Merged| #[trigger]
        built_from(compiled, limits, &parser, &canonical, &merged)
}

/// Whether item sets are merged from those of a parser.
pub open spec fn merge_of(parser: &LrGrammar, canonical: &Canonical, merged: &Merged) -> bool {
    canonical.exact(parser) && merged.exact(canonical)
}

/// Whether an error says that so many symbols or productions are too many to number, and they are.
pub open spec fn uncounted(error: CompileError, count: nat) -> bool {
    count > u32::MAX && error == (CompileError::ResourceLimitExceeded {
        stage: CompileStage::LrConstruction,
        observed: count as usize,
        limit: u32::MAX as usize,
    })
}

/// Whether building tables fails with an error for a reason: there are too many symbols or
/// productions to number, or the parser is over a limit.
pub open spec fn build_error(
    error: CompileError,
    grammar: &ResidualGrammar,
    limits: &CompileLimits,
) -> bool {
    ||| uncounted(error, grammar.nonterminals@.len())
    ||| uncounted(error, grammar.productions@.len())
    ||| exists|parser: LrGrammar| #[trigger]
        parses(grammar, &parser) && parser_error(error, &parser, limits)
}

/// The productions of a parser for a grammar, and what is known of its symbols.
fn parser_grammar(grammar: &ResidualGrammar) -> (result: Result<LrGrammar, CompileError>)
    requires
        grammar.wf(),
    ensures
        match result {
            Ok(parser) => {
                &&& parser.wf()
                &&& parser.rules() == grammar.rules().push(augmented_rule(grammar))
                &&& parser.nullable@ == grammar.nullable@
                &&& grammar.nonterminals@.len() <= u32::MAX
                &&& forall|p: int|
                    0 <= p < grammar.productions@.len() ==> (
                    #[trigger] parser.productions@[p]).rhs@ == grammar.productions@[p].rhs@
                &&& parses(grammar, &parser)
                &&& parser.productions@.len() == grammar.productions@.len() + 1
                &&& parser.productions@.last().rhs@.len() == 1
            },
            Err(error) => uncounted(error, grammar.nonterminals@.len()) || uncounted(
                error,
                grammar.productions@.len(),
            ),
        },
{
    let count: usize = grammar.nonterminals.len();
    if count > u32::MAX as usize {
        return Err(
            CompileError::ResourceLimitExceeded {
                stage: CompileStage::LrConstruction,
                observed: count,
                limit: u32::MAX as usize,
            },
        );
    }
    let augmented: u32 = count as u32;
    let mut productions: Vec<ParserProduction> = Vec::new();
    let mut by_lhs: Vec<Vec<ProductionId>> = count::empty_lists(count);
    if grammar.productions.len() > u32::MAX as usize {
        return Err(
            CompileError::ResourceLimitExceeded {
                stage: CompileStage::LrConstruction,
                observed: grammar.productions.len(),
                limit: u32::MAX as usize,
            },
        );
    }
    while productions.len() < grammar.productions.len()
        invariant
            grammar.wf(),
            grammar.productions@.len() <= u32::MAX,
            productions@.len() <= grammar.productions@.len(),
            by_lhs@.len() == count == grammar.nonterminals@.len(),
            forall|p: int|
                0 <= p < productions@.len() ==> (#[trigger] productions@[p]).lhs
                    == grammar.productions@[p].lhs && productions@[p].rhs@
                    == grammar.productions@[p].rhs@ && productions@[p].provenance
                    == grammar.productions@[p].provenance && productions@[p].original == Some(
                    grammar.productions@[p].original,
                ),
            forall|a: u32, p: u32|
                #![trigger by_lhs@[a as int]@.contains(p)]
                a < count ==> (by_lhs@[a as int]@.contains(p) <==> p < productions@.len()
                    && productions@[p as int].lhs == a),
        decreases grammar.productions@.len() - productions@.len(),
    {
        let index: usize = productions.len();
        let production = &grammar.productions[index];
        let rhs = production.rhs.clone();
        assert(rhs@ =~= production.rhs@);
        let ghost before = productions@;
        let ghost lists = by_lhs@;
        let lhs = production.lhs;
        assert(grammar.productions@[index as int].lhs < grammar.nonterminals@.len());
        by_lhs[lhs as usize].push(index as u32);
        productions.push(
            ParserProduction {
                lhs,
                rhs,
                provenance: production.provenance.clone(),
                original: Some(production.original),
            },
        );
        proof {
            assert forall|a: u32, p: u32|
                #![trigger by_lhs@[a as int]@.contains(p)]
                a < count implies (by_lhs@[a as int]@.contains(p) <==> p < productions@.len()
                && productions@[p as int].lhs == a) by {
                let old_list = lists[a as int]@;
                let list = by_lhs@[a as int]@;
                assert(lists[a as int]@.contains(p) <==> p < before.len()
                    && before[p as int].lhs == a);
                if p < before.len() {
                    assert(productions@[p as int] == before[p as int]);
                }
                if a == lhs {
                    assert(list == old_list.push(index as u32));
                    if list.contains(p) && p != index {
                        let x = choose|x: int| 0 <= x < list.len() && list[x] == p;
                        assert(old_list[x] == p);
                    }
                    if old_list.contains(p) {
                        let x = choose|x: int| 0 <= x < old_list.len() && old_list[x] == p;
                        assert(list[x] == p);
                    }
                    if p == index {
                        assert(list[old_list.len() as int] == p);
                    }
                } else {
                    assert(by_lhs@[a as int] == lists[a as int]);
                }
            }
        }
    }
    let first = item_sets::compute_first(grammar);
    let nullable = grammar.nullable.clone();
    assert(nullable@ =~= grammar.nullable@);
    let provenance = grammar.nonterminals[grammar.start as usize].provenance.clone();
    let ghost plain = productions@;
    let mut rhs: Vec<Symbol> = Vec::new();
    rhs.push(Symbol::Nonterminal(grammar.start));
    productions.push(ParserProduction { lhs: augmented, rhs, provenance, original: None });
    let parser = LrGrammar {
        productions,
        by_lhs,
        nullable,
        first,
        terminals: grammar.terminals.len(),
    };
    proof {
        let extra = augmented_rule(grammar);
        assert(parser.productions@.last().rhs@ =~= extra.rhs);
        assert(parser.rules() =~= grammar.rules().push(extra)) by {
            assert forall|p: int| 0 <= p < parser.rules().len() implies parser.rules()[p]
                == grammar.rules().push(extra)[p] by {
                parser.lemma_rule(p);
                if p < grammar.productions@.len() {
                    assert(parser.productions@[p] == plain[p]);
                    assert(grammar.rules()[p] == residual::residual_rule(grammar.productions@[p]));
                }
            }
        }
        assert forall|p: int| 0 <= p < parser.productions@.len() implies residual::symbols_in(
            (#[trigger] parser.productions@[p]).rhs@,
            parser.nullable@.len(),
            parser.terminals as nat,
        ) by {
            if p < plain.len() {
                assert(parser.productions@[p] == plain[p]);
                assert(grammar.productions@[p].rhs@ == plain[p].rhs@);
            }
        }
        assert forall|p: int| 0 <= p < parser.productions@.len() - 1 implies (
        #[trigger] parser.productions@[p]).lhs < parser.nullable@.len() by {
            assert(parser.productions@[p] == plain[p]);
            assert(grammar.productions@[p].lhs == plain[p].lhs);
        }
        assert forall|a: u32, p: u32|
            #![trigger parser.by_lhs@[a as int]@.contains(p)]
            a < parser.nullable@.len() implies (parser.by_lhs@[a as int]@.contains(p) <==> p
            < parser.productions@.len() && parser.productions@[p as int].lhs == a) by {
            if p < plain.len() {
                assert(parser.productions@[p as int] == plain[p as int]);
            }
        }
        assert(item_sets::marks_exact(
            parser.rules(),
            parser.nullable@,
            parser.terminals as nat,
            parser.first@,
        )) by {
            let rules = grammar.rules();
            assert forall|p: int, x: int|
                0 <= p < rules.len() && 0 <= x < rules[p].rhs.len() implies
                #[trigger] rules[p].rhs[x] != Symbol::Nonterminal(extra.lhs) by {
                assert(rules[p] == residual::residual_rule(grammar.productions@[p]));
                assert(residual::symbol_in(
                    grammar.productions@[p].rhs@[x],
                    grammar.nonterminals@.len(),
                    grammar.terminals@.len(),
                ));
            }
            assert forall|a: u32, t: u32|
                #![trigger first@[a as int]@[t as int]]
                a < first@.len() && t < parser.terminals implies (first@[a as int]@[t as int]
                <==> lr::can_begin(
                parser.rules(),
                parser.nullable@,
                Symbol::Nonterminal(a),
                t,
            )) by {
                let symbol = Symbol::Nonterminal(a);
                assert(first@[a as int]@[t as int] <==> lr::can_begin(
                    rules,
                    grammar.nullable@,
                    symbol,
                    t,
                ));
                if lr::can_begin(rules, grammar.nullable@, symbol, t) {
                    let n = choose|n: nat| lr::begins(rules, grammar.nullable@, n, symbol, t);
                    item_sets::lemma_begins_augmented(
                        rules,
                        grammar.nullable@,
                        extra,
                        n,
                        symbol,
                        t,
                    );
                }
                if lr::can_begin(parser.rules(), grammar.nullable@, symbol, t) {
                    let n = choose|n: nat|
                        lr::begins(parser.rules(), grammar.nullable@, n, symbol, t);
                    item_sets::lemma_begins_augmented(
                        rules,
                        grammar.nullable@,
                        extra,
                        n,
                        symbol,
                        t,
                    );
                }
            }
        }
    }
    Ok(parser)
}

/// A cursor's number.
spec fn cursor_number(cursor: TerminalCursorState) -> u32 {
    match cursor {
        TerminalCursorState::Literal(offset) => offset,
        TerminalCursorState::Dfa(state) => state,
    }
}

fn number_cursor(cursor: TerminalCursorState) -> (number: u32)
    ensures
        number == cursor_number(cursor),
{
    match cursor {
        TerminalCursorState::Literal(offset) => offset,
        TerminalCursorState::Dfa(state) => state,
    }
}

/// Two cursors as one number.
spec fn pair_number(left: TerminalCursorState, right: TerminalCursorState) -> int {
    cursor_number(left) * 0x1_0000_0000 + cursor_number(right)
}

fn number_pair(left: TerminalCursorState, right: TerminalCursorState) -> (number: u64)
    ensures
        number == pair_number(left, right),
{
    number_cursor(left) as u64 * 0x1_0000_0000 + number_cursor(right) as u64
}

/// Whether some string leads two terminals to two cursors.
spec fn both_reach(
    left: CompiledTerminal,
    right: CompiledTerminal,
    l: TerminalCursorState,
    r: TerminalCursorState,
) -> bool {
    exists|w: Seq<u8>| #[trigger] left.read(w) == Some(l) && right.read(w) == Some(r)
}

/// Whether a byte leads two cursors to ones that were seen, and no word of either terminal ends
/// there.
spec fn byte_explored(
    left: CompiledTerminal,
    right: CompiledTerminal,
    l: TerminalCursorState,
    r: TerminalCursorState,
    byte: u8,
    seen: Set<u64>,
) -> bool {
    match (left.spec_advance(l, byte), right.spec_advance(r, byte)) {
        (Some(a), Some(b)) => !left.spec_accepting(a) && !right.spec_accepting(b) && seen.contains(
            pair_number(a, b) as u64,
        ),
        _ => true,
    }
}

/// Whether every cursor pair that was seen and does not wait was explored.
spec fn explored(
    left: CompiledTerminal,
    right: CompiledTerminal,
    seen: Set<u64>,
    waiting: Seq<(TerminalCursorState, TerminalCursorState)>,
) -> bool {
    forall|l: TerminalCursorState, r: TerminalCursorState, byte: u8|
        left.holds(l) && right.holds(r) && seen.contains(pair_number(l, r) as u64)
            && !waiting.contains((l, r)) ==> #[trigger] byte_explored(
            left,
            right,
            l,
            r,
            byte,
            seen,
        )
}

/// Once nothing waits, no string is a word of one terminal and can be read by the other.
proof fn lemma_explored(
    left: CompiledTerminal,
    right: CompiledTerminal,
    seen: Set<u64>,
    w: Seq<u8>,
)
    requires
        left.wf(),
        right.wf(),
        explored(left, right, seen, Seq::empty()),
        seen.contains(pair_number(left.spec_start(), right.spec_start()) as u64),
        left.read(w) is Some,
        right.read(w) is Some,
    ensures
        seen.contains(pair_number(left.read(w)->0, right.read(w)->0) as u64),
        !overlaps_on(left, right, w),
    decreases w.len(),
{
    if w.len() > 0 {
        let front = w.drop_last();
        lemma_explored(left, right, seen, front);
        left.lemma_read_holds(front);
        right.lemma_read_holds(front);
        let l = left.read(front)->0;
        let r = right.read(front)->0;
        assert(byte_explored(left, right, l, r, w.last(), seen));
    }
}

/// There are no more machine integers than there are.
proof fn lemma_u64_set(set: Set<u64>)
    requires
        set.finite(),
    ensures
        set.len() <= 0x1_0000_0000_0000_0000,
{
    let range = vstd::set_lib::set_int_range(0, 0x1_0000_0000_0000_0000);
    vstd::set_lib::lemma_int_range(0, 0x1_0000_0000_0000_0000);
    let image = set.map(|x: u64| x as int);
    vstd::set_lib::lemma_map_size(set, image, |x: u64| x as int);
    assert(image.subset_of(range));
    vstd::set_lib::lemma_len_subset(image, range);
}

/// Whether a string is a word of one terminal and can be read by the other.
fn terminal_languages_have_prefix_overlap(
    left: &CompiledTerminal,
    right: &CompiledTerminal,
) -> (found: bool)
    requires
        left.wf(),
        right.wf(),
    ensures
        found == overlap(*left, *right),
{
    let l0 = left.start();
    let r0 = right.start();
    let mut queue: std::collections::VecDeque<(TerminalCursorState, TerminalCursorState)> =
        std::collections::VecDeque::new();
    queue.push_back((l0, r0));
    let mut seen = fx::set_new();
    let first = number_pair(l0, r0);
    fx::set_insert(&mut seen, first);
    proof {
        assert(left.read(Seq::empty()) == Some(l0));
        assert(right.read(Seq::empty()) == Some(r0));
        assert(both_reach(*left, *right, l0, r0));
        assert(explored(*left, *right, seen@, queue@)) by {
            assert forall|l: TerminalCursorState, r: TerminalCursorState, byte: u8|
                left.holds(l) && right.holds(r) && seen@.contains(pair_number(l, r) as u64)
                    && !queue@.contains((l, r)) implies #[trigger] byte_explored(
                *left,
                *right,
                l,
                r,
                byte,
                seen@,
            ) by {
                lemma_pair_number(*left, *right, l, r, l0, r0);
                assert(queue@[0] == (l, r));
            }
        }
    }
    while queue.len() > 0
        invariant
            left.wf(),
            right.wf(),
            seen@.finite(),
            l0 == left.spec_start(),
            r0 == right.spec_start(),
            seen@.contains(pair_number(l0, r0) as u64),
            explored(*left, *right, seen@, queue@),
            forall|x: int|
                0 <= x < queue@.len() ==> both_reach(
                    *left,
                    *right,
                    (#[trigger] queue@[x]).0,
                    queue@[x].1,
                ) && left.holds(queue@[x].0) && right.holds(queue@[x].1) && seen@.contains(
                    pair_number(queue@[x].0, queue@[x].1) as u64,
                ),
        decreases 0x1_0000_0000_0000_0000 - seen@.len(), queue@.len(),
    {
        let ghost waiting = queue@;
        let ghost seen_before = seen@;
        proof {
            lemma_u64_set(seen@);
        }
        match queue.pop_front() {
            Some((l, r)) => {
                let ghost rest = queue@;
                assert(waiting[0] == (l, r));
                assert(rest =~= waiting.skip(1));
                assert forall|x: int| 0 <= x < rest.len() implies both_reach(
                    *left,
                    *right,
                    (#[trigger] rest[x]).0,
                    rest[x].1,
                ) && left.holds(rest[x].0) && right.holds(rest[x].1) && seen@.contains(
                    pair_number(rest[x].0, rest[x].1) as u64,
                ) by {
                    assert(rest[x] == waiting[x + 1]);
                }
                assert(explored(*left, *right, seen@, rest.push((l, r)))) by {
                    assert forall|a: TerminalCursorState, b: TerminalCursorState| #[trigger]
                        waiting.contains((a, b)) implies rest.push((l, r)).contains((a, b)) by {
                        let y = choose|y: int| 0 <= y < waiting.len() && waiting[y] == (a, b);
                        if y == 0 {
                            assert(rest.push((l, r))[rest.len() as int] == (a, b));
                        } else {
                            assert(rest.push((l, r))[y - 1] == (a, b));
                        }
                    }
                }
                let mut byte: u16 = 0;
                while byte < 256
                    invariant
                        left.wf(),
                        right.wf(),
                        seen@.finite(),
                        byte <= 256,
                        both_reach(*left, *right, l, r),
                        left.holds(l),
                        right.holds(r),
                        seen@.contains(pair_number(l0, r0) as u64),
                        explored(*left, *right, seen@, queue@.push((l, r))),
                        forall|x: int|
                            0 <= x < queue@.len() ==> both_reach(
                                *left,
                                *right,
                                (#[trigger] queue@[x]).0,
                                queue@[x].1,
                            ) && left.holds(queue@[x].0) && right.holds(queue@[x].1)
                                && seen@.contains(
                                pair_number(queue@[x].0, queue@[x].1) as u64,
                            ),
                        forall|b: u8|
                            b < byte ==> #[trigger] byte_explored(
                                *left,
                                *right,
                                l,
                                r,
                                b,
                                seen@,
                            ),
                        seen@.len() >= seen_before.len(),
                        seen@.len() == seen_before.len() ==> queue@ == rest,
                    decreases 256 - byte,
                {
                    let b: u8 = byte as u8;
                    let next_left = left.advance(l, b);
                    let next_right = right.advance(r, b);
                    match (next_left, next_right) {
                        (Some(x), Some(y)) => {
                            proof {
                                let w = choose|w: Seq<u8>| #[trigger]
                                    left.read(w) == Some(l) && right.read(w) == Some(r);
                                let on = w.push(b);
                                assert(on.drop_last() =~= w);
                                assert(left.read(on) == Some(x) && right.read(on) == Some(y));
                                assert(both_reach(*left, *right, x, y));
                                if left.spec_accepting(x) || right.spec_accepting(y) {
                                    assert(overlaps_on(*left, *right, on));
                                }
                            }
                            if left.is_accepting(x) || right.is_accepting(y) {
                                return true;
                            }
                            let number = number_pair(x, y);
                            let ghost mid = seen@;
                            let ghost line = queue@;
                            if fx::set_insert(&mut seen, number) {
                                queue.push_back((x, y));
                                proof {
                                    assert(queue@[line.len() as int] == (x, y));
                                    assert(explored(
                                        *left,
                                        *right,
                                        seen@,
                                        queue@.push((l, r)),
                                    )) by {
                                        lemma_explored_push(
                                            *left,
                                            *right,
                                            mid,
                                            seen@,
                                            line,
                                            (l, r),
                                            (x, y),
                                        );
                                        assert(queue@ =~= line.push((x, y)));
                                    }
                                    assert forall|c: u8| c < byte implies #[trigger] byte_explored(
                                        *left,
                                        *right,
                                        l,
                                        r,
                                        c,
                                        seen@,
                                    ) by {
                                        assert(byte_explored(*left, *right, l, r, c, mid));
                                    }
                                }
                            } else {
                                assert(seen@ =~= mid);
                            }
                            assert(byte_explored(*left, *right, l, r, b, seen@));
                        },
                        _ => {
                            assert(byte_explored(*left, *right, l, r, b, seen@));
                        },
                    }
                    assert forall|c: u8| c < byte + 1 implies #[trigger] byte_explored(
                        *left,
                        *right,
                        l,
                        r,
                        c,
                        seen@,
                    ) by {
                        if c == byte {
                            assert(c == b);
                        }
                    }
                    byte += 1;
                }
                assert(explored(*left, *right, seen@, queue@)) by {
                    assert forall|a: TerminalCursorState, c: TerminalCursorState, byte: u8|
                        left.holds(a) && right.holds(c) && seen@.contains(
                            pair_number(a, c) as u64,
                        ) && !queue@.contains((a, c)) implies #[trigger] byte_explored(
                        *left,
                        *right,
                        a,
                        c,
                        byte,
                        seen@,
                    ) by {
                        if (a, c) != (l, r) {
                            let all = queue@.push((l, r));
                            assert(!all.contains((a, c))) by {
                                if all.contains((a, c)) {
                                    let z = choose|z: int|
                                        0 <= z < all.len() && all[z] == (a, c);
                                    assert(queue@[z] == (a, c));
                                }
                            }
                        }
                    }
                }
                proof {
                    lemma_u64_set(seen@);
                }
            },
            None => {},
        }
    }
    proof {
        assert(queue@ =~= Seq::empty());
        if overlap(*left, *right) {
            let w = choose|w: Seq<u8>| #[trigger] overlaps_on(*left, *right, w);
            lemma_explored(*left, *right, seen@, w);
        }
    }
    false
}

/// Cursors of two terminals with the same number are the same.
proof fn lemma_pair_number(
    left: CompiledTerminal,
    right: CompiledTerminal,
    l: TerminalCursorState,
    r: TerminalCursorState,
    a: TerminalCursorState,
    b: TerminalCursorState,
)
    requires
        left.holds(l),
        left.holds(a),
        right.holds(r),
        right.holds(b),
        pair_number(l, r) as u64 == pair_number(a, b) as u64,
    ensures
        l == a,
        r == b,
{
    assert(0 <= pair_number(l, r) <= u64::MAX);
    assert(0 <= pair_number(a, b) <= u64::MAX);
    assert(cursor_number(l) == cursor_number(a));
    assert(cursor_number(r) == cursor_number(b));
}

/// A pair that is seen for the first time waits.
proof fn lemma_explored_push(
    left: CompiledTerminal,
    right: CompiledTerminal,
    before: Set<u64>,
    after: Set<u64>,
    waiting: Seq<(TerminalCursorState, TerminalCursorState)>,
    current: (TerminalCursorState, TerminalCursorState),
    new: (TerminalCursorState, TerminalCursorState),
)
    requires
        explored(left, right, before, waiting.push(current)),
        left.holds(new.0),
        right.holds(new.1),
        after == before.insert(pair_number(new.0, new.1) as u64),
    ensures
        explored(left, right, after, waiting.push(new).push(current)),
{
    let old_line = waiting.push(current);
    let line = waiting.push(new).push(current);
    assert forall|l: TerminalCursorState, r: TerminalCursorState, byte: u8|
        left.holds(l) && right.holds(r) && after.contains(pair_number(l, r) as u64)
            && !line.contains((l, r)) implies #[trigger] byte_explored(
        left,
        right,
        l,
        r,
        byte,
        after,
    ) by {
        if pair_number(l, r) as u64 == pair_number(new.0, new.1) as u64 {
            lemma_pair_number(left, right, l, r, new.0, new.1);
            assert(line[waiting.len() as int] == (l, r));
        } else {
            assert(!old_line.contains((l, r))) by {
                if old_line.contains((l, r)) {
                    let z = choose|z: int| 0 <= z < old_line.len() && old_line[z] == (l, r);
                    if z < waiting.len() {
                        assert(line[z] == (l, r));
                    } else {
                        assert(line[waiting.len() as int + 1] == (l, r));
                    }
                }
            }
            assert(byte_explored(left, right, l, r, byte, before));
        }
    }
}

/// Whether no word of a terminal begins another.
fn terminal_is_prefix_free(terminal: &CompiledTerminal) -> (free: bool)
    requires
        terminal.wf(),
    ensures
        free == prefix_free(*terminal),
{
    match terminal {
        CompiledTerminal::Literal(_) => true,
        CompiledTerminal::Dfa(dfa) => {
            let count: usize = dfa.state_count();
            let mut state: u32 = 0;
            while (state as usize) < count
                invariant
                    terminal is Dfa,
                    (*terminal)->Dfa_0 == *dfa,
                    dfa.wf(),
                    count == dfa.states(),
                    state <= count,
                    forall|s: u32|
                        s < state && #[trigger] dfa.accepts_at(s) ==> !dfa.extendable_at(s),
                decreases count - state,
            {
                if dfa.is_accepting(state) && dfa.can_extend(state) {
                    assert(dfa.accepts_at(state) && dfa.extendable_at(state));
                    return false;
                }
                state += 1;
            }
            true
        },
    }
}

/// Whether the end of a token can be told without looking ahead, and which token it is.
fn lexical_safety(terminals: &Vec<CompiledTerminal>) -> (safe: bool)
    requires
        forall|t: int| 0 <= t < terminals@.len() ==> (#[trigger] terminals@[t]).wf(),
    ensures
        safe == lexically_safe(terminals@),
{
    let mut index: usize = 0;
    while index < terminals.len()
        invariant
            forall|t: int| 0 <= t < terminals@.len() ==> (#[trigger] terminals@[t]).wf(),
            index <= terminals@.len(),
            forall|t: int| 0 <= t < index ==> prefix_free(#[trigger] terminals@[t]),
        decreases terminals@.len() - index,
    {
        if !terminal_is_prefix_free(&terminals[index]) {
            assert(!prefix_free(terminals@[index as int]));
            return false;
        }
        index += 1;
    }
    let mut left: usize = 0;
    while left < terminals.len()
        invariant
            forall|t: int| 0 <= t < terminals@.len() ==> (#[trigger] terminals@[t]).wf(),
            left <= terminals@.len(),
            forall|t: int, u: int|
                0 <= t < u < terminals@.len() && t < left ==> !overlap(
                    #[trigger] terminals@[t],
                    #[trigger] terminals@[u],
                ),
        decreases terminals@.len() - left,
    {
        let mut right: usize = left + 1;
        while right < terminals.len()
            invariant
                forall|t: int| 0 <= t < terminals@.len() ==> (#[trigger] terminals@[t]).wf(),
                left < right <= terminals@.len(),
                forall|u: int|
                    left < u < right ==> !overlap(
                        terminals@[left as int],
                        #[trigger] terminals@[u],
                    ),
            decreases terminals@.len() - right,
        {
            if terminal_languages_have_prefix_overlap(&terminals[left], &terminals[right]) {
                assert(overlap(terminals@[left as int], terminals@[right as int]));
                return false;
            }
            right += 1;
        }
        left += 1;
    }
    true
}

} // verus!
