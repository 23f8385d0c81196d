//! Shift-reduce machines over item sets, and what they recognize.

use vstd::prelude::*;

use crate::derivation;
use crate::derivation::Rule;
use crate::symbol::{ProductionId, Symbol, TerminalId};
use crate::tokens;

verus! {

pub type LalrStateId = u32;

/// What follows the symbols read so far.
#[derive(Clone, Copy, Debug, PartialEq, Eq, Structural, PartialOrd, Ord, Hash)]
pub enum Lookahead {
    Terminal(TerminalId),
    Eof,
}

/// A production, how much of it was read, and what may follow it.
#[derive(Clone, Copy, Debug, PartialEq, Eq, Structural, PartialOrd, Ord, Hash)]
pub struct Lr1Item {
    pub production: ProductionId,
    pub dot: u32,
    pub lookahead: Lookahead,
}

/// What a state does on a lookahead.
#[derive(Clone, Copy, Debug, PartialEq, Eq, Structural, PartialOrd, Ord)]
pub enum Action {
    Shift(LalrStateId),
    Reduce(ProductionId),
    Accept,
}

/// Whether all symbols are nonterminals that are marked nullable.
pub open spec fn all_nullable(nullable: Seq<bool>, symbols: Seq<Symbol>) -> bool {
    forall|x: int| 0 <= x < symbols.len() ==> is_nullable(nullable, #[trigger] symbols[x])
}

/// Whether a symbol is a nonterminal that is marked nullable.
pub open spec fn is_nullable(nullable: Seq<bool>, symbol: Symbol) -> bool {
    symbol matches Symbol::Nonterminal(a) && a < nullable.len() && nullable[a as int]
}

/// Whether a symbol can begin with a terminal, by at most `n` nested productions.
pub open spec fn begins(
    rules: Seq<Rule>,
    nullable: Seq<bool>,
    n: nat,
    symbol: Symbol,
    t: u32,
) -> bool
    decreases n,
{
    match symbol {
        Symbol::Terminal(other) => other == t,
        Symbol::Nonterminal(a) => n > 0 && exists|p: int, x: int|
            #![trigger rules[p].rhs[x]]
            0 <= p < rules.len() && rules[p].lhs == a && 0 <= x < rules[p].rhs.len()
                && all_nullable(nullable, rules[p].rhs.take(x)) && begins(
                rules,
                nullable,
                (n - 1) as nat,
                rules[p].rhs[x],
                t,
            ),
    }
}

/// Whether a symbol can begin with a terminal.
pub open spec fn can_begin(rules: Seq<Rule>, nullable: Seq<bool>, symbol: Symbol, t: u32) -> bool {
    exists|n: nat| begins(rules, nullable, n, symbol, t)
}

/// Whether symbols can begin with a terminal.
pub open spec fn can_start(
    rules: Seq<Rule>,
    nullable: Seq<bool>,
    symbols: Seq<Symbol>,
    t: u32,
) -> bool {
    exists|x: int|
        #![trigger symbols[x]]
        0 <= x < symbols.len() && all_nullable(nullable, symbols.take(x)) && can_begin(
            rules,
            nullable,
            symbols[x],
            t,
        )
}

/// The symbol behind the dot.
pub open spec fn after_dot(rules: Seq<Rule>, item: Lr1Item) -> Option<Symbol> {
    if item.production < rules.len() && item.dot < rules[item.production as int].rhs.len() {
        Some(rules[item.production as int].rhs[item.dot as int])
    } else {
        None
    }
}

/// Whether a lookahead can follow the symbol behind an item's dot.
pub open spec fn ahead(
    rules: Seq<Rule>,
    nullable: Seq<bool>,
    item: Lr1Item,
    lookahead: Lookahead,
) -> bool {
    let tail = rules[item.production as int].rhs.skip(item.dot + 1);
    match lookahead {
        Lookahead::Terminal(t) => can_start(rules, nullable, tail, t) || (lookahead
            == item.lookahead && all_nullable(nullable, tail)),
        Lookahead::Eof => lookahead == item.lookahead && all_nullable(nullable, tail),
    }
}

/// Whether one item brings another with it: a production of the nonterminal behind its dot, with
/// a lookahead that can follow it.
pub open spec fn brings(
    rules: Seq<Rule>,
    nullable: Seq<bool>,
    item: Lr1Item,
    other: Lr1Item,
) -> bool {
    &&& other.production < rules.len()
    &&& other.dot == 0
    &&& after_dot(rules, item) == Some(Symbol::Nonterminal(rules[other.production as int].lhs))
    &&& ahead(rules, nullable, item, other.lookahead)
}

/// A shift-reduce machine: productions of which the last is the augmented one, the item sets of its
/// states, and its tables.
pub struct Machine {
    pub rules: Seq<Rule>,
    pub nullable: Seq<bool>,
    pub items: Seq<Seq<Lr1Item>>,
    pub actions: spec_fn(u32, Lookahead) -> Option<Action>,
    pub gotos: spec_fn(u32, u32) -> Option<u32>,
}

impl Machine {
    /// The augmented production.
    pub open spec fn augmented(&self) -> int {
        self.rules.len() - 1
    }

    /// The nonterminal that the language starts from.
    pub open spec fn start(&self) -> u32 {
        self.rules.last().rhs[0]->Nonterminal_0
    }

    /// Whether the augmented production is the only one of its nonterminal, which no production
    /// names, and leads to the start.
    pub open spec fn augmentation(&self) -> bool {
        &&& self.rules.len() > 0
        &&& self.rules.last().rhs.len() == 1
        &&& self.rules.last().rhs[0] is Nonterminal
        &&& forall|p: int|
            0 <= p < self.rules.len() - 1 ==> (#[trigger] self.rules[p]).lhs
                != self.rules.last().lhs
        &&& forall|p: int, x: int|
            0 <= p < self.rules.len() && 0 <= x < self.rules[p].rhs.len()
                ==> #[trigger] self.rules[p].rhs[x] != Symbol::Nonterminal(self.rules.last().lhs)
    }

    /// Whether a state holds an item.
    pub open spec fn has(&self, state: u32, item: Lr1Item) -> bool {
        state < self.items.len() && self.items[state as int].contains(item)
    }

    /// Whether every item brings what it should with it, and the states and tables follow the items
    /// on, and act on those that were read.
    pub open spec fn complete(&self) -> bool {
        &&& self.augmentation()
        &&& self.has(
            0,
            Lr1Item {
                production: self.augmented() as u32,
                dot: 0,
                lookahead: Lookahead::Eof,
            },
        )
        &&& self.augmented() <= u32::MAX
        &&& forall|s: u32, item: Lr1Item| #[trigger]
            self.has(s, item) ==> item.production < self.rules.len() && item.dot <= self.rules[
            item.production as int].rhs.len()
        &&& forall|s: u32, item: Lr1Item, other: Lr1Item| #[trigger]
            self.has(s, item) && #[trigger] brings(self.rules, self.nullable, item, other)
                ==> self.has(s, other)
        &&& forall|s: u32, item: Lr1Item|
            self.has(s, item) ==> #[trigger] self.item_followed(s, item)
    }

    /// Whether the tables follow an item on, or act on it.
    pub open spec fn item_followed(&self, s: u32, item: Lr1Item) -> bool {
        match after_dot(self.rules, item) {
            Some(Symbol::Terminal(t)) => {
                &&& item.dot < u32::MAX
                &&& (self.actions)(s, Lookahead::Terminal(t)) matches Some(Action::Shift(next))
                &&& self.has(next, moved(item))
            },
            Some(Symbol::Nonterminal(a)) => {
                &&& item.dot < u32::MAX
                &&& (self.gotos)(s, a) matches Some(next)
                &&& self.has(next, moved(item))
            },
            None => if item.production == self.augmented() {
                item.lookahead == Lookahead::Eof && (self.actions)(s, Lookahead::Eof) == Some(
                    Action::Accept,
                )
            } else {
                (self.actions)(s, item.lookahead) == Some(Action::Reduce(item.production))
            },
        }
    }

    /// What the machine does next.
    pub open spec fn act(&self, stack: Seq<u32>, lookahead: Lookahead) -> Option<Action> {
        (self.actions)(stack.last(), lookahead)
    }

    /// The stack after a reduction.
    pub open spec fn reduced(&self, stack: Seq<u32>, production: ProductionId) -> Option<
        Seq<u32>,
    > {
        if production < self.rules.len() && self.rules[production as int].rhs.len() < stack.len() {
            let base = stack.take(stack.len() - self.rules[production as int].rhs.len());
            match (self.gotos)(base.last(), self.rules[production as int].lhs) {
                Some(next) => Some(base.push(next)),
                None => None,
            }
        } else {
            None
        }
    }

    /// Whether `n` steps lead from one stack to another, read the terminals `u`, and see
    /// `lookahead` behind them.
    pub open spec fn reach(
        &self,
        n: nat,
        stack: Seq<u32>,
        u: Seq<u32>,
        lookahead: Lookahead,
        end: Seq<u32>,
    ) -> bool
        decreases n,
    {
        if n == 0 {
            u.len() == 0 && stack == end
        } else {
            match self.act(stack, next_of(u, lookahead)) {
                Some(Action::Reduce(p)) => {
                    self.reduced(stack, p) matches Some(after) && self.reach(
                        (n - 1) as nat,
                        after,
                        u,
                        lookahead,
                        end,
                    )
                },
                Some(Action::Shift(next)) => u.len() > 0 && self.reach(
                    (n - 1) as nat,
                    stack.push(next),
                    u.skip(1),
                    lookahead,
                    end,
                ),
                _ => false,
            }
        }
    }

    pub proof fn lemma_reach_join(
        &self,
        n: nat,
        m: nat,
        stack: Seq<u32>,
        u: Seq<u32>,
        v: Seq<u32>,
        lookahead: Lookahead,
        middle: Seq<u32>,
        end: Seq<u32>,
    )
        requires
            self.reach(n, stack, u, next_of(v, lookahead), middle),
            self.reach(m, middle, v, lookahead, end),
        ensures
            self.reach(n + m, stack, u + v, lookahead, end),
        decreases n,
    {
        let all = u + v;
        if n == 0 {
            assert(all =~= v);
        } else {
            assert(next_of(all, lookahead) == next_of(u, next_of(v, lookahead)));
            assert((n + m - 1) as nat == (n - 1) as nat + m);
            match self.act(stack, next_of(all, lookahead)) {
                Some(Action::Reduce(p)) => {
                    self.lemma_reach_join(
                        (n - 1) as nat,
                        m,
                        self.reduced(stack, p)->0,
                        u,
                        v,
                        lookahead,
                        middle,
                        end,
                    );
                },
                Some(Action::Shift(next)) => {
                    self.lemma_reach_join(
                        (n - 1) as nat,
                        m,
                        stack.push(next),
                        u.skip(1),
                        v,
                        lookahead,
                        middle,
                        end,
                    );
                    assert(u.skip(1) + v =~= all.skip(1));
                },
                _ => {},
            }
        }
    }

    /// What symbols derive begins with a terminal that they can begin with, or is empty and they
    /// are nullable.
    pub proof fn lemma_spells_start(&self, n: nat, symbols: Seq<Symbol>, u: Seq<u32>)
        requires
            self.augmentation(),
            self.nullable_marked(),
            forall|x: int| 0 <= x < symbols.len() ==> self.plain(#[trigger] symbols[x]),
            tokens::spells_seq(self.rules, n, symbols, u),
        ensures
            u.len() == 0 ==> all_nullable(self.nullable, symbols),
            u.len() > 0 ==> can_start(self.rules, self.nullable, symbols, u[0]),
        decreases n, symbols.len(), 0nat,
    {
        if symbols.len() > 0 {
            let m = choose|m: int| #[trigger]
                derivation::at(m) && 0 <= m <= u.len() && tokens::spells(
                    self.rules,
                    n,
                    symbols[0],
                    u.take(m),
                ) && tokens::spells_seq(self.rules, n, symbols.skip(1), u.skip(m));
            let rest = symbols.skip(1);
            assert forall|x: int| 0 <= x < rest.len() implies self.plain(#[trigger] rest[x]) by {
                assert(rest[x] == symbols[x + 1]);
            }
            if m == 0 {
                assert(is_nullable(self.nullable, symbols[0])) by {
                    self.lemma_spells_nothing(n, symbols[0], u.take(m));
                }
                assert(u.skip(0) =~= u);
                self.lemma_spells_start(n, rest, u);
                if u.len() == 0 {
                    assert forall|x: int| 0 <= x < symbols.len() implies is_nullable(
                        self.nullable,
                        #[trigger] symbols[x],
                    ) by {
                        if x > 0 {
                            assert(symbols[x] == rest[x - 1]);
                        }
                    }
                } else {
                    let x = choose|x: int|
                        #![trigger rest[x]]
                        0 <= x < rest.len() && all_nullable(self.nullable, rest.take(x))
                            && can_begin(self.rules, self.nullable, rest[x], u[0]);
                    let y = x + 1;
                    assert(symbols[y] == rest[x]);
                    assert(all_nullable(self.nullable, symbols.take(y))) by {
                        assert forall|z: int| 0 <= z < y implies is_nullable(
                            self.nullable,
                            #[trigger] symbols.take(y)[z],
                        ) by {
                            if z > 0 {
                                assert(symbols[z] == rest.take(x)[z - 1]);
                            }
                        }
                    }
                }
            } else {
                let front = u.take(m);
                assert(front[0] == u[0]);
                self.lemma_spells_begins(n, symbols[0], front);
                assert(symbols.take(0).len() == 0);
                assert(can_begin(self.rules, self.nullable, symbols[0], u[0]));
            }
        }
    }

    /// What a symbol derives begins with a terminal that it can begin with.
    proof fn lemma_spells_begins(&self, n: nat, symbol: Symbol, u: Seq<u32>)
        requires
            self.augmentation(),
            self.nullable_marked(),
            tokens::spells(self.rules, n, symbol, u),
            u.len() > 0,
        ensures
            can_begin(self.rules, self.nullable, symbol, u[0]),
        decreases n, 0nat, 1nat,
    {
        match symbol {
            Symbol::Terminal(t) => {
                assert(begins(self.rules, self.nullable, 0, symbol, u[0]));
            },
            Symbol::Nonterminal(a) => {
                let p = choose|p: int|
                    #![trigger self.rules[p]]
                    0 <= p < self.rules.len() && self.rules[p].lhs == a && tokens::spells_seq(
                        self.rules,
                        (n - 1) as nat,
                        self.rules[p].rhs,
                        u,
                    );
                let rhs = self.rules[p].rhs;
                assert forall|x: int| 0 <= x < rhs.len() implies self.plain(#[trigger] rhs[x]) by {
                    assert(self.rules[p].rhs[x] == rhs[x]);
                }
                self.lemma_spells_start((n - 1) as nat, rhs, u);
                let x = choose|x: int|
                    #![trigger rhs[x]]
                    0 <= x < rhs.len() && all_nullable(self.nullable, rhs.take(x)) && can_begin(
                        self.rules,
                        self.nullable,
                        rhs[x],
                        u[0],
                    );
                let m = choose|m: nat| begins(self.rules, self.nullable, m, rhs[x], u[0]);
                assert(self.rules[p].rhs[x] == rhs[x]);
                assert(begins(self.rules, self.nullable, m + 1, symbol, u[0]));
            },
        }
    }

    /// Whether a symbol is not the augmented nonterminal.
    pub open spec fn plain(&self, symbol: Symbol) -> bool {
        symbol != Symbol::Nonterminal(self.rules.last().lhs)
    }

    /// Whether the nonterminals that derive nothing, but for the augmented one, are marked
    /// nullable.
    pub open spec fn nullable_marked(&self) -> bool {
        forall|a: u32, n: nat| #[trigger]
            tokens::spells(self.rules, n, Symbol::Nonterminal(a), Seq::empty()) && a
                != self.rules.last().lhs ==> is_nullable(self.nullable, Symbol::Nonterminal(a))
    }

    /// A symbol that derives nothing is marked nullable.
    proof fn lemma_spells_nothing(&self, n: nat, symbol: Symbol, u: Seq<u32>)
        requires
            self.nullable_marked(),
            self.plain(symbol),
            tokens::spells(self.rules, n, symbol, u),
            u.len() == 0,
        ensures
            is_nullable(self.nullable, symbol),
    {
        assert(u =~= Seq::empty());
        match symbol {
            Symbol::Terminal(t) => {
                assert(u.len() == seq![t].len());
            },
            Symbol::Nonterminal(a) => {
                assert(tokens::spells(self.rules, n, Symbol::Nonterminal(a), Seq::empty()));
            },
        }
    }

    /// A machine in a state with an item reads what the symbols behind the dot derive, and then
    /// holds the item read to its end.
    pub proof fn lemma_reads(
        &self,
        n: nat,
        stack: Seq<u32>,
        item: Lr1Item,
        u: Seq<u32>,
    ) -> (result: (nat, Seq<u32>))
        requires
            self.complete(),
            self.nullable_marked(),
            stack.len() > 0,
            self.has(stack.last(), item),
            tokens::spells_seq(
                self.rules,
                n,
                self.rules[item.production as int].rhs.skip(item.dot as int),
                u,
            ),
        ensures
            self.reach(result.0, stack, u, item.lookahead, result.1),
            result.1.len() == stack.len() + self.rules[item.production as int].rhs.len()
                - item.dot,
            result.1.take(stack.len() as int) == stack,
            self.has(
                result.1.last(),
                (Lr1Item {
                    dot: self.rules[item.production as int].rhs.len() as u32,
                    ..item
                }),
            ),
            self.rules[item.production as int].rhs.len() <= u32::MAX,
        decreases n, self.rules[item.production as int].rhs.len() - item.dot,
    {
        let rhs = self.rules[item.production as int].rhs;
        let left = rhs.skip(item.dot as int);
        let state = stack.last();
        assert(item.production < self.rules.len() && item.dot <= rhs.len());
        if left.len() == 0 {
            assert(item.dot == rhs.len());
            assert(item == (Lr1Item { dot: rhs.len() as u32, ..item }));
            assert(stack.take(stack.len() as int) =~= stack);
            (0, stack)
        } else {
            let m = choose|m: int| #[trigger]
                derivation::at(m) && 0 <= m <= u.len() && tokens::spells(
                    self.rules,
                    n,
                    left[0],
                    u.take(m),
                ) && tokens::spells_seq(self.rules, n, left.skip(1), u.skip(m));
            let front = u.take(m);
            let rest = u.skip(m);
            assert(left[0] == rhs[item.dot as int]);
            assert(left.skip(1) =~= rhs.skip(item.dot + 1));
            assert(front + rest =~= u);
            assert(self.item_followed(state, item));
            let b = next_of(rest, item.lookahead);
            // The step over the first symbol.
            let (steps, next) = match left[0] {
                Symbol::Terminal(t) => {
                    let next = (self.actions)(state, Lookahead::Terminal(t))->0->Shift_0;
                    assert(front.len() == 1 && front[0] == t);
                    assert(front.skip(1) =~= Seq::empty());
                    assert(next_of(front, b) == Lookahead::Terminal(t));
                    let after = stack.push(next);
                    assert(self.reach(0, after, front.skip(1), b, after));
                    assert(self.reach(1, stack, front, b, after));
                    (1nat, next)
                },
                Symbol::Nonterminal(a) => {
                    let p = choose|p: int|
                        #![trigger self.rules[p]]
                        0 <= p < self.rules.len() && self.rules[p].lhs == a && tokens::spells_seq(
                            self.rules,
                            (n - 1) as nat,
                            self.rules[p].rhs,
                            front,
                        );
                    let other = Lr1Item { production: p as u32, dot: 0, lookahead: b };
                    assert(p != self.augmented()) by {
                        assert(self.rules[item.production as int].rhs[item.dot as int]
                            != Symbol::Nonterminal(self.rules.last().lhs));
                    }
                    let others = left.skip(1);
                    assert forall|x: int| 0 <= x < others.len() implies self.plain(
                        #[trigger] others[x],
                    ) by {
                        assert(others[x] == self.rules[item.production as int].rhs[item.dot + 1
                            + x]);
                    }
                    self.lemma_spells_start(n, others, rest);
                    assert(ahead(self.rules, self.nullable, item, b));
                    assert(brings(self.rules, self.nullable, item, other));
                    assert(self.has(state, other));
                    assert(self.rules[p].rhs.skip(0) =~= self.rules[p].rhs);
                    let (inner, middle) = self.lemma_reads((n - 1) as nat, stack, other, front);
                    let read = Lr1Item { dot: self.rules[p].rhs.len() as u32, ..other };
                    assert(self.item_followed(middle.last(), read));
                    assert(after_dot(self.rules, read) is None);
                    let base = middle.take(middle.len() - self.rules[p].rhs.len());
                    assert(base =~= stack);
                    let next = (self.gotos)(state, a)->0;
                    let after = stack.push(next);
                    assert(self.reduced(middle, p as u32) == Some(after));
                    let none = Seq::<u32>::empty();
                    assert(next_of(none, b) == b);
                    assert(self.reach(0, after, none, b, after));
                    assert(self.reach(1, middle, none, b, after));
                    self.lemma_reach_join(inner, 1, stack, front, none, b, middle, after);
                    assert(front + none =~= front);
                    (inner + 1, next)
                },
            };
            let after = stack.push(next);
            let on = moved(item);
            assert(self.has(next, on));
            let (more, end) = self.lemma_reads(n, after, on, rest);
            self.lemma_reach_join(steps, more, stack, front, rest, item.lookahead, after, end);
            assert(end.take(stack.len() as int) =~= stack) by {
                assert forall|x: int| 0 <= x < stack.len() implies end[x] == stack[x] by {
                    assert(end.take(after.len() as int)[x] == after[x]);
                }
            }
            (steps + more, end)
        }
    }
}

/// Whether a state goes to another on a symbol.
pub open spec fn goes(machine: &Machine, state: u32, symbol: Symbol, next: u32) -> bool {
    match symbol {
        Symbol::Terminal(t) => (machine.actions)(state, Lookahead::Terminal(t)) == Some(
            Action::Shift(next),
        ),
        Symbol::Nonterminal(a) => (machine.gotos)(state, a) == Some(next),
    }
}

/// Whether a state holds an item of a production with the dot at a position, with any lookahead.
pub open spec fn has_core(machine: &Machine, state: u32, production: u32, dot: int) -> bool {
    exists|lookahead: Lookahead| #[trigger]
        machine.has(state, (Lr1Item { production, dot: dot as u32, lookahead }))
}

/// Whether a state holds an item with a nonterminal behind the dot.
pub open spec fn expects(machine: &Machine, state: u32, nonterminal: u32) -> bool {
    exists|item: Lr1Item| #[trigger]
        machine.has(state, item) && after_dot(machine.rules, item) == Some(
            Symbol::Nonterminal(nonterminal),
        )
}

/// Whether an item of a state goes back, by at most `n` items that bring one another, to one of which
/// something was read, or to the one that recognition starts with.
pub open spec fn based(machine: &Machine, s: u32, n: nat, item: Lr1Item) -> bool
    decreases n,
{
    &&& machine.has(s, item)
    &&& {
        ||| item.dot > 0
        ||| s == 0 && item.production == machine.augmented()
        ||| n > 0 && exists|before: Lr1Item| #[trigger]
            machine.has(s, before) && after_dot(machine.rules, before) == Some(
                Symbol::Nonterminal(machine.rules[item.production as int].lhs),
            ) && based(machine, s, (n - 1) as nat, before)
    }
}

/// Whether a state holds an item.
pub open spec fn inhabited(machine: &Machine, s: u32) -> bool {
    exists|item: Lr1Item| #[trigger] machine.has(s, item)
}

impl Machine {
    /// Whether the states and tables do nothing that the items do not call for.
    #[verifier::opaque]
    pub open spec fn sound(&self) -> bool {
        &&& self.augmentation()
        &&& self.items.len() > 0
        &&& self.augmented() <= u32::MAX
        &&& forall|s: u32, item: Lr1Item| #[trigger]
            self.has(s, item) ==> item.production < self.rules.len() && item.dot <= self.rules[
            item.production as int].rhs.len() && (s == 0 ==> item.dot == 0)
        &&& forall|s: u32, item: Lr1Item|
            #![trigger self.has(s, item)]
            self.has(s, item) && item.dot == 0 ==> (s == 0 && item.production == self.augmented())
                || (item.production != self.augmented() && expects(
                self,
                s,
                self.rules[item.production as int].lhs,
            ))
        &&& forall|s: u32, item: Lr1Item| #[trigger]
            self.has(s, item) ==> exists|n: nat| based(self, s, n, item)
        &&& forall|s: u32| s < self.items.len() ==> #[trigger] inhabited(self, s)
        &&& forall|s: u32, a: u32| #[trigger] expects(self, s, a) ==> (self.gotos)(s, a) is Some
        &&& forall|s: u32, symbol: Symbol, next: u32| #[trigger]
            goes(self, s, symbol, next) ==> self.goes_soundly(s, symbol, next)
        &&& forall|s: u32, lookahead: Lookahead|
            #![trigger (self.actions)(s, lookahead)]
            self.acts_soundly(s, lookahead)
    }

    /// Whether what was read before the items of a state is the symbol that led to it.
    pub open spec fn goes_soundly(&self, s: u32, symbol: Symbol, next: u32) -> bool {
        &&& 0 < next < self.items.len()
        &&& forall|item: Lr1Item| #[trigger]
            self.has(next, item) && item.dot > 0 ==> self.rules[item.production as int].rhs[
            item.dot - 1] == symbol && has_core(self, s, item.production, item.dot - 1)
    }

    /// Whether an action is called for by an item.
    pub open spec fn acts_soundly(&self, s: u32, lookahead: Lookahead) -> bool {
        match (self.actions)(s, lookahead) {
            Some(Action::Shift(_)) => lookahead is Terminal,
            Some(Action::Reduce(p)) => p < self.augmented() && has_core(
                self,
                s,
                p,
                self.rules[p as int].rhs.len() as int,
            ) && self.rules[p as int].rhs.len() <= u32::MAX,
            Some(Action::Accept) => lookahead == Lookahead::Eof && has_core(
                self,
                s,
                self.augmented() as u32,
                1,
            ),
            None => true,
        }
    }

    /// Whether the states of a stack follow one another on symbols that derive `u`.
    pub open spec fn carries(&self, stack: Seq<u32>, symbols: Seq<Symbol>, u: Seq<u32>) -> bool {
        &&& stack.len() == symbols.len() + 1
        &&& stack[0] == 0
        &&& forall|x: int|
            0 <= x < symbols.len() ==> goes(
                self,
                #[trigger] stack[x],
                symbols[x],
                stack[x + 1],
            )
        &&& exists|n: nat| tokens::spells_seq(self.rules, n, symbols, u)
    }

    pub proof fn lemma_sound_has(&self, s: u32, item: Lr1Item)
        requires
            self.sound(),
            self.has(s, item),
        ensures
            item.production < self.rules.len(),
            item.dot <= self.rules[item.production as int].rhs.len(),
            s == 0 ==> item.dot == 0,
            item.dot == 0 ==> (s == 0 && item.production == self.augmented()) || (
            item.production != self.augmented() && (self.gotos)(
                s,
                self.rules[item.production as int].lhs,
            ) is Some),
    {
        reveal(Machine::sound);
    }

    /// Every item goes back to what a state is made of, and every state has an item.
    pub proof fn lemma_sound_based(&self, s: u32)
        requires
            self.sound(),
        ensures
            self.augmentation(),
            self.items.len() > 0,
            s < self.items.len() ==> inhabited(self, s),
            forall|item: Lr1Item| #[trigger]
                self.has(s, item) ==> exists|n: nat| based(self, s, n, item),
    {
        reveal(Machine::sound);
    }

    pub proof fn lemma_sound_goes(&self, s: u32, symbol: Symbol, next: u32)
        requires
            self.sound(),
            goes(self, s, symbol, next),
        ensures
            self.goes_soundly(s, symbol, next),
    {
        reveal(Machine::sound);
    }

    proof fn lemma_sound_acts(&self, s: u32, lookahead: Lookahead)
        requires
            self.sound(),
        ensures
            self.acts_soundly(s, lookahead),
            self.augmentation(),
            self.augmented() <= u32::MAX,
    {
        reveal(Machine::sound);
    }

    /// What an item in the top state has read is on the stack.
    proof fn lemma_top(
        &self,
        stack: Seq<u32>,
        symbols: Seq<Symbol>,
        u: Seq<u32>,
        production: u32,
        dot: int,
        d: int,
    )
        requires
            self.sound(),
            self.carries(stack, symbols, u),
            has_core(self, stack.last(), production, dot),
            0 <= d <= dot <= u32::MAX,
        ensures
            d <= symbols.len(),
            production < self.rules.len(),
            dot <= self.rules[production as int].rhs.len(),
            has_core(self, stack[stack.len() - 1 - d], production, dot - d),
            forall|x: int|
                0 <= x < d ==> #[trigger] symbols[symbols.len() - d + x]
                    == self.rules[production as int].rhs[dot - d + x],
        decreases d,
    {
        let la = choose|la: Lookahead| #[trigger]
            self.has(stack.last(), (Lr1Item { production, dot: dot as u32, lookahead: la }));
        self.lemma_sound_has(
            stack.last(),
            (Lr1Item { production, dot: dot as u32, lookahead: la }),
        );
        if d > 0 {
            self.lemma_top(stack, symbols, u, production, dot, d - 1);
            let at = stack.len() - d;
            let e = dot - d + 1;
            let lb = choose|lb: Lookahead| #[trigger]
                self.has(stack[at], (Lr1Item { production, dot: e as u32, lookahead: lb }));
            let item = Lr1Item { production, dot: e as u32, lookahead: lb };
            self.lemma_sound_has(stack[at], item);
            assert(at > 0);
            let x = at - 1;
            assert(goes(self, stack[x], symbols[x], stack[x + 1]));
            self.lemma_sound_goes(stack[x], symbols[x], stack[at]);
            assert forall|y: int| 0 <= y < d implies #[trigger] symbols[symbols.len() - d + y]
                == self.rules[production as int].rhs[dot - d + y] by {
                if y > 0 {
                    let z = y - 1;
                    assert(symbols[symbols.len() - (d - 1) + z]
                        == self.rules[production as int].rhs[dot - (d - 1) + z]);
                }
            }
        }
    }

    /// A reduction keeps what the stack derives.
    pub proof fn lemma_reduce(
        &self,
        stack: Seq<u32>,
        symbols: Seq<Symbol>,
        u: Seq<u32>,
        lookahead: Lookahead,
        p: u32,
    ) -> (after: Seq<Symbol>)
        requires
            self.sound(),
            self.carries(stack, symbols, u),
            self.act(stack, lookahead) == Some(Action::Reduce(p)),
        ensures
            self.reduced(stack, p) is Some,
            self.carries(self.reduced(stack, p)->0, after, u),
    {
        self.lemma_sound_acts(stack.last(), lookahead);
        let rhs = self.rules[p as int].rhs;
        let lhs = self.rules[p as int].lhs;
        let k = rhs.len() as int;
        self.lemma_top(stack, symbols, u, p, k, k);
        let at = stack.len() - 1 - k;
        let base = stack.take(stack.len() - k);
        let la = choose|la: Lookahead| #[trigger]
            self.has(stack[at], (Lr1Item { production: p, dot: 0u32, lookahead: la }));
        assert(k - k == 0);
        self.lemma_sound_has(
            stack[at],
            (Lr1Item { production: p, dot: 0u32, lookahead: la }),
        );
        let next = (self.gotos)(stack[at], lhs)->0;
        let front = symbols.take(symbols.len() - k);
        let back = symbols.skip(symbols.len() - k);
        let symbol = Symbol::Nonterminal(lhs);
        let after = front.push(symbol);
        let end = base.push(next);
        assert(base.last() == stack[at]);
        assert(back =~= rhs) by {
            assert forall|x: int| 0 <= x < k implies back[x] == rhs[x] by {
                assert(symbols[symbols.len() - k + x] == rhs[k - k + x]);
            }
        }
        assert(front + back =~= symbols);
        let n = choose|n: nat| tokens::spells_seq(self.rules, n, symbols, u);
        let m = tokens::lemma_spells_seq_split(self.rules, n, front, back, u);
        assert(tokens::spells(self.rules, n + 1, symbol, u.skip(m))) by {
            assert(self.rules[p as int].lhs == lhs);
            assert((n + 1 - 1) as nat == n);
        }
        tokens::lemma_spells_seq_mono(self.rules, n, n + 1, front, u.take(m));
        tokens::lemma_spells_one(self.rules, n + 1, symbol, u.skip(m));
        tokens::lemma_spells_seq_join(
            self.rules,
            n + 1,
            front,
            seq![symbol],
            u.take(m),
            u.skip(m),
        );
        assert(front + seq![symbol] =~= after);
        assert(u.take(m) + u.skip(m) =~= u);
        assert forall|x: int| 0 <= x < after.len() implies goes(
            self,
            #[trigger] end[x],
            after[x],
            end[x + 1],
        ) by {
            if x < front.len() {
                assert(goes(self, stack[x], symbols[x], stack[x + 1]));
            }
        }
        after
    }

    /// A shift adds a terminal to what the stack derives.
    pub proof fn lemma_shift(
        &self,
        stack: Seq<u32>,
        symbols: Seq<Symbol>,
        u: Seq<u32>,
        t: u32,
        next: u32,
    )
        requires
            self.sound(),
            self.carries(stack, symbols, u),
            self.act(stack, Lookahead::Terminal(t)) == Some(Action::Shift(next)),
        ensures
            self.carries(stack.push(next), symbols.push(Symbol::Terminal(t)), u.push(t)),
    {
        let n = choose|n: nat| tokens::spells_seq(self.rules, n, symbols, u);
        let symbol = Symbol::Terminal(t);
        tokens::lemma_spells_one(self.rules, n, symbol, seq![t]);
        tokens::lemma_spells_seq_join(self.rules, n, symbols, seq![symbol], u, seq![t]);
        assert(symbols + seq![symbol] =~= symbols.push(symbol));
        assert(u + seq![t] =~= u.push(t));
        let end = stack.push(next);
        let after = symbols.push(symbol);
        assert forall|x: int| 0 <= x < after.len() implies goes(
            self,
            #[trigger] end[x],
            after[x],
            end[x + 1],
        ) by {
            if x < symbols.len() {
                assert(goes(self, stack[x], symbols[x], stack[x + 1]));
            }
        }
    }

    /// What is accepted is derived by the start.
    pub proof fn lemma_accept(&self, stack: Seq<u32>, symbols: Seq<Symbol>, u: Seq<u32>)
        requires
            self.sound(),
            self.carries(stack, symbols, u),
            self.act(stack, Lookahead::Eof) == Some(Action::Accept),
        ensures
            exists|n: nat| tokens::spells(self.rules, n, Symbol::Nonterminal(self.start()), u),
    {
        self.lemma_sound_acts(stack.last(), Lookahead::Eof);
        let p = self.augmented() as u32;
        self.lemma_top(stack, symbols, u, p, 1, 1);
        let at = stack.len() - 2;
        let la = choose|la: Lookahead| #[trigger]
            self.has(stack[at], (Lr1Item { production: p, dot: 0u32, lookahead: la }));
        assert(1 - 1 == 0);
        self.lemma_sound_has(
            stack[at],
            (Lr1Item { production: p, dot: 0u32, lookahead: la }),
        );
        assert(stack[at] == 0);
        if at > 0 {
            let x = at - 1;
            assert(goes(self, stack[x], symbols[x], stack[x + 1]));
            self.lemma_sound_goes(stack[x], symbols[x], stack[at]);
        }
        let symbol = Symbol::Nonterminal(self.start());
        assert(symbols[symbols.len() - 1 + 0] == self.rules[p as int].rhs[1 - 1 + 0]);
        assert(symbols =~= seq![symbol]);
        let n = choose|n: nat| tokens::spells_seq(self.rules, n, symbols, u);
        tokens::lemma_spells_one(self.rules, n, symbol, u);
    }

    /// Whether `n` reductions lead from one stack to another under a lookahead.
    pub open spec fn reduces(
        &self,
        n: nat,
        stack: Seq<u32>,
        lookahead: Lookahead,
        end: Seq<u32>,
    ) -> bool
        decreases n,
    {
        if n == 0 {
            stack == end
        } else {
            match self.act(stack, lookahead) {
                Some(Action::Reduce(p)) => {
                    self.reduced(stack, p) matches Some(after) && self.reduces(
                        (n - 1) as nat,
                        after,
                        lookahead,
                        end,
                    )
                },
                _ => false,
            }
        }
    }

    /// Whether reductions under a lookahead lead from a stack to one on which none is called for.
    pub open spec fn settles(&self, stack: Seq<u32>, lookahead: Lookahead, end: Seq<u32>) -> bool {
        &&& !(self.act(end, lookahead) matches Some(Action::Reduce(_)))
        &&& exists|n: nat| self.reduces(n, stack, lookahead, end)
    }

    /// Whether reductions under a lookahead, and a shift, lead from one stack to another.
    pub open spec fn shifts(&self, stack: Seq<u32>, t: u32, end: Seq<u32>) -> bool {
        &&& end.len() > 0
        &&& self.settles(stack, Lookahead::Terminal(t), end.drop_last())
        &&& self.act(end.drop_last(), Lookahead::Terminal(t)) == Some(
            Action::Shift(end.last()),
        )
    }

    /// Whether reading the terminals `u` leads to a stack.
    pub open spec fn after(&self, u: Seq<u32>, stack: Seq<u32>) -> bool
        decreases u.len(),
    {
        if u.len() == 0 {
            stack == seq![0u32]
        } else {
            exists|before: Seq<u32>| #[trigger]
                self.shifts(before, u.last(), stack) && self.after(u.drop_last(), before)
        }
    }

    proof fn lemma_reduces_unique(
        &self,
        n: nat,
        m: nat,
        stack: Seq<u32>,
        lookahead: Lookahead,
        a: Seq<u32>,
        b: Seq<u32>,
    )
        requires
            self.reduces(n, stack, lookahead, a),
            self.reduces(m, stack, lookahead, b),
            !(self.act(a, lookahead) matches Some(Action::Reduce(_))),
            !(self.act(b, lookahead) matches Some(Action::Reduce(_))),
        ensures
            a == b,
        decreases n,
    {
        if n > 0 && m > 0 {
            let p = self.act(stack, lookahead)->0->Reduce_0;
            self.lemma_reduces_unique(
                (n - 1) as nat,
                (m - 1) as nat,
                self.reduced(stack, p)->0,
                lookahead,
                a,
                b,
            );
        }
    }

    /// A stack settles in one way.
    pub proof fn lemma_settles_unique(
        &self,
        stack: Seq<u32>,
        lookahead: Lookahead,
        a: Seq<u32>,
        b: Seq<u32>,
    )
        requires
            self.settles(stack, lookahead, a),
            self.settles(stack, lookahead, b),
        ensures
            a == b,
    {
        let n = choose|n: nat| self.reduces(n, stack, lookahead, a);
        let m = choose|m: nat| self.reduces(m, stack, lookahead, b);
        self.lemma_reduces_unique(n, m, stack, lookahead, a, b);
    }

    /// Reading terminals leads to one stack.
    pub proof fn lemma_after_unique(&self, u: Seq<u32>, a: Seq<u32>, b: Seq<u32>)
        requires
            self.after(u, a),
            self.after(u, b),
        ensures
            a == b,
        decreases u.len(),
    {
        if u.len() > 0 {
            let x = choose|x: Seq<u32>| #[trigger]
                self.shifts(x, u.last(), a) && self.after(u.drop_last(), x);
            let y = choose|y: Seq<u32>| #[trigger]
                self.shifts(y, u.last(), b) && self.after(u.drop_last(), y);
            self.lemma_after_unique(u.drop_last(), x, y);
            self.lemma_settles_unique(
                x,
                Lookahead::Terminal(u.last()),
                a.drop_last(),
                b.drop_last(),
            );
            assert(a =~= a.drop_last().push(a.last()));
            assert(b =~= b.drop_last().push(b.last()));
        }
    }

    pub proof fn lemma_reduces_push(
        &self,
        n: nat,
        stack: Seq<u32>,
        lookahead: Lookahead,
        end: Seq<u32>,
        p: u32,
    )
        requires
            self.reduces(n, stack, lookahead, end),
            self.act(end, lookahead) == Some(Action::Reduce(p)),
            self.reduced(end, p) is Some,
        ensures
            self.reduces(n + 1, stack, lookahead, self.reduced(end, p)->0),
        decreases n,
    {
        if n == 0 {
            assert(self.reduces(0, self.reduced(end, p)->0, lookahead, self.reduced(end, p)->0));
            assert((n + 1 - 1) as nat == 0);
        } else {
            let q = self.act(stack, lookahead)->0->Reduce_0;
            self.lemma_reduces_push(
                (n - 1) as nat,
                self.reduced(stack, q)->0,
                lookahead,
                end,
                p,
            );
            assert((n + 1 - 1) as nat == (n - 1) as nat + 1);
        }
    }

    /// Reductions keep what the stack derives.
    pub proof fn lemma_reduces_carries(
        &self,
        n: nat,
        stack: Seq<u32>,
        symbols: Seq<Symbol>,
        u: Seq<u32>,
        lookahead: Lookahead,
        end: Seq<u32>,
    ) -> (after: Seq<Symbol>)
        requires
            self.sound(),
            self.carries(stack, symbols, u),
            self.reduces(n, stack, lookahead, end),
        ensures
            self.carries(end, after, u),
        decreases n,
    {
        if n == 0 {
            symbols
        } else {
            let p = self.act(stack, lookahead)->0->Reduce_0;
            let next = self.lemma_reduce(stack, symbols, u, lookahead, p);
            self.lemma_reduces_carries(
                (n - 1) as nat,
                self.reduced(stack, p)->0,
                next,
                u,
                lookahead,
                end,
            )
        }
    }

    /// A stack that reading terminals leads to derives them.
    pub proof fn lemma_after_carries(&self, u: Seq<u32>, stack: Seq<u32>) -> (symbols: Seq<Symbol>)
        requires
            self.sound(),
            self.after(u, stack),
        ensures
            self.carries(stack, symbols, u),
        decreases u.len(),
    {
        if u.len() == 0 {
            let none = Seq::<Symbol>::empty();
            assert(tokens::spells_seq(self.rules, 0, none, u));
            none
        } else {
            let before = choose|before: Seq<u32>| #[trigger]
                self.shifts(before, u.last(), stack) && self.after(u.drop_last(), before);
            let symbols = self.lemma_after_carries(u.drop_last(), before);
            let la = Lookahead::Terminal(u.last());
            let n = choose|n: nat| self.reduces(n, before, la, stack.drop_last());
            let after = self.lemma_reduces_carries(
                n,
                before,
                symbols,
                u.drop_last(),
                la,
                stack.drop_last(),
            );
            self.lemma_shift(stack.drop_last(), after, u.drop_last(), u.last(), stack.last());
            assert(stack.drop_last().push(stack.last()) =~= stack);
            assert(u.drop_last().push(u.last()) =~= u);
            after.push(Symbol::Terminal(u.last()))
        }
    }

    /// Whether the machine, having read `u`, accepts at the end of the input.
    pub open spec fn accepts(&self, u: Seq<u32>) -> bool {
        exists|stack: Seq<u32>, end: Seq<u32>|
            #![trigger self.after(u, stack), self.settles(stack, Lookahead::Eof, end)]
            self.after(u, stack) && self.settles(stack, Lookahead::Eof, end) && self.act(
                end,
                Lookahead::Eof,
            ) == Some(Action::Accept)
    }

    /// What a sound machine accepts is derived by the start.
    pub proof fn lemma_accepts_sound(&self, u: Seq<u32>)
        requires
            self.sound(),
            self.accepts(u),
        ensures
            exists|n: nat| tokens::spells(self.rules, n, Symbol::Nonterminal(self.start()), u),
    {
        let (stack, end) = choose|stack: Seq<u32>, end: Seq<u32>|
            #![trigger self.after(u, stack), self.settles(stack, Lookahead::Eof, end)]
            self.after(u, stack) && self.settles(stack, Lookahead::Eof, end) && self.act(
                end,
                Lookahead::Eof,
            ) == Some(Action::Accept);
        let symbols = self.lemma_after_carries(u, stack);
        let n = choose|n: nat| self.reduces(n, stack, Lookahead::Eof, end);
        let after = self.lemma_reduces_carries(n, stack, symbols, u, Lookahead::Eof, end);
        self.lemma_accept(end, after, u);
    }

    /// A run to the end passes through the stack after each part of what it reads.
    proof fn lemma_reach_after(
        &self,
        n: nat,
        k: nat,
        u: Seq<u32>,
        base: Seq<u32>,
        stack: Seq<u32>,
        v: Seq<u32>,
        end: Seq<u32>,
        cut: int,
    ) -> (result: (Seq<u32>, Seq<u32>))
        requires
            self.reach(n, stack, v, Lookahead::Eof, end),
            self.act(end, Lookahead::Eof) == Some(Action::Accept),
            self.after(u, base),
            self.reduces(k, base, next_of(v, Lookahead::Eof), stack),
            0 <= cut <= v.len(),
        ensures
            self.after(u + v.take(cut), result.0),
            self.settles(result.0, next_of(v.skip(cut), Lookahead::Eof), result.1),
            cut < v.len() ==> self.act(result.1, Lookahead::Terminal(v[cut])) matches Some(
                Action::Shift(_),
            ),
            cut == v.len() ==> self.act(result.1, Lookahead::Eof) == Some(Action::Accept),
        decreases n,
    {
        let la = next_of(v, Lookahead::Eof);
        if n == 0 {
            assert(v.take(cut) =~= Seq::empty());
            assert(u + v.take(cut) =~= u);
            assert(v.skip(cut).len() == 0);
            assert(self.settles(base, la, end));
            (base, end)
        } else {
            match self.act(stack, la) {
                Some(Action::Reduce(p)) => {
                    self.lemma_reduces_push(k, base, la, stack, p);
                    self.lemma_reach_after(
                        (n - 1) as nat,
                        k + 1,
                        u,
                        base,
                        self.reduced(stack, p)->0,
                        v,
                        end,
                        cut,
                    )
                },
                Some(Action::Shift(next)) => {
                    assert(self.settles(base, la, stack));
                    if cut == 0 {
                        assert(u + v.take(0) =~= u);
                        assert(v.skip(0) =~= v);
                        (base, stack)
                    } else {
                        let on = stack.push(next);
                        let more = u.push(v[0]);
                        assert(on.drop_last() =~= stack);
                        assert(more.drop_last() =~= u);
                        assert(more.last() == v[0]);
                        assert(self.shifts(base, more.last(), on));
                        assert(self.after(more, on));
                        let rest = v.skip(1);
                        assert(self.reduces(0, on, next_of(rest, Lookahead::Eof), on));
                        assert(more + rest.take(cut - 1) =~= u + v.take(cut));
                        assert(rest.skip(cut - 1) =~= v.skip(cut));
                        self.lemma_reach_after(
                            (n - 1) as nat,
                            0,
                            more,
                            on,
                            on,
                            rest,
                            end,
                            cut - 1,
                        )
                    }
                },
                _ => (base, stack),
            }
        }
    }

    /// What the start derives, a complete machine reads and accepts: after each part of it, it can
    /// shift the terminal that follows, and at the end it accepts.
    pub proof fn lemma_accepts_complete(&self, n: nat, u: Seq<u32>, cut: int) -> (result: (
        Seq<u32>,
        Seq<u32>,
    ))
        requires
            self.complete(),
            self.nullable_marked(),
            tokens::spells(self.rules, n, Symbol::Nonterminal(self.start()), u),
            0 <= cut <= u.len(),
        ensures
            self.after(u.take(cut), result.0),
            self.settles(result.0, next_of(u.skip(cut), Lookahead::Eof), result.1),
            cut < u.len() ==> self.act(result.1, Lookahead::Terminal(u[cut])) matches Some(
                Action::Shift(_),
            ),
            cut == u.len() ==> self.act(result.1, Lookahead::Eof) == Some(Action::Accept),
    {
        let item = Lr1Item {
            production: self.augmented() as u32,
            dot: 0,
            lookahead: Lookahead::Eof,
        };
        let stack = seq![0u32];
        let rhs = self.rules.last().rhs;
        tokens::lemma_spells_one(self.rules, n, Symbol::Nonterminal(self.start()), u);
        assert(rhs.skip(0) =~= seq![Symbol::Nonterminal(self.start())]);
        let (steps, end) = self.lemma_reads(n, stack, item, u);
        let read = Lr1Item { dot: 1, ..item };
        assert(self.item_followed(end.last(), read));
        let none = Seq::<u32>::empty();
        assert(self.reduces(0, stack, next_of(u, Lookahead::Eof), stack));
        let result = self.lemma_reach_after(steps, 0, none, stack, stack, u, end, cut);
        assert(none + u.take(cut) =~= u.take(cut));
        result
    }
}

/// The item with the dot one symbol on.
pub open spec fn moved(item: Lr1Item) -> Lr1Item {
    Lr1Item { dot: (item.dot + 1) as u32, ..item }
}

/// What is seen next.
pub open spec fn next_of(u: Seq<u32>, lookahead: Lookahead) -> Lookahead {
    if u.len() > 0 {
        Lookahead::Terminal(u[0])
    } else {
        lookahead
    }
}

} // verus!
