//! Removing the symbols of a grammar that no derivation from its start uses.

use std::collections::VecDeque;

use vstd::prelude::*;

use crate::count;
use crate::derivation;
use crate::derivation::{Lex, Rule};
use crate::error::{resource_error, CompileError, CompileStage};
use crate::grammar;
use crate::grammar::{Grammar, KindLex, Nonterminal, Production, RegularTerminal};
use crate::residual;
use crate::symbol::{NonterminalId, Symbol};

verus! {

/// What a reduction removed.
#[derive(Clone, Copy, Debug, PartialEq, Eq)]
pub struct ReductionStats {
    pub removed_nonterminals: usize,
    pub removed_terminals: usize,
    pub removed_productions: usize,
}

/// Whether every nonterminal of a sequence satisfies `good`.
pub open spec fn all_good(symbols: Seq<Symbol>, good: spec_fn(u32) -> bool) -> bool {
    forall|i: int|
        0 <= i < symbols.len() ==> (#[trigger] symbols[i] matches Symbol::Nonterminal(a) ==> good(
            a,
        ))
}

/// Whether `a` has a derivation tree of depth at most `n`, terminals taken for leaves.
pub open spec fn productive_within(rules: Seq<Rule>, n: nat, a: u32) -> bool
    decreases n,
{
    n > 0 && exists|p: int|
        #![trigger rules[p]]
        0 <= p < rules.len() && rules[p].lhs == a && forall|i: int|
            0 <= i < rules[p].rhs.len() ==> (#[trigger] rules[p].rhs[i] matches Symbol::Nonterminal(
                b,
            ) ==> productive_within(rules, (n - 1) as nat, b))
}

/// Whether `a` has a derivation tree, terminals taken for leaves.
pub open spec fn productive(rules: Seq<Rule>, a: u32) -> bool {
    exists|n: nat| productive_within(rules, n, a)
}

/// Whether `a` occurs in a derivation from `start`, at most `n` productions deep.
pub open spec fn reachable_within(rules: Seq<Rule>, start: u32, n: nat, a: u32) -> bool
    decreases n,
{
    a == start || (n > 0 && exists|p: int|
        #![trigger rules[p]]
        0 <= p < rules.len() && rules[p].rhs.contains(Symbol::Nonterminal(a)) && reachable_within(
            rules,
            start,
            (n - 1) as nat,
            rules[p].lhs,
        ))
}

/// Whether `a` occurs in a derivation from `start`.
pub open spec fn reachable(rules: Seq<Rule>, start: u32, a: u32) -> bool {
    exists|n: nat| reachable_within(rules, start, n, a)
}

proof fn lemma_productive_mono(rules: Seq<Rule>, n: nat, m: nat, a: u32)
    requires
        productive_within(rules, n, a),
        n <= m,
    ensures
        productive_within(rules, m, a),
    decreases n,
{
    let p = choose|p: int|
        #![trigger rules[p]]
        0 <= p < rules.len() && rules[p].lhs == a && forall|i: int|
            0 <= i < rules[p].rhs.len() ==> (#[trigger] rules[p].rhs[i] matches Symbol::Nonterminal(
                b,
            ) ==> productive_within(rules, (n - 1) as nat, b));
    assert forall|i: int| 0 <= i < rules[p].rhs.len() implies (
    #[trigger] rules[p].rhs[i] matches Symbol::Nonterminal(b) ==> productive_within(
        rules,
        (m - 1) as nat,
        b,
    )) by {
        if let Symbol::Nonterminal(b) = rules[p].rhs[i] {
            lemma_productive_mono(rules, (n - 1) as nat, (m - 1) as nat, b);
        }
    }
    assert(rules[p].lhs == a);
}

/// The depth that suffices for every nonterminal of a sequence.
proof fn lemma_common_depth(rules: Seq<Rule>, symbols: Seq<Symbol>) -> (n: nat)
    requires
        all_good(symbols, |a: u32| productive(rules, a)),
    ensures
        forall|i: int|
            0 <= i < symbols.len() ==> (#[trigger] symbols[i] matches Symbol::Nonterminal(b)
                ==> productive_within(rules, n, b)),
    decreases symbols.len(),
{
    if symbols.len() == 0 {
        0
    } else {
        let front = symbols.drop_last();
        assert(all_good(front, |a: u32| productive(rules, a))) by {
            assert forall|i: int| 0 <= i < front.len() implies (
            #[trigger] front[i] matches Symbol::Nonterminal(a) ==> (|a: u32| productive(rules, a))(
                a,
            )) by {
                assert(front[i] == symbols[i]);
            }
        }
        let m = lemma_common_depth(rules, front);
        let last = symbols[symbols.len() - 1];
        let k = match last {
            Symbol::Nonterminal(b) => choose|k: nat| productive_within(rules, k, b),
            Symbol::Terminal(_) => 0nat,
        };
        let n = if m < k {
            k
        } else {
            m
        };
        assert forall|i: int| 0 <= i < symbols.len() implies (
        #[trigger] symbols[i] matches Symbol::Nonterminal(b) ==> productive_within(
            rules,
            n,
            b,
        )) by {
            if let Symbol::Nonterminal(b) = symbols[i] {
                if i < front.len() {
                    assert(front[i] == symbols[i]);
                    lemma_productive_mono(rules, m, n, b);
                } else {
                    lemma_productive_mono(rules, k, n, b);
                }
            }
        }
        n
    }
}

/// A production whose nonterminals are productive makes its left-hand side so.
proof fn lemma_productive_rule(rules: Seq<Rule>, p: int)
    requires
        0 <= p < rules.len(),
        all_good(rules[p].rhs, |a: u32| productive(rules, a)),
    ensures
        productive(rules, rules[p].lhs),
{
    let n = lemma_common_depth(rules, rules[p].rhs);
    assert(productive_within(rules, n + 1, rules[p].lhs));
}

/// What derives something is productive.
proof fn lemma_derives_productive(
    rules: Seq<Rule>,
    lex: Lex,
    n: nat,
    a: u32,
    w: Seq<u8>,
    i: int,
    j: int,
)
    requires
        derivation::derives(rules, lex, n, Symbol::Nonterminal(a), w, i, j),
    ensures
        productive_within(rules, n, a),
    decreases n, 0nat,
{
    let p = choose|p: int|
        #![trigger rules[p]]
        0 <= p < rules.len() && rules[p].lhs == a && derivation::derives_seq(
            rules,
            lex,
            (n - 1) as nat,
            rules[p].rhs,
            w,
            i,
            j,
        );
    lemma_derives_seq_productive(rules, lex, (n - 1) as nat, rules[p].rhs, w, i, j);
    assert(rules[p].lhs == a);
}

/// Every nonterminal of a sequence that derives something is productive.
proof fn lemma_derives_seq_productive(
    rules: Seq<Rule>,
    lex: Lex,
    n: nat,
    symbols: Seq<Symbol>,
    w: Seq<u8>,
    i: int,
    j: int,
)
    requires
        derivation::derives_seq(rules, lex, n, symbols, w, i, j),
    ensures
        forall|x: int|
            0 <= x < symbols.len() ==> (#[trigger] symbols[x] matches Symbol::Nonterminal(b)
                ==> productive_within(rules, n, b)),
    decreases n, symbols.len(),
{
    if symbols.len() > 0 {
        let front = symbols.drop_last();
        let k = choose|k: int| #[trigger]
            derivation::at(k) && derivation::derives_seq(rules, lex, n, front, w, i, k)
                && derivation::derives(rules, lex, n, symbols.last(), w, k, j);
        lemma_derives_seq_productive(rules, lex, n, front, w, i, k);
        if let Symbol::Nonterminal(b) = symbols.last() {
            lemma_derives_productive(rules, lex, n, b, w, k, j);
        }
        assert forall|x: int| 0 <= x < symbols.len() implies (
        #[trigger] symbols[x] matches Symbol::Nonterminal(b) ==> productive_within(
            rules,
            n,
            b,
        )) by {
            if x < front.len() {
                assert(front[x] == symbols[x]);
            }
        }
    }
}

/// Whether every nonterminal of a sequence is below a bound.
pub open spec fn nonterminals_below(symbols: Seq<Symbol>, bound: nat) -> bool {
    forall|i: int|
        0 <= i < symbols.len() ==> (#[trigger] symbols[i] matches Symbol::Nonterminal(b) ==> b
            < bound)
}

/// How often a nonterminal occurs in a sequence.
pub open spec fn occurrences(symbols: Seq<Symbol>, a: u32) -> nat
    decreases symbols.len(),
{
    if symbols.len() == 0 {
        0
    } else {
        occurrences(symbols.drop_last(), a) + (if symbols.last() == Symbol::Nonterminal(a) {
            1nat
        } else {
            0nat
        })
    }
}

/// How many nonterminals of a sequence, counted with repetition, are not done.
pub open spec fn open_count(symbols: Seq<Symbol>, done: Seq<bool>) -> nat
    decreases symbols.len(),
{
    if symbols.len() == 0 {
        0
    } else {
        open_count(symbols.drop_last(), done) + (match symbols.last() {
            Symbol::Nonterminal(a) => if done[a as int] {
                0nat
            } else {
                1nat
            },
            Symbol::Terminal(_) => 0nat,
        })
    }
}

/// How often a number occurs in a list.
pub open spec fn times(list: Seq<usize>, value: usize) -> nat
    decreases list.len(),
{
    if list.len() == 0 {
        0
    } else {
        times(list.drop_last(), value) + (if list.last() == value {
            1nat
        } else {
            0nat
        })
    }
}

proof fn lemma_times_step(list: Seq<usize>, i: int, value: usize)
    requires
        0 <= i < list.len(),
    ensures
        times(list.take(i + 1), value) == times(list.take(i), value) + (if list[i] == value {
            1nat
        } else {
            0nat
        }),
        times(list.take(i), value) <= times(list, value),
        times(list.take(i + 1), value) <= times(list, value),
    decreases list.len(),
{
    assert(list.take(i + 1).drop_last() =~= list.take(i));
    lemma_times_mono(list, i, value);
    lemma_times_mono(list, i + 1, value);
}

proof fn lemma_times_absent(list: Seq<usize>, value: usize)
    requires
        forall|i: int| 0 <= i < list.len() ==> #[trigger] list[i] != value,
    ensures
        times(list, value) == 0,
    decreases list.len(),
{
    if list.len() > 0 {
        let front = list.drop_last();
        assert forall|i: int| 0 <= i < front.len() implies #[trigger] front[i] != value by {
            assert(list[i] != value);
        }
        lemma_times_absent(front, value);
        assert(list[list.len() - 1] != value);
    }
}

proof fn lemma_times_mono(list: Seq<usize>, i: int, value: usize)
    requires
        0 <= i <= list.len(),
    ensures
        times(list.take(i), value) <= times(list, value),
    decreases list.len(),
{
    if i == list.len() {
        assert(list.take(i) =~= list);
    } else {
        lemma_times_mono(list.drop_last(), i, value);
        assert(list.drop_last().take(i) =~= list.take(i));
    }
}

/// When a nonterminal is done, its occurrences are no longer open.
proof fn lemma_open_done(symbols: Seq<Symbol>, done: Seq<bool>, a: u32)
    requires
        a < done.len(),
        !done[a as int],
        nonterminals_below(symbols, done.len()),
    ensures
        open_count(symbols, done) == open_count(symbols, done.update(a as int, true)) + occurrences(
            symbols,
            a,
        ),
    decreases symbols.len(),
{
    if symbols.len() > 0 {
        let front = symbols.drop_last();
        assert(nonterminals_below(front, done.len())) by {
            assert forall|i: int| 0 <= i < front.len() implies (
            #[trigger] front[i] matches Symbol::Nonterminal(b) ==> b < done.len()) by {
                assert(front[i] == symbols[i]);
            }
        }
        lemma_open_done(front, done, a);
        assert(symbols[symbols.len() - 1] == symbols.last());
    }
}

/// Nothing is open exactly if every nonterminal is done.
proof fn lemma_open_zero(symbols: Seq<Symbol>, done: Seq<bool>)
    ensures
        open_count(symbols, done) == 0 <==> all_good(symbols, |a: u32| done[a as int]),
    decreases symbols.len(),
{
    if symbols.len() > 0 {
        let front = symbols.drop_last();
        lemma_open_zero(front, done);
        let good = |a: u32| done[a as int];
        if all_good(symbols, good) {
            assert forall|i: int| 0 <= i < front.len() implies (
            #[trigger] front[i] matches Symbol::Nonterminal(a) ==> good(a)) by {
                assert(front[i] == symbols[i]);
            }
            assert(symbols[symbols.len() - 1] == symbols.last());
        }
        if open_count(symbols, done) == 0 {
            assert forall|i: int| 0 <= i < symbols.len() implies (
            #[trigger] symbols[i] matches Symbol::Nonterminal(a) ==> good(a)) by {
                if i < front.len() {
                    assert(front[i] == symbols[i]);
                }
            }
        }
    }
}

/// Where each nonterminal occurs: the positions of the productions, once for every occurrence.
fn waiting_lists(grammar: &Grammar) -> (waiting: Vec<Vec<usize>>)
    requires
        grammar.wf(),
    ensures
        waiting@.len() == grammar.nonterminals@.len(),
        waiting_exact(grammar, waiting@, grammar.productions@.len() as int),
{
    let mut waiting: Vec<Vec<usize>> = count::empty_lists(grammar.nonterminals.len());
    let mut index: usize = 0;
    while index < grammar.productions.len()
        invariant
            index <= grammar.productions@.len(),
            grammar.wf(),
            waiting@.len() == grammar.nonterminals@.len(),
            waiting_exact(grammar, waiting@, index as int),
        decreases grammar.productions@.len() - index,
    {
        let ghost before = waiting@;
        let ghost rhs = grammar.productions@[index as int].rhs@;
        let mut position: usize = 0;
        proof {
            assert(rhs.take(0) =~= Seq::empty());
            assert forall|a: int| 0 <= a < waiting@.len() implies #[trigger] times(
                waiting@[a]@,
                index,
            ) == 0 by {
                lemma_times_absent(waiting@[a]@, index);
            }
        }
        while position < grammar.productions[index].rhs.len()
            invariant
                position <= rhs.len(),
                index < grammar.productions@.len(),
                rhs == grammar.productions@[index as int].rhs@,
                grammar.wf(),
                waiting@.len() == grammar.nonterminals@.len() == before.len(),
                waiting_exact(grammar, before, index as int),
                forall|a: int, p: usize|
                    0 <= a < waiting@.len() && p != index ==> #[trigger] times(waiting@[a]@, p)
                        == times(before[a]@, p),
                forall|a: int|
                    0 <= a < waiting@.len() ==> #[trigger] times(waiting@[a]@, index)
                        == occurrences(rhs.take(position as int), a as u32),
                forall|a: int, i: int|
                    0 <= a < waiting@.len() && 0 <= i < waiting@[a]@.len()
                        ==> #[trigger] waiting@[a]@[i] <= index,
            decreases rhs.len() - position,
        {
            proof {
                assert(rhs.take(position + 1).drop_last() =~= rhs.take(position as int));
                assert(rhs.take(position + 1).last() == rhs[position as int]);
                assert(residual::symbol_in(
                    rhs[position as int],
                    grammar.nonterminals@.len(),
                    grammar.terminals@.len(),
                ));
            }
            let ghost then = waiting@;
            if let Symbol::Nonterminal(target) = grammar.productions[index].rhs[position] {
                waiting[target as usize].push(index);
                proof {
                    assert(waiting@[target as int]@.drop_last() =~= then[target as int]@);
                }
            }
            proof {
                assert forall|a: int, p: usize|
                    0 <= a < waiting@.len() && p != index implies #[trigger] times(waiting@[a]@, p)
                    == times(before[a]@, p) by {
                    assert(times(then[a]@, p) == times(before[a]@, p));
                }
                assert forall|a: int| 0 <= a < waiting@.len() implies #[trigger] times(
                    waiting@[a]@,
                    index,
                ) == occurrences(rhs.take(position + 1), a as u32) by {
                    assert(grammar.nonterminals@[a].id == a);
                    assert(times(then[a]@, index) == occurrences(
                        rhs.take(position as int),
                        a as u32,
                    ));
                }
            }
            position += 1;
        }
        proof {
            assert(rhs.take(rhs.len() as int) =~= rhs);
            assert forall|a: int, p: int|
                0 <= a < waiting@.len() && 0 <= p < index + 1 implies #[trigger] times(
                waiting@[a]@,
                p as usize,
            ) == occurrences(grammar.productions@[p].rhs@, a as u32) by {
                if p < index {
                    assert(times(waiting@[a]@, p as usize) == times(before[a]@, p as usize));
                }
            }
        }
        index += 1;
    }
    waiting
}

/// Whether `waiting` lists each of the first `count` productions under a nonterminal as often as
/// that occurs in it, and no other production.
pub open spec fn waiting_exact(grammar: &Grammar, waiting: Seq<Vec<usize>>, count: int) -> bool {
    &&& forall|a: int, p: int|
        0 <= a < waiting.len() && 0 <= p < count ==> #[trigger] times(waiting[a]@, p as usize)
            == occurrences(grammar.productions@[p].rhs@, a as u32)
    &&& forall|a: int, i: int|
        0 <= a < waiting.len() && 0 <= i < waiting[a]@.len() ==> #[trigger] waiting[a]@[i] < count
}

/// How many nonterminals each production has.
fn initial_counts(grammar: &Grammar, done: &Vec<bool>) -> (remaining: Vec<usize>)
    requires
        grammar.wf(),
        done@.len() == grammar.nonterminals@.len(),
        forall|a: int| 0 <= a < done@.len() ==> !#[trigger] done@[a],
    ensures
        remaining@.len() == grammar.productions@.len(),
        forall|p: int|
            0 <= p < remaining@.len() ==> #[trigger] remaining@[p] == open_count(
                grammar.productions@[p].rhs@,
                done@,
            ),
{
    let mut remaining: Vec<usize> = Vec::new();
    let mut index: usize = 0;
    while index < grammar.productions.len()
        invariant
            index == remaining@.len() <= grammar.productions@.len(),
            grammar.wf(),
            done@.len() == grammar.nonterminals@.len(),
            forall|a: int| 0 <= a < done@.len() ==> !#[trigger] done@[a],
            forall|p: int|
                0 <= p < remaining@.len() ==> #[trigger] remaining@[p] == open_count(
                    grammar.productions@[p].rhs@,
                    done@,
                ),
        decreases grammar.productions@.len() - index,
    {
        let ghost rhs = grammar.productions@[index as int].rhs@;
        let mut found: usize = 0;
        let mut position: usize = 0;
        assert(rhs.take(0) =~= Seq::empty());
        while position < grammar.productions[index].rhs.len()
            invariant
                found <= position <= rhs.len(),
                index < grammar.productions@.len(),
                grammar.wf(),
                rhs == grammar.productions@[index as int].rhs@,
                done@.len() == grammar.nonterminals@.len(),
                forall|a: int| 0 <= a < done@.len() ==> !#[trigger] done@[a],
                found == open_count(rhs.take(position as int), done@),
            decreases rhs.len() - position,
        {
            proof {
                assert(rhs.take(position + 1).drop_last() =~= rhs.take(position as int));
                assert(rhs.take(position + 1).last() == rhs[position as int]);
                assert(residual::symbol_in(
                    rhs[position as int],
                    grammar.nonterminals@.len(),
                    grammar.terminals@.len(),
                ));
            }
            if let Symbol::Nonterminal(_) = grammar.productions[index].rhs[position] {
                found += 1;
            }
            position += 1;
        }
        assert(rhs.take(rhs.len() as int) =~= rhs);
        remaining.push(found);
        index += 1;
    }
    remaining
}

/// The state of the search for productive nonterminals: `done` are those whose occurrences have
/// been counted off, `found` those known to be productive, `queue` the difference.
pub open spec fn search_ok(
    grammar: &Grammar,
    done: Seq<bool>,
    found: Seq<bool>,
    queue: Seq<u32>,
) -> bool {
    let count = grammar.nonterminals@.len();
    &&& done.len() == count
    &&& found.len() == count
    &&& queue.no_duplicates()
    &&& forall|i: int| 0 <= i < queue.len() ==> #[trigger] queue[i] < count
    &&& forall|a: u32|
        a < count ==> (#[trigger] found[a as int] <==> done[a as int] || queue.contains(a))
    &&& forall|a: u32| a < count && #[trigger] queue.contains(a) ==> !done[a as int]
    &&& forall|a: u32|
        a < count && #[trigger] found[a as int] ==> productive(grammar.rules(), a)
}

/// Adds a nonterminal to those known to be productive.
fn mark_productive(
    grammar: &Grammar,
    lhs: u32,
    found: &mut Vec<bool>,
    queue: &mut VecDeque<NonterminalId>,
    Ghost(done): Ghost<Seq<bool>>,
)
    requires
        lhs < grammar.nonterminals@.len(),
        search_ok(grammar, done, old(found)@, old(queue)@),
        productive(grammar.rules(), lhs),
    ensures
        search_ok(grammar, done, final(found)@, final(queue)@),
        final(found)@ == old(found)@.update(lhs as int, true),
{
    if !found[lhs as usize] {
        let ghost before = queue@;
        found[lhs as usize] = true;
        queue.push_back(lhs);
        proof {
            assert forall|a: u32| #[trigger] queue@.contains(a) <==> before.contains(a) || a
                == lhs by {
                crate::earley::lemma_push_contains(before, lhs, a);
            }
            assert(!before.contains(lhs));
            assert forall|i: int, j: int|
                0 <= i < queue@.len() && 0 <= j < queue@.len() && i != j implies queue@[i]
                != queue@[j] by {
                if i == before.len() {
                    assert(before.contains(before[j]));
                } else if j == before.len() {
                    assert(before.contains(before[i]));
                }
            }
        }
    } else {
        assert(found@ =~= found@.update(lhs as int, true));
    }
}

/// Which nonterminals are productive.
fn productive_nonterminals(grammar: &Grammar) -> (found: Vec<bool>)
    requires
        grammar.wf(),
    ensures
        found@.len() == grammar.nonterminals@.len(),
        forall|a: u32|
            a < found@.len() ==> (#[trigger] found@[a as int] <==> productive(grammar.rules(), a)),
{
    let waiting = waiting_lists(grammar);
    let unset = count::unset_marks(grammar.nonterminals.len());
    let mut remaining = initial_counts(grammar, &unset);
    let mut found = count::unset_marks(grammar.nonterminals.len());
    let mut queue: VecDeque<NonterminalId> = VecDeque::new();
    let ghost rules = grammar.rules();
    let ghost mut done = unset@;
    let mut index: usize = 0;
    while index < grammar.productions.len()
        invariant
            index <= grammar.productions@.len() == remaining@.len(),
            grammar.wf(),
            rules == grammar.rules(),
            search_ok(grammar, done, found@, queue@),
            forall|p: int|
                0 <= p < remaining@.len() ==> #[trigger] remaining@[p] == open_count(
                    grammar.productions@[p].rhs@,
                    done,
                ),
            forall|a: int| 0 <= a < done.len() ==> !#[trigger] done[a],
            forall|p: int|
                0 <= p < index && #[trigger] remaining@[p] == 0
                    ==> found@[grammar.productions@[p].lhs as int],
        decreases grammar.productions@.len() - index,
    {
        let lhs: u32 = grammar.productions[index].lhs;
        if remaining[index] == 0 {
            proof {
                let rhs = grammar.productions@[index as int].rhs@;
                lemma_open_zero(rhs, done);
                assert(rules[index as int].rhs == rhs);
                assert(all_good(rhs, |a: u32| productive(rules, a))) by {
                    assert forall|i: int| 0 <= i < rhs.len() implies (
                    #[trigger] rhs[i] matches Symbol::Nonterminal(a) ==> (|a: u32|
                        productive(rules, a))(a)) by {
                        assert(residual::symbol_in(
                            rhs[i],
                            grammar.nonterminals@.len(),
                            grammar.terminals@.len(),
                        ));
                    }
                }
                lemma_productive_rule(rules, index as int);
            }
            mark_productive(grammar, lhs, &mut found, &mut queue, Ghost(done));
        }
        index += 1;
    }
    while queue.len() > 0
        invariant
            grammar.wf(),
            rules == grammar.rules(),
            waiting@.len() == grammar.nonterminals@.len(),
            waiting_exact(grammar, waiting@, grammar.productions@.len() as int),
            grammar.productions@.len() == remaining@.len(),
            search_ok(grammar, done, found@, queue@),
            forall|p: int|
                0 <= p < remaining@.len() ==> #[trigger] remaining@[p] == open_count(
                    grammar.productions@[p].rhs@,
                    done,
                ),
            forall|p: int|
                0 <= p < remaining@.len() && #[trigger] remaining@[p] == 0
                    ==> found@[grammar.productions@[p].lhs as int],
        decreases grammar.nonterminals@.len() - count::count_true(done),
    {
        let ghost before = queue@;
        match queue.pop_front() {
            Some(nonterminal) => {
                proof {
                    lemma_pop_front(before, nonterminal, queue@);
                    assert(before.contains(nonterminal));
                    count::lemma_count_set(done, nonterminal as int);
                    count::lemma_count_bound(done);
                    count::lemma_count_bound(done.update(nonterminal as int, true));
                }
                count_off(
                    grammar,
                    &waiting,
                    nonterminal,
                    &mut remaining,
                    &mut found,
                    &mut queue,
                    Ghost(done),
                );
                proof {
                    done = done.update(nonterminal as int, true);
                }
            },
            None => {},
        }
    }
    proof {
        assert forall|a: u32| a < found@.len() implies (#[trigger] found@[a as int] <==> productive(
            rules,
            a,
        )) by {
            if productive(rules, a) {
                let n = choose|n: nat| productive_within(rules, n, a);
                lemma_closed_productive(grammar, found@, done, remaining@, n, a);
            }
        }
    }
    found
}

/// Everything productive has been found when nothing is left to count off.
proof fn lemma_closed_productive(
    grammar: &Grammar,
    found: Seq<bool>,
    done: Seq<bool>,
    remaining: Seq<usize>,
    n: nat,
    a: u32,
)
    requires
        grammar.wf(),
        search_ok(grammar, done, found, Seq::empty()),
        remaining.len() == grammar.productions@.len(),
        forall|p: int|
            0 <= p < remaining.len() ==> #[trigger] remaining[p] == open_count(
                grammar.productions@[p].rhs@,
                done,
            ),
        forall|p: int|
            0 <= p < remaining.len() && #[trigger] remaining[p] == 0
                ==> found[grammar.productions@[p].lhs as int],
        productive_within(grammar.rules(), n, a),
    ensures
        a < found.len(),
        found[a as int],
    decreases n,
{
    let rules = grammar.rules();
    let p = choose|p: int|
        #![trigger rules[p]]
        0 <= p < rules.len() && rules[p].lhs == a && forall|i: int|
            0 <= i < rules[p].rhs.len() ==> (#[trigger] rules[p].rhs[i] matches Symbol::Nonterminal(
                b,
            ) ==> productive_within(rules, (n - 1) as nat, b));
    let rhs = grammar.productions@[p].rhs@;
    assert(rules[p].rhs == rhs);
    assert(all_good(rhs, |b: u32| done[b as int])) by {
        assert forall|i: int| 0 <= i < rhs.len() implies (
        #[trigger] rhs[i] matches Symbol::Nonterminal(b) ==> (|b: u32| done[b as int])(b)) by {
            if let Symbol::Nonterminal(b) = rhs[i] {
                assert(rules[p].rhs[i] == rhs[i]);
                lemma_closed_productive(grammar, found, done, remaining, (n - 1) as nat, b);
                assert(found[b as int]);
                assert(!Seq::<u32>::empty().contains(b));
            }
        }
    }
    lemma_open_zero(rhs, done);
    assert(remaining[p] == 0);
}

/// What is left of a list without its first element.
proof fn lemma_pop_front(before: Seq<u32>, first: u32, after: Seq<u32>)
    requires
        before.no_duplicates(),
        before.len() > 0,
        first == before[0],
        after == before.subrange(1, before.len() as int),
    ensures
        after.no_duplicates(),
        forall|a: u32| #[trigger] after.contains(a) <==> before.contains(a) && a != first,
{
    assert forall|i: int, j: int|
        0 <= i < after.len() && 0 <= j < after.len() && i != j implies after[i] != after[j] by {
        assert(before[i + 1] != before[j + 1]);
    }
    assert forall|a: u32| #[trigger] after.contains(a) <==> before.contains(a) && a != first by {
        if after.contains(a) {
            let i = choose|i: int| 0 <= i < after.len() && after[i] == a;
            assert(before[i + 1] == a);
            assert(before[0] != before[i + 1]);
        }
        if before.contains(a) && a != first {
            let i = choose|i: int| 0 <= i < before.len() && before[i] == a;
            assert(after[i - 1] == a);
        }
    }
}

/// Counts off the occurrences of a productive nonterminal.
fn count_off(
    grammar: &Grammar,
    waiting: &Vec<Vec<usize>>,
    nonterminal: u32,
    remaining: &mut Vec<usize>,
    found: &mut Vec<bool>,
    queue: &mut VecDeque<NonterminalId>,
    Ghost(done): Ghost<Seq<bool>>,
)
    requires
        grammar.wf(),
        waiting@.len() == grammar.nonterminals@.len(),
        waiting_exact(grammar, waiting@, grammar.productions@.len() as int),
        old(remaining)@.len() == grammar.productions@.len(),
        nonterminal < grammar.nonterminals@.len(),
        done.len() == grammar.nonterminals@.len(),
        !done[nonterminal as int],
        old(found)@.len() == done.len(),
        old(found)@[nonterminal as int],
        search_ok(
            grammar,
            done.update(nonterminal as int, true),
            old(found)@,
            old(queue)@,
        ),
        forall|p: int|
            0 <= p < old(remaining)@.len() ==> #[trigger] old(remaining)@[p] == open_count(
                grammar.productions@[p].rhs@,
                done,
            ),
        forall|p: int|
            0 <= p < old(remaining)@.len() && #[trigger] old(remaining)@[p] == 0
                ==> old(found)@[grammar.productions@[p].lhs as int],
    ensures
        final(remaining)@.len() == grammar.productions@.len(),
        search_ok(
            grammar,
            done.update(nonterminal as int, true),
            final(found)@,
            final(queue)@,
        ),
        forall|p: int|
            0 <= p < final(remaining)@.len() ==> #[trigger] final(remaining)@[p] == open_count(
                grammar.productions@[p].rhs@,
                done.update(nonterminal as int, true),
            ),
        forall|p: int|
            0 <= p < final(remaining)@.len() && #[trigger] final(remaining)@[p] == 0
                ==> final(found)@[grammar.productions@[p].lhs as int],
{
    let ghost rules = grammar.rules();
    let ghost now = done.update(nonterminal as int, true);
    let ghost list = waiting@[nonterminal as int]@;
    let ghost initial = remaining@;
    assert(list.take(0) =~= Seq::empty());
    let mut index: usize = 0;
    while index < waiting[nonterminal as usize].len()
        invariant
            index <= list.len(),
            grammar.wf(),
            rules == grammar.rules(),
            nonterminal < grammar.nonterminals@.len() == waiting@.len(),
            list == waiting@[nonterminal as int]@,
            waiting_exact(grammar, waiting@, grammar.productions@.len() as int),
            remaining@.len() == grammar.productions@.len() == initial.len(),
            now == done.update(nonterminal as int, true),
            done.len() == grammar.nonterminals@.len(),
            !done[nonterminal as int],
            search_ok(grammar, now, found@, queue@),
            forall|p: int|
                0 <= p < initial.len() ==> #[trigger] initial[p] == open_count(
                    grammar.productions@[p].rhs@,
                    done,
                ),
            forall|p: int|
                0 <= p < remaining@.len() ==> #[trigger] remaining@[p] == initial[p] - times(
                    list.take(index as int),
                    p as usize,
                ),
            forall|p: int|
                0 <= p < remaining@.len() && #[trigger] remaining@[p] == 0
                    ==> found@[grammar.productions@[p].lhs as int],
        decreases list.len() - index,
    {
        let production: usize = waiting[nonterminal as usize][index];
        let ghost rhs = grammar.productions@[production as int].rhs@;
        proof {
            assert(waiting@[nonterminal as int]@[index as int] < grammar.productions@.len());
            let p = production as int;
            assert(times(waiting@[nonterminal as int]@, p as usize) == occurrences(
                rhs,
                nonterminal,
            ));
            lemma_times_step(list, index as int, production);
            lemma_in_range(grammar, production as int);
            lemma_open_done(rhs, done, nonterminal);
            assert(initial[production as int] == open_count(rhs, done));
            assert(remaining@[production as int] == initial[production as int] - times(
                list.take(index as int),
                production,
            ));
        }
        let ghost then = remaining@;
        remaining[production] = remaining[production] - 1;
        proof {
            assert forall|p: int| 0 <= p < remaining@.len() implies #[trigger] remaining@[p]
                == initial[p] - times(list.take(index + 1), p as usize) by {
                lemma_times_step(list, index as int, p as usize);
                assert(then[p] == initial[p] - times(list.take(index as int), p as usize));
            }
        }
        let left: usize = remaining[production];
        if left == 0 {
            let lhs: u32 = grammar.productions[production].lhs;
            proof {
                assert(open_count(rhs, now) == 0);
                lemma_open_zero(rhs, now);
                assert(rules[production as int].rhs == rhs);
                assert(all_good(rhs, |a: u32| productive(rules, a))) by {
                    assert forall|i: int| 0 <= i < rhs.len() implies (
                    #[trigger] rhs[i] matches Symbol::Nonterminal(a) ==> (|a: u32|
                        productive(rules, a))(a)) by {
                        if let Symbol::Nonterminal(a) = rhs[i] {
                            assert((|a: u32| now[a as int])(a));
                            assert(found@[a as int]);
                        }
                    }
                }
                lemma_productive_rule(rules, production as int);
            }
            mark_productive(grammar, lhs, found, queue, Ghost(now));
        }
        index += 1;
    }
    proof {
        assert(list.take(list.len() as int) =~= list);
        assert forall|p: int| 0 <= p < remaining@.len() implies #[trigger] remaining@[p]
            == open_count(grammar.productions@[p].rhs@, now) by {
            assert(initial[p] == open_count(grammar.productions@[p].rhs@, done));
            lemma_in_range(grammar, p);
            lemma_open_done(grammar.productions@[p].rhs@, done, nonterminal);
            assert(times(waiting@[nonterminal as int]@, p as usize) == occurrences(
                grammar.productions@[p].rhs@,
                nonterminal,
            ));
        }
    }
}

/// The nonterminals of a production exist.
proof fn lemma_in_range(grammar: &Grammar, p: int)
    requires
        grammar.wf(),
        0 <= p < grammar.productions@.len(),
    ensures
        nonterminals_below(grammar.productions@[p].rhs@, grammar.nonterminals@.len()),
{
    let rhs = grammar.productions@[p].rhs@;
    assert forall|i: int| 0 <= i < rhs.len() implies (
    #[trigger] rhs[i] matches Symbol::Nonterminal(b) ==> b < grammar.nonterminals@.len()) by {
        assert(residual::symbol_in(
            rhs[i],
            grammar.nonterminals@.len(),
            grammar.terminals@.len(),
        ));
    }
}

/// The positions of the productions of each nonterminal.
pub fn positions_by_lhs(grammar: &Grammar) -> (lists: Vec<Vec<usize>>)
    requires
        grammar.wf(),
    ensures
        lists@.len() == grammar.nonterminals@.len(),
        forall|p: int|
            0 <= p < grammar.productions@.len() ==> lists@[(
            #[trigger] grammar.productions@[p]).lhs as int]@.contains(p as usize),
        forall|a: int, i: int|
            0 <= a < lists@.len() && 0 <= i < lists@[a]@.len() ==> (#[trigger] lists@[a]@[i])
                < grammar.productions@.len() && grammar.productions@[lists@[a]@[i] as int].lhs == a,
{
    let mut lists: Vec<Vec<usize>> = count::empty_lists(grammar.nonterminals.len());
    let mut index: usize = 0;
    while index < grammar.productions.len()
        invariant
            index <= grammar.productions@.len(),
            grammar.wf(),
            lists@.len() == grammar.nonterminals@.len(),
            forall|p: int|
                0 <= p < index ==> lists@[(
                #[trigger] grammar.productions@[p]).lhs as int]@.contains(p as usize),
            forall|a: int, i: int|
                0 <= a < lists@.len() && 0 <= i < lists@[a]@.len() ==> (#[trigger] lists@[a]@[i])
                    < index && grammar.productions@[lists@[a]@[i] as int].lhs == a,
        decreases grammar.productions@.len() - index,
    {
        let lhs: u32 = grammar.productions[index].lhs;
        let ghost before = lists@;
        lists[lhs as usize].push(index);
        proof {
            assert forall|p: int| 0 <= p < index + 1 implies lists@[(
            #[trigger] grammar.productions@[p]).lhs as int]@.contains(p as usize) by {
                crate::earley::lemma_push_contains(
                    before[lhs as int]@,
                    index,
                    p as usize,
                );
                if p < index {
                    assert(before[grammar.productions@[p].lhs as int]@.contains(p as usize));
                }
            }
        }
        index += 1;
    }
    lists
}

/// Whether every nonterminal of the productions of `a` is marked.
pub open spec fn expanded(grammar: &Grammar, marked: Seq<bool>, a: int) -> bool {
    forall|p: int|
        0 <= p < grammar.productions@.len() && (#[trigger] grammar.productions@[p]).lhs == a
            ==> all_good(grammar.productions@[p].rhs@, |b: u32| marked[b as int])
}

/// The state of the search for reachable nonterminals: every marked one is reachable, and on the
/// stack or expanded.
pub open spec fn reach_ok(grammar: &Grammar, marked: Seq<bool>, stack: Seq<u32>) -> bool {
    &&& marked.len() == grammar.nonterminals@.len()
    &&& marked[grammar.start as int]
    &&& forall|i: int|
        0 <= i < stack.len() ==> #[trigger] stack[i] < marked.len() && marked[stack[i] as int]
    &&& forall|a: u32|
        a < marked.len() && #[trigger] marked[a as int] ==> reachable(
            grammar.rules(),
            grammar.start,
            a,
        )
}

/// Whether every marked nonterminal but `except` is on the stack or expanded.
pub open spec fn reach_closed(
    grammar: &Grammar,
    marked: Seq<bool>,
    stack: Seq<u32>,
    except: Option<u32>,
) -> bool {
    forall|a: u32|
        a < marked.len() && #[trigger] marked[a as int] ==> stack.contains(a) || except == Some(a)
            || expanded(grammar, marked, a as int)
}

/// More marks keep what was expanded so.
proof fn lemma_expanded_more(
    grammar: &Grammar,
    marked: Seq<bool>,
    more: Seq<bool>,
    a: int,
)
    requires
        grammar.wf(),
        marked.len() == more.len() == grammar.nonterminals@.len(),
        forall|b: int| 0 <= b < marked.len() && marked[b] ==> #[trigger] more[b],
        expanded(grammar, marked, a),
    ensures
        expanded(grammar, more, a),
{
    assert forall|p: int|
        0 <= p < grammar.productions@.len() && (#[trigger] grammar.productions@[p]).lhs
            == a implies all_good(grammar.productions@[p].rhs@, |b: u32| more[b as int]) by {
        let rhs = grammar.productions@[p].rhs@;
        lemma_in_range(grammar, p);
        let then = |b: u32| marked[b as int];
        let now = |b: u32| more[b as int];
        assert(all_good(rhs, then));
        assert forall|i: int| 0 <= i < rhs.len() implies (
        #[trigger] rhs[i] matches Symbol::Nonterminal(b) ==> now(b)) by {
            if let Symbol::Nonterminal(b) = rhs[i] {
                assert(then(b));
            }
        }
    }
}

/// An occurrence in a production of a reachable nonterminal is reachable.
proof fn lemma_reachable_step(rules: Seq<Rule>, start: u32, p: int, b: u32)
    requires
        0 <= p < rules.len(),
        reachable(rules, start, rules[p].lhs),
        rules[p].rhs.contains(Symbol::Nonterminal(b)),
    ensures
        reachable(rules, start, b),
{
    let n = choose|n: nat| reachable_within(rules, start, n, rules[p].lhs);
    assert(reachable_within(rules, start, n + 1, b));
}

/// Marks the nonterminals of a production of a reachable nonterminal.
fn mark_reachable(
    grammar: &Grammar,
    production: usize,
    marked: &mut Vec<bool>,
    stack: &mut Vec<NonterminalId>,
)
    requires
        grammar.wf(),
        production < grammar.productions@.len(),
        reach_ok(grammar, old(marked)@, old(stack)@),
        reachable(
            grammar.rules(),
            grammar.start,
            grammar.productions@[production as int].lhs,
        ),
    ensures
        reach_ok(grammar, final(marked)@, final(stack)@),
        forall|b: int|
            0 <= b < old(marked)@.len() && old(marked)@[b] ==> #[trigger] final(marked)@[b],
        all_good(
            grammar.productions@[production as int].rhs@,
            (|b: u32| final(marked)@[b as int]),
        ),
        forall|except: Option<u32>|
            reach_closed(grammar, old(marked)@, old(stack)@, except) ==> #[trigger] reach_closed(
                grammar,
                final(marked)@,
                final(stack)@,
                except,
            ),
        old(stack)@.len() <= final(stack)@.len(),
        final(stack)@.len() + count::count_true(old(marked)@) == old(stack)@.len()
            + count::count_true(final(marked)@),
{
    let ghost before = marked@;
    let ghost before_stack = stack@;
    let ghost rhs = grammar.productions@[production as int].rhs@;
    let ghost rules = grammar.rules();
    proof {
        lemma_in_range(grammar, production as int);
        assert(rules[production as int].rhs == rhs);
    }
    let mut position: usize = 0;
    while position < grammar.productions[production].rhs.len()
        invariant
            position <= rhs.len(),
            grammar.wf(),
            rules == grammar.rules(),
            production < grammar.productions@.len(),
            rhs == grammar.productions@[production as int].rhs@,
            rules[production as int].rhs == rhs,
            nonterminals_below(rhs, grammar.nonterminals@.len()),
            reach_ok(grammar, marked@, stack@),
            reachable(rules, grammar.start, grammar.productions@[production as int].lhs),
            before.len() == marked@.len(),
            forall|b: int| 0 <= b < before.len() && before[b] ==> #[trigger] marked@[b],
            forall|i: int|
                0 <= i < position ==> (#[trigger] rhs[i] matches Symbol::Nonterminal(b)
                    ==> marked@[b as int]),
            forall|except: Option<u32>|
                reach_closed(grammar, before, before_stack, except) ==> #[trigger] reach_closed(
                    grammar,
                    marked@,
                    stack@,
                    except,
                ),
            before_stack.len() <= stack@.len(),
            stack@.len() + count::count_true(before) == before_stack.len() + count::count_true(
                marked@,
            ),
        decreases rhs.len() - position,
    {
        if let Symbol::Nonterminal(target) = grammar.productions[production].rhs[position] {
            assert(rhs[position as int] == Symbol::Nonterminal(target));
            if !marked[target as usize] {
                let ghost then = marked@;
                let ghost then_stack = stack@;
                proof {
                    assert(rhs.contains(Symbol::Nonterminal(target)));
                    lemma_reachable_step(rules, grammar.start, production as int, target);
                    count::lemma_count_set(then, target as int);
                }
                marked[target as usize] = true;
                stack.push(target);
                proof {
                    assert forall|except: Option<u32>|
                        reach_closed(
                            grammar,
                            then,
                            then_stack,
                            except,
                        ) implies #[trigger] reach_closed(grammar, marked@, stack@, except) by {
                        assert forall|a: u32|
                            a < marked@.len() && #[trigger] marked@[a as int] implies
                            stack@.contains(a) || except == Some(a) || expanded(
                            grammar,
                            marked@,
                            a as int,
                        ) by {
                            crate::earley::lemma_push_contains(then_stack, target, a);
                            if a != target {
                                assert(then[a as int]);
                                if expanded(grammar, then, a as int) {
                                    lemma_expanded_more(grammar, then, marked@, a as int);
                                }
                            }
                        }
                    }
                }
            }
        }
        position += 1;
    }
    assert forall|i: int| 0 <= i < rhs.len() implies (
    #[trigger] rhs[i] matches Symbol::Nonterminal(b) ==> (|b: u32| marked@[b as int])(b)) by {}
}

/// Which nonterminals occur in a derivation from the start.
fn reachable_nonterminals(grammar: &Grammar) -> (marked: Vec<bool>)
    requires
        grammar.wf(),
    ensures
        marked@.len() == grammar.nonterminals@.len(),
        forall|a: u32|
            a < marked@.len() ==> (#[trigger] marked@[a as int] <==> reachable(
                grammar.rules(),
                grammar.start,
                a,
            )),
{
    let lists = positions_by_lhs(grammar);
    let mut marked = count::unset_marks(grammar.nonterminals.len());
    let mut stack: Vec<NonterminalId> = Vec::new();
    let ghost rules = grammar.rules();
    stack.push(grammar.start);
    marked[grammar.start as usize] = true;
    proof {
        assert(reachable_within(rules, grammar.start, 0, grammar.start));
        assert(stack@.contains(stack@[0]));
    }
    while stack.len() > 0
        invariant
            grammar.wf(),
            rules == grammar.rules(),
            lists@.len() == grammar.nonterminals@.len(),
            forall|p: int|
                0 <= p < grammar.productions@.len() ==> lists@[(
                #[trigger] grammar.productions@[p]).lhs as int]@.contains(p as usize),
            forall|a: int, i: int|
                0 <= a < lists@.len() && 0 <= i < lists@[a]@.len() ==> (#[trigger] lists@[a]@[i])
                    < grammar.productions@.len() && grammar.productions@[lists@[a]@[i] as int].lhs
                    == a,
            reach_ok(grammar, marked@, stack@),
            reach_closed(grammar, marked@, stack@, None),
        decreases
            grammar.nonterminals@.len() - count::count_true(marked@),
            stack@.len(),
    {
        let ghost before = stack@;
        let ghost marked_before = marked@;
        match stack.pop() {
            Some(nonterminal) => {
                let ghost popped = stack@;
                proof {
                    assert(before[before.len() - 1] == nonterminal);
                    assert(reach_closed(grammar, marked@, stack@, Some(nonterminal))) by {
                        assert forall|a: u32|
                            a < marked@.len() && #[trigger] marked@[a as int] implies
                            stack@.contains(a) || Some(nonterminal) == Some(a) || expanded(
                            grammar,
                            marked@,
                            a as int,
                        ) by {
                            assert(before =~= stack@.push(nonterminal));
                            crate::earley::lemma_push_contains(stack@, nonterminal, a);
                        }
                    }
                }
                let ghost list = lists@[nonterminal as int]@;
                let mut index: usize = 0;
                while index < lists[nonterminal as usize].len()
                    invariant
                        index <= list.len(),
                        grammar.wf(),
                        rules == grammar.rules(),
                        nonterminal < lists@.len() == grammar.nonterminals@.len(),
                        list == lists@[nonterminal as int]@,
                        forall|a: int, i: int|
                            0 <= a < lists@.len() && 0 <= i < lists@[a]@.len() ==> (
                            #[trigger] lists@[a]@[i]) < grammar.productions@.len()
                                && grammar.productions@[lists@[a]@[i] as int].lhs == a,
                        reachable(rules, grammar.start, nonterminal),
                        reach_ok(grammar, marked@, stack@),
                        reach_closed(grammar, marked@, stack@, Some(nonterminal)),
                        marked_before.len() == marked@.len(),
                        forall|b: int|
                            0 <= b < marked_before.len() && marked_before[b]
                                ==> #[trigger] marked@[b],
                        forall|i: int|
                            0 <= i < index ==> all_good(
                                grammar.productions@[#[trigger] list[i] as int].rhs@,
                                |b: u32| marked@[b as int],
                            ),
                        stack@.len() + count::count_true(marked_before) == popped.len()
                            + count::count_true(marked@),
                        popped.len() <= stack@.len(),
                    decreases list.len() - index,
                {
                    let production: usize = lists[nonterminal as usize][index];
                    assert(lists@[nonterminal as int]@[index as int] < grammar.productions@.len());
                    let ghost then = marked@;
                    let ghost then_stack = stack@;
                    mark_reachable(grammar, production, &mut marked, &mut stack);
                    proof {
                        assert forall|i: int| 0 <= i < index + 1 implies all_good(
                            grammar.productions@[#[trigger] list[i] as int].rhs@,
                            |b: u32| marked@[b as int],
                        ) by {
                            if i < index {
                                let p = list[i] as int;
                                let rhs = grammar.productions@[p].rhs@;
                                assert(lists@[nonterminal as int]@[i] < grammar.productions@.len());
                                lemma_in_range(grammar, p);
                                assert(all_good(rhs, |b: u32| then[b as int]));
                                assert forall|x: int| 0 <= x < rhs.len() implies (
                                #[trigger] rhs[x] matches Symbol::Nonterminal(b) ==> (|b: u32|
                                    marked@[b as int])(b)) by {
                                    if let Symbol::Nonterminal(b) = rhs[x] {
                                        assert((|b: u32| then[b as int])(b));
                                    }
                                }
                            }
                        }
                    }
                    index += 1;
                }
                proof {
                    assert(expanded(grammar, marked@, nonterminal as int)) by {
                        assert forall|p: int|
                            0 <= p < grammar.productions@.len() && (
                            #[trigger] grammar.productions@[p]).lhs == nonterminal implies all_good(
                            grammar.productions@[p].rhs@,
                            |b: u32| marked@[b as int],
                        ) by {
                            assert(list.contains(p as usize));
                            let i = choose|i: int| 0 <= i < list.len() && list[i] == p as usize;
                            assert(all_good(
                                grammar.productions@[list[i] as int].rhs@,
                                |b: u32| marked@[b as int],
                            ));
                        }
                    }
                    assert(reach_closed(grammar, marked@, stack@, None));
                    count::lemma_count_bound(marked@);
                }
            },
            None => {},
        }
    }
    proof {
        assert forall|a: u32| a < marked@.len() implies (#[trigger] marked@[a as int] <==> reachable(
            rules,
            grammar.start,
            a,
        )) by {
            if reachable(rules, grammar.start, a) {
                let n = choose|n: nat| reachable_within(rules, grammar.start, n, a);
                lemma_closed_reachable(grammar, marked@, n, a);
            }
        }
    }
    marked
}

/// Everything reachable is marked when every marked nonterminal is expanded.
proof fn lemma_closed_reachable(grammar: &Grammar, marked: Seq<bool>, n: nat, a: u32)
    requires
        grammar.wf(),
        reach_ok(grammar, marked, Seq::empty()),
        reach_closed(grammar, marked, Seq::empty(), None),
        reachable_within(grammar.rules(), grammar.start, n, a),
    ensures
        a < marked.len(),
        marked[a as int],
    decreases n,
{
    let rules = grammar.rules();
    if a != grammar.start {
        let p = choose|p: int|
            #![trigger rules[p]]
            0 <= p < rules.len() && rules[p].rhs.contains(Symbol::Nonterminal(a))
                && reachable_within(rules, grammar.start, (n - 1) as nat, rules[p].lhs);
        lemma_closed_reachable(grammar, marked, (n - 1) as nat, rules[p].lhs);
        let lhs = grammar.productions@[p].lhs;
        assert(rules[p].lhs == lhs);
        assert(marked[lhs as int]);
        assert(!Seq::<u32>::empty().contains(lhs));
        assert(expanded(grammar, marked, lhs as int));
        let rhs = grammar.productions@[p].rhs@;
        let i = choose|i: int| 0 <= i < rhs.len() && rhs[i] == Symbol::Nonterminal(a);
        lemma_in_range(grammar, p);
        assert(rhs[i] == Symbol::Nonterminal(a));
        assert(all_good(rhs, |b: u32| marked[b as int]));
        assert((|b: u32| marked[b as int])(a));
    }
}

/// The new number of an old one.
pub open spec fn renumbered(numbers: Seq<Option<u32>>, id: u32) -> u32 {
    match numbers[id as int] {
        Some(new) => new,
        None => 0,
    }
}

/// A symbol under its new number.
pub open spec fn rename(
    nonterminals: Seq<Option<u32>>,
    terminals: Seq<Option<u32>>,
    symbol: Symbol,
) -> Symbol {
    match symbol {
        Symbol::Nonterminal(a) => Symbol::Nonterminal(renumbered(nonterminals, a)),
        Symbol::Terminal(t) => Symbol::Terminal(renumbered(terminals, t)),
    }
}

/// A sequence of symbols under their new numbers.
pub open spec fn rename_all(
    nonterminals: Seq<Option<u32>>,
    terminals: Seq<Option<u32>>,
    symbols: Seq<Symbol>,
) -> Seq<Symbol> {
    symbols.map_values(|symbol: Symbol| rename(nonterminals, terminals, symbol))
}

/// Whether a symbol has a new number.
pub open spec fn numbered(
    nonterminals: Seq<Option<u32>>,
    terminals: Seq<Option<u32>>,
    symbol: Symbol,
) -> bool {
    match symbol {
        Symbol::Nonterminal(a) => a < nonterminals.len() && nonterminals[a as int] is Some,
        Symbol::Terminal(t) => t < terminals.len() && terminals[t as int] is Some,
    }
}

/// Whether every symbol of a sequence has a new number.
pub open spec fn all_numbered(
    nonterminals: Seq<Option<u32>>,
    terminals: Seq<Option<u32>>,
    symbols: Seq<Symbol>,
) -> bool {
    forall|i: int|
        0 <= i < symbols.len() ==> numbered(nonterminals, terminals, #[trigger] symbols[i])
}

/// Whether `new` are the productions of `old` whose nonterminals have new numbers, under those.
pub open spec fn corresponds(
    old_rules: Seq<Rule>,
    new_rules: Seq<Rule>,
    nonterminals: Seq<Option<u32>>,
    terminals: Seq<Option<u32>>,
    origin: Seq<int>,
) -> bool {
    &&& origin.len() == new_rules.len()
    &&& forall|q: int|
        0 <= q < new_rules.len() ==> {
            let p = #[trigger] origin[q];
            &&& 0 <= p < old_rules.len()
            &&& numbered(nonterminals, terminals, Symbol::Nonterminal(old_rules[p].lhs))
            &&& all_numbered(nonterminals, terminals, old_rules[p].rhs)
            &&& new_rules[q].lhs == renumbered(nonterminals, old_rules[p].lhs)
            &&& new_rules[q].rhs == rename_all(nonterminals, terminals, old_rules[p].rhs)
        }
    &&& forall|p: int|
        0 <= p < old_rules.len() && numbered(
            nonterminals,
            terminals,
            Symbol::Nonterminal((#[trigger] old_rules[p]).lhs),
        ) && all_good(
            old_rules[p].rhs,
            |a: u32| a < nonterminals.len() && nonterminals[a as int] is Some,
        ) ==> origin.contains(p)
    &&& forall|a: u32, b: u32|
        a < nonterminals.len() && b < nonterminals.len() && #[trigger] nonterminals[a as int]
            is Some && nonterminals[a as int] == #[trigger] nonterminals[b as int] ==> a == b
    &&& forall|a: u32|
        a < nonterminals.len() && #[trigger] nonterminals[a as int] is Some ==> productive(
            old_rules,
            a,
        )
    &&& forall|p: int, b: u32|
        0 <= p < old_rules.len() && numbered(
            nonterminals,
            terminals,
            Symbol::Nonterminal((#[trigger] old_rules[p]).lhs),
        ) && old_rules[p].rhs.contains(Symbol::Nonterminal(b)) && #[trigger] productive(
            old_rules,
            b,
        ) ==> b < nonterminals.len() && nonterminals[b as int] is Some
}

/// Whether terminals keep their languages under their new numbers.
pub open spec fn same_lex(old_lex: Lex, new_lex: Lex, terminals: Seq<Option<u32>>) -> bool {
    forall|t: u32, w: Seq<u8>|
        t < terminals.len() && terminals[t as int] is Some ==> #[trigger] old_lex(t, w) == new_lex(
            renumbered(terminals, t),
            w,
        )
}

proof fn lemma_rename_derives(
    old_rules: Seq<Rule>,
    new_rules: Seq<Rule>,
    old_lex: Lex,
    new_lex: Lex,
    nonterminals: Seq<Option<u32>>,
    terminals: Seq<Option<u32>>,
    origin: Seq<int>,
    n: nat,
    symbol: Symbol,
    w: Seq<u8>,
    i: int,
    j: int,
)
    requires
        corresponds(old_rules, new_rules, nonterminals, terminals, origin),
        same_lex(old_lex, new_lex, terminals),
        numbered(nonterminals, terminals, symbol),
    ensures
        derivation::derives(old_rules, old_lex, n, symbol, w, i, j) == derivation::derives(
            new_rules,
            new_lex,
            n,
            rename(nonterminals, terminals, symbol),
            w,
            i,
            j,
        ),
    decreases n, 0nat,
{
    if let Symbol::Nonterminal(a) = symbol {
        let new_a = renumbered(nonterminals, a);
        let n1 = (n - 1) as nat;
        if derivation::derives(old_rules, old_lex, n, symbol, w, i, j) {
            let p = choose|p: int|
                #![trigger old_rules[p]]
                0 <= p < old_rules.len() && old_rules[p].lhs == a && derivation::derives_seq(
                    old_rules,
                    old_lex,
                    n1,
                    old_rules[p].rhs,
                    w,
                    i,
                    j,
                );
            let rhs = old_rules[p].rhs;
            lemma_derives_seq_productive(old_rules, old_lex, n1, rhs, w, i, j);
            assert(all_good(
                rhs,
                |b: u32| b < nonterminals.len() && nonterminals[b as int] is Some,
            )) by {
                assert forall|x: int| 0 <= x < rhs.len() implies (
                #[trigger] rhs[x] matches Symbol::Nonterminal(b) ==> (|b: u32|
                    b < nonterminals.len() && nonterminals[b as int] is Some)(b)) by {
                    if let Symbol::Nonterminal(b) = rhs[x] {
                        assert(rhs.contains(Symbol::Nonterminal(b)));
                        assert(productive_within(old_rules, n1, b));
                        assert(productive(old_rules, b));
                    }
                }
            }
            assert(origin.contains(p));
            let q = choose|q: int| 0 <= q < origin.len() && origin[q] == p;
            lemma_rename_derives_seq(
                old_rules,
                new_rules,
                old_lex,
                new_lex,
                nonterminals,
                terminals,
                origin,
                n1,
                rhs,
                w,
                i,
                j,
            );
            assert(new_rules[q].lhs == new_a);
        }
        if derivation::derives(new_rules, new_lex, n, Symbol::Nonterminal(new_a), w, i, j) {
            let q = choose|q: int|
                #![trigger new_rules[q]]
                0 <= q < new_rules.len() && new_rules[q].lhs == new_a && derivation::derives_seq(
                    new_rules,
                    new_lex,
                    n1,
                    new_rules[q].rhs,
                    w,
                    i,
                    j,
                );
            let p = origin[q];
            let b = old_rules[p].lhs;
            assert(nonterminals[a as int] == nonterminals[b as int]);
            assert(a == b);
            lemma_rename_derives_seq(
                old_rules,
                new_rules,
                old_lex,
                new_lex,
                nonterminals,
                terminals,
                origin,
                n1,
                old_rules[p].rhs,
                w,
                i,
                j,
            );
            assert(old_rules[p].lhs == a);
        }
    }
}

proof fn lemma_rename_derives_seq(
    old_rules: Seq<Rule>,
    new_rules: Seq<Rule>,
    old_lex: Lex,
    new_lex: Lex,
    nonterminals: Seq<Option<u32>>,
    terminals: Seq<Option<u32>>,
    origin: Seq<int>,
    n: nat,
    symbols: Seq<Symbol>,
    w: Seq<u8>,
    i: int,
    j: int,
)
    requires
        corresponds(old_rules, new_rules, nonterminals, terminals, origin),
        same_lex(old_lex, new_lex, terminals),
        all_numbered(nonterminals, terminals, symbols),
    ensures
        derivation::derives_seq(old_rules, old_lex, n, symbols, w, i, j)
            == derivation::derives_seq(
            new_rules,
            new_lex,
            n,
            rename_all(nonterminals, terminals, symbols),
            w,
            i,
            j,
        ),
    decreases n, symbols.len(),
{
    if symbols.len() > 0 {
        let front = symbols.drop_last();
        let last = symbols.last();
        let renamed = rename_all(nonterminals, terminals, symbols);
        assert(renamed.drop_last() =~= rename_all(nonterminals, terminals, front));
        assert(renamed.last() == rename(nonterminals, terminals, last));
        assert(all_numbered(nonterminals, terminals, front)) by {
            assert forall|x: int| 0 <= x < front.len() implies numbered(
                nonterminals,
                terminals,
                #[trigger] front[x],
            ) by {
                assert(front[x] == symbols[x]);
            }
        }
        assert(numbered(nonterminals, terminals, symbols[symbols.len() - 1]));
        assert forall|k: int| #[trigger] derivation::at(k) implies derivation::derives_seq(
            old_rules,
            old_lex,
            n,
            front,
            w,
            i,
            k,
        ) == derivation::derives_seq(new_rules, new_lex, n, renamed.drop_last(), w, i, k)
            && derivation::derives(old_rules, old_lex, n, last, w, k, j) == derivation::derives(
            new_rules,
            new_lex,
            n,
            renamed.last(),
            w,
            k,
            j,
        ) by {
            lemma_rename_derives_seq(
                old_rules,
                new_rules,
                old_lex,
                new_lex,
                nonterminals,
                terminals,
                origin,
                n,
                front,
                w,
                i,
                k,
            );
            lemma_rename_derives(
                old_rules,
                new_rules,
                old_lex,
                new_lex,
                nonterminals,
                terminals,
                origin,
                n,
                last,
                w,
                k,
                j,
            );
        }
        if derivation::derives_seq(old_rules, old_lex, n, symbols, w, i, j) {
            let k = choose|k: int| #[trigger]
                derivation::at(k) && derivation::derives_seq(old_rules, old_lex, n, front, w, i, k)
                    && derivation::derives(old_rules, old_lex, n, last, w, k, j);
            assert(derivation::at(k));
        }
        if derivation::derives_seq(new_rules, new_lex, n, renamed, w, i, j) {
            let k = choose|k: int| #[trigger]
                derivation::at(k) && derivation::derives_seq(
                    new_rules,
                    new_lex,
                    n,
                    renamed.drop_last(),
                    w,
                    i,
                    k,
                ) && derivation::derives(new_rules, new_lex, n, renamed.last(), w, k, j);
            assert(derivation::at(k));
        }
    } else {
        assert(rename_all(nonterminals, terminals, symbols).len() == 0);
    }
}

/// New numbers, and back: the marked positions are numbered in order, `origin` lists them.
pub open spec fn numbering(
    keep: Seq<bool>,
    numbers: Seq<Option<u32>>,
    origin: Seq<usize>,
) -> bool {
    &&& numbers.len() == keep.len()
    &&& forall|i: int| 0 <= i < keep.len() ==> (#[trigger] numbers[i] is Some <==> keep[i])
    &&& forall|i: int|
        0 <= i < keep.len() ==> (#[trigger] numbers[i] matches Some(v) ==> v < origin.len()
            && origin[v as int] == i)
    &&& forall|v: int|
        0 <= v < origin.len() ==> (#[trigger] origin[v]) < keep.len() && numbers[origin[v] as int]
            == Some(v as u32) && v <= u32::MAX
    &&& forall|u: int, v: int| 0 <= u < v < origin.len() ==> origin[u] < origin[v]
}

/// Numbers the marked positions in order.
fn number(keep: &Vec<bool>) -> (result: (Vec<Option<u32>>, Vec<usize>))
    requires
        keep@.len() <= u32::MAX + 1,
    ensures
        numbering(keep@, result.0@, result.1@),
{
    let mut numbers: Vec<Option<u32>> = Vec::new();
    let mut origin: Vec<usize> = Vec::new();
    let mut index: usize = 0;
    while index < keep.len()
        invariant
            index == numbers@.len() <= keep@.len() <= u32::MAX + 1,
            origin@.len() <= index,
            numbering(keep@.take(index as int), numbers@, origin@),
        decreases keep@.len() - index,
    {
        let ghost then = numbers@;
        let ghost before = origin@;
        proof {
            assert forall|i: int| 0 <= i < index implies keep@.take(index + 1)[i] == keep@.take(
                index as int,
            )[i] by {}
            assert(numbering(keep@.take(index as int), then, before));
        }
        if keep[index] {
            numbers.push(Some(origin.len() as u32));
            origin.push(index);
        } else {
            numbers.push(None);
        }
        proof {
            let now = keep@.take(index + 1);
            assert forall|i: int| 0 <= i < now.len() implies (#[trigger] numbers@[i] is Some
                <==> now[i]) by {
                if i < index {
                    assert(numbers@[i] == then[i]);
                    assert(then[i] is Some <==> keep@.take(index as int)[i]);
                }
            }
            assert forall|i: int| 0 <= i < now.len() implies (
            #[trigger] numbers@[i] matches Some(v) ==> v < origin@.len() && origin@[v as int]
                == i) by {
                if i < index {
                    assert(numbers@[i] == then[i]);
                    if let Some(v) = then[i] {
                        assert(origin@[v as int] == before[v as int]);
                    }
                }
            }
            assert forall|v: int| 0 <= v < origin@.len() implies (#[trigger] origin@[v])
                < now.len() && numbers@[origin@[v] as int] == Some(v as u32) && v <= u32::MAX by {
                if v < before.len() {
                    assert(origin@[v] == before[v]);
                    assert(before[v] < index);
                    assert(numbers@[before[v] as int] == then[before[v] as int]);
                }
            }
            assert forall|u: int, v: int| 0 <= u < v < origin@.len() implies origin@[u]
                < origin@[v] by {
                if v == before.len() {
                    assert(before[u] < index);
                }
            }
        }
        index += 1;
    }
    assert(keep@.take(index as int) =~= keep@);
    (numbers, origin)
}

/// The positions of the productions all of whose nonterminals are kept, in order, and the
/// terminals that those use.
fn retain_productions(grammar: &Grammar, keep: &Vec<bool>) -> (result: (Vec<usize>, Vec<bool>))
    requires
        grammar.wf(),
        keep@.len() == grammar.nonterminals@.len(),
    ensures
        retained_are(grammar, keep@, result.0@, result.1@, grammar.productions@.len() as int),
{
    let mut retained: Vec<usize> = Vec::new();
    let mut used = count::unset_marks(grammar.terminals.len());
    let mut index: usize = 0;
    while index < grammar.productions.len()
        invariant
            index <= grammar.productions@.len(),
            grammar.wf(),
            keep@.len() == grammar.nonterminals@.len(),
            retained_are(grammar, keep@, retained@, used@, index as int),
        decreases grammar.productions@.len() - index,
    {
        let ghost before = retained@;
        let ghost before_used = used@;
        if keeps_production(grammar, keep, index) {
            use_terminals(grammar, index, &mut used);
            retained.push(index);
            proof {
                assert forall|p: usize| #[trigger] retained@.contains(p) <==> before.contains(p)
                    || p == index by {
                    crate::earley::lemma_push_contains(before, index, p);
                }
                assert forall|x: int| 0 <= x < retained@.len() implies (
                #[trigger] retained@[x] as int) < index + 1 && retainable(
                    grammar,
                    keep@,
                    retained@[x] as int,
                ) && terminals_used(used@, grammar.productions@[retained@[x] as int].rhs@) by {
                    if x < before.len() {
                        assert(retained@[x] == before[x]);
                        let rhs = grammar.productions@[before[x] as int].rhs@;
                        assert(terminals_used(before_used, rhs));
                        assert forall|i: int| 0 <= i < rhs.len() implies (
                        #[trigger] rhs[i] matches Symbol::Terminal(t) ==> t < used@.len()
                            && used@[t as int]) by {}
                    }
                }
                assert forall|t: u32|
                    t < used@.len() && #[trigger] used@[t as int] implies exists|x: int|
                    0 <= x < retained@.len()
                        && grammar.productions@[#[trigger] retained@[x] as int].rhs@.contains(
                        Symbol::Terminal(t),
                    ) by {
                    if before_used[t as int] {
                        let x = choose|x: int|
                            0 <= x < before.len()
                                && grammar.productions@[#[trigger] before[x] as int].rhs@.contains(
                                Symbol::Terminal(t),
                            );
                        assert(retained@[x] == before[x]);
                    } else {
                        assert(retained@[before.len() as int] == index);
                    }
                }
                assert forall|x: int, y: int| 0 <= x < y < retained@.len() implies retained@[x]
                    < retained@[y] by {
                    assert(retained@[x] == before[x]);
                    assert((before[x] as int) < index);
                    if y < before.len() {
                        assert(retained@[y] == before[y]);
                    }
                }
            }
        }
        index += 1;
    }
    (retained, used)
}

/// Whether every nonterminal of a production is kept.
pub open spec fn retainable(grammar: &Grammar, keep: Seq<bool>, p: int) -> bool {
    keep[grammar.productions@[p].lhs as int] && all_good(
        grammar.productions@[p].rhs@,
        |a: u32| keep[a as int],
    )
}

/// Whether every terminal of a sequence is marked.
pub open spec fn terminals_used(used: Seq<bool>, symbols: Seq<Symbol>) -> bool {
    forall|i: int|
        0 <= i < symbols.len() ==> (#[trigger] symbols[i] matches Symbol::Terminal(t) ==> t
            < used.len() && used[t as int])
}

/// Whether `retained` lists the first `count` productions that can be kept, and `used` marks their
/// terminals.
pub open spec fn retained_are(
    grammar: &Grammar,
    keep: Seq<bool>,
    retained: Seq<usize>,
    used: Seq<bool>,
    count: int,
) -> bool {
    &&& used.len() == grammar.terminals@.len()
    &&& retained.len() <= count
    &&& forall|x: int, y: int| 0 <= x < y < retained.len() ==> retained[x] < retained[y]
    &&& forall|t: u32|
        t < used.len() && #[trigger] used[t as int] ==> exists|x: int|
            0 <= x < retained.len() && grammar.productions@[#[trigger] retained[x] as int].rhs@.contains(
                Symbol::Terminal(t),
            )
    &&& forall|p: int|
        0 <= p < count && #[trigger] retainable(grammar, keep, p) ==> retained.contains(p as usize)
    &&& forall|x: int|
        0 <= x < retained.len() ==> (#[trigger] retained[x] as int) < count && retainable(
            grammar,
            keep,
            retained[x] as int,
        ) && terminals_used(used, grammar.productions@[retained[x] as int].rhs@)
}

/// Whether every nonterminal of the production at `index` is kept.
fn keeps_production(grammar: &Grammar, keep: &Vec<bool>, index: usize) -> (kept: bool)
    requires
        grammar.wf(),
        keep@.len() == grammar.nonterminals@.len(),
        index < grammar.productions@.len(),
    ensures
        kept == retainable(grammar, keep@, index as int),
{
    let ghost rhs = grammar.productions@[index as int].rhs@;
    proof {
        lemma_in_range(grammar, index as int);
    }
    if !keep[grammar.productions[index].lhs as usize] {
        return false;
    }
    let mut position: usize = 0;
    while position < grammar.productions[index].rhs.len()
        invariant
            position <= rhs.len(),
            index < grammar.productions@.len(),
            rhs == grammar.productions@[index as int].rhs@,
            keep@.len() == grammar.nonterminals@.len(),
            nonterminals_below(rhs, keep@.len()),
            forall|i: int|
                0 <= i < position ==> (#[trigger] rhs[i] matches Symbol::Nonterminal(a)
                    ==> keep@[a as int]),
        decreases rhs.len() - position,
    {
        if let Symbol::Nonterminal(target) = grammar.productions[index].rhs[position] {
            assert(rhs[position as int] == Symbol::Nonterminal(target));
            if !keep[target as usize] {
                assert(!((|a: u32| keep@[a as int])(target)));
                return false;
            }
        }
        position += 1;
    }
    assert forall|i: int| 0 <= i < rhs.len() implies (
    #[trigger] rhs[i] matches Symbol::Nonterminal(a) ==> (|a: u32| keep@[a as int])(a)) by {}
    true
}

/// Marks the terminals of the production at `index`.
fn use_terminals(grammar: &Grammar, index: usize, used: &mut Vec<bool>)
    requires
        grammar.wf(),
        index < grammar.productions@.len(),
        old(used)@.len() == grammar.terminals@.len(),
    ensures
        final(used)@.len() == old(used)@.len(),
        terminals_used(final(used)@, grammar.productions@[index as int].rhs@),
        forall|t: int| 0 <= t < old(used)@.len() && old(used)@[t] ==> #[trigger] final(used)@[t],
        forall|t: u32|
            t < old(used)@.len() && #[trigger] final(used)@[t as int] ==> old(used)@[t as int]
                || grammar.productions@[index as int].rhs@.contains(Symbol::Terminal(t)),
{
    let ghost rhs = grammar.productions@[index as int].rhs@;
    let ghost before = used@;
    let mut position: usize = 0;
    while position < grammar.productions[index].rhs.len()
        invariant
            position <= rhs.len(),
            index < grammar.productions@.len(),
            grammar.wf(),
            rhs == grammar.productions@[index as int].rhs@,
            used@.len() == grammar.terminals@.len() == before.len(),
            forall|t: int| 0 <= t < before.len() && before[t] ==> #[trigger] used@[t],
            forall|t: u32|
                t < before.len() && #[trigger] used@[t as int] ==> before[t as int]
                    || rhs.contains(Symbol::Terminal(t)),
            forall|i: int|
                0 <= i < position ==> (#[trigger] rhs[i] matches Symbol::Terminal(t) ==> t
                    < used@.len() && used@[t as int]),
        decreases rhs.len() - position,
    {
        assert(residual::symbol_in(
            rhs[position as int],
            grammar.nonterminals@.len(),
            grammar.terminals@.len(),
        ));
        if let Symbol::Terminal(t) = grammar.productions[index].rhs[position] {
            assert(rhs[position as int] == Symbol::Terminal(t));
            used[t as usize] = true;
        }
        position += 1;
    }
}

/// Whether the nonterminals of `new` are the marked ones of `old`, in order, under new numbers.
pub open spec fn nonterminals_selected(
    old_list: Seq<Nonterminal>,
    new_list: Seq<Nonterminal>,
    origin: Seq<usize>,
) -> bool {
    &&& new_list.len() == origin.len()
    &&& forall|v: int|
        0 <= v < new_list.len() ==> (#[trigger] new_list[v]).id == v && new_list[v].name
            == old_list[origin[v] as int].name && new_list[v].provenance
            == old_list[origin[v] as int].provenance
}

/// Whether the terminals of `new` are the marked ones of `old`, in order, under new numbers.
pub open spec fn terminals_selected(
    old_list: Seq<RegularTerminal>,
    new_list: Seq<RegularTerminal>,
    origin: Seq<usize>,
) -> bool {
    &&& new_list.len() == origin.len()
    &&& forall|v: int|
        0 <= v < new_list.len() ==> (#[trigger] new_list[v]).id == v && new_list[v].kind@
            == old_list[origin[v] as int].kind@ && new_list[v].provenance
            == old_list[origin[v] as int].provenance
}

fn select_nonterminals(list: &Vec<Nonterminal>, origin: &Vec<usize>) -> (selected: Vec<Nonterminal>)
    requires
        forall|v: int| 0 <= v < origin@.len() ==> (#[trigger] origin@[v]) < list@.len(),
        origin@.len() <= u32::MAX + 1,
    ensures
        nonterminals_selected(list@, selected@, origin@),
{
    let mut selected: Vec<Nonterminal> = Vec::new();
    let mut index: usize = 0;
    while index < origin.len()
        invariant
            index == selected@.len() <= origin@.len() <= u32::MAX + 1,
            forall|v: int| 0 <= v < origin@.len() ==> (#[trigger] origin@[v]) < list@.len(),
            nonterminals_selected(list@, selected@, origin@.take(index as int)),
        decreases origin@.len() - index,
    {
        let ghost before = selected@;
        let position: usize = origin[index];
        let nonterminal = &list[position];
        selected.push(
            Nonterminal {
                id: index as u32,
                name: nonterminal.name.clone(),
                provenance: nonterminal.provenance.clone(),
            },
        );
        assert forall|v: int| 0 <= v < selected@.len() implies (#[trigger] selected@[v]).id == v
            && selected@[v].name == list@[origin@.take(index + 1)[v] as int].name
            && selected@[v].provenance == list@[origin@.take(index + 1)[v] as int].provenance by {
            if v < index {
                assert(selected@[v] == before[v]);
                assert(origin@.take(index as int)[v] == origin@.take(index + 1)[v]);
            }
        }
        index += 1;
    }
    assert(origin@.take(index as int) =~= origin@);
    selected
}

fn select_terminals(list: &Vec<RegularTerminal>, origin: &Vec<usize>) -> (selected: Vec<
    RegularTerminal,
>)
    requires
        forall|v: int| 0 <= v < origin@.len() ==> (#[trigger] origin@[v]) < list@.len(),
        origin@.len() <= u32::MAX + 1,
    ensures
        terminals_selected(list@, selected@, origin@),
{
    let mut selected: Vec<RegularTerminal> = Vec::new();
    let mut index: usize = 0;
    while index < origin.len()
        invariant
            index == selected@.len() <= origin@.len() <= u32::MAX + 1,
            forall|v: int| 0 <= v < origin@.len() ==> (#[trigger] origin@[v]) < list@.len(),
            terminals_selected(list@, selected@, origin@.take(index as int)),
        decreases origin@.len() - index,
    {
        let ghost before = selected@;
        let position: usize = origin[index];
        let terminal = &list[position];
        selected.push(
            RegularTerminal {
                id: index as u32,
                kind: terminal.kind.clone(),
                provenance: terminal.provenance.clone(),
            },
        );
        assert forall|v: int| 0 <= v < selected@.len() implies (#[trigger] selected@[v]).id == v
            && selected@[v].kind@ == list@[origin@.take(index + 1)[v] as int].kind@
            && selected@[v].provenance == list@[origin@.take(index + 1)[v] as int].provenance by {
            if v < index {
                assert(selected@[v] == before[v]);
                assert(origin@.take(index as int)[v] == origin@.take(index + 1)[v]);
            }
        }
        index += 1;
    }
    assert(origin@.take(index as int) =~= origin@);
    selected
}

/// The symbols of a sequence under their new numbers.
fn rename_symbols(
    symbols: &Vec<Symbol>,
    nonterminals: &Vec<Option<u32>>,
    terminals: &Vec<Option<u32>>,
) -> (renamed: Vec<Symbol>)
    requires
        all_numbered(nonterminals@, terminals@, symbols@),
    ensures
        renamed@ == rename_all(nonterminals@, terminals@, symbols@),
{
    let mut renamed: Vec<Symbol> = Vec::new();
    let mut index: usize = 0;
    while index < symbols.len()
        invariant
            index == renamed@.len() <= symbols@.len(),
            all_numbered(nonterminals@, terminals@, symbols@),
            forall|i: int|
                0 <= i < index ==> #[trigger] renamed@[i] == rename(
                    nonterminals@,
                    terminals@,
                    symbols@[i],
                ),
        decreases symbols@.len() - index,
    {
        assert(numbered(nonterminals@, terminals@, symbols@[index as int]));
        let symbol = match symbols[index] {
            Symbol::Nonterminal(a) => match nonterminals[a as usize] {
                Some(id) => Symbol::Nonterminal(id),
                None => Symbol::Nonterminal(0),
            },
            Symbol::Terminal(t) => match terminals[t as usize] {
                Some(id) => Symbol::Terminal(id),
                None => Symbol::Terminal(0),
            },
        };
        renamed.push(symbol);
        index += 1;
    }
    assert(renamed@ =~= rename_all(nonterminals@, terminals@, symbols@));
    renamed
}

/// Whether a nonterminal is kept: it derives something, and is reachable from the start in the rules
/// as given.
pub open spec fn useful(grammar: &Grammar, a: u32) -> bool {
    productive(grammar.rules(), a) && reachable(grammar.rules(), grammar.start, a)
}

/// Whether a production is kept: all its nonterminals are.
pub open spec fn stays(grammar: &Grammar, p: int) -> bool {
    &&& useful(grammar, grammar.productions@[p].lhs)
    &&& forall|i: int|
        0 <= i < grammar.productions@[p].rhs@.len() ==> (
        #[trigger] grammar.productions@[p].rhs@[i] matches Symbol::Nonterminal(a) ==> useful(
            grammar,
            a,
        ))
}

/// Whether a terminal is kept: a production that is kept uses it.
pub open spec fn needed(grammar: &Grammar, t: u32) -> bool {
    exists|p: int|
        0 <= p < grammar.productions@.len() && #[trigger] stays(grammar, p)
            && grammar.productions@[p].rhs@.contains(Symbol::Terminal(t))
}

/// Whether positions ascend, below a bound.
pub open spec fn climbing(positions: Seq<usize>, bound: nat) -> bool {
    &&& forall|u: int, v: int| 0 <= u < v < positions.len() ==> positions[u] < positions[v]
    &&& forall|v: int| 0 <= v < positions.len() ==> (#[trigger] positions[v]) < bound
}

/// Whether a symbol stands for another before it was renumbered.
pub open spec fn stands_for(
    nonterminals: Seq<usize>,
    terminals: Seq<usize>,
    new: Symbol,
    old: Symbol,
) -> bool {
    match (new, old) {
        (Symbol::Nonterminal(a), Symbol::Nonterminal(b)) => a < nonterminals.len()
            && nonterminals[a as int] == b,
        (Symbol::Terminal(t), Symbol::Terminal(u)) => t < terminals.len() && terminals[t as int]
            == u,
        _ => false,
    }
}

/// Whether a production is another, under new numbers.
pub open spec fn same_production(
    nonterminals: Seq<usize>,
    terminals: Seq<usize>,
    new: Production,
    old: Production,
) -> bool {
    &&& new.provenance == old.provenance
    &&& new.lhs < nonterminals.len() && nonterminals[new.lhs as int] == old.lhs
    &&& new.rhs@.len() == old.rhs@.len()
    &&& forall|i: int|
        0 <= i < new.rhs@.len() ==> stands_for(
            nonterminals,
            terminals,
            #[trigger] new.rhs@[i],
            old.rhs@[i],
        )
}

/// Whether `new` has the useful nonterminals of `old`, the productions all of whose nonterminals are
/// useful and the terminals that these use, each in their order and under new numbers.
pub open spec fn selected(
    old_grammar: &Grammar,
    new_grammar: &Grammar,
    nonterminals: Seq<usize>,
    terminals: Seq<usize>,
    productions: Seq<usize>,
) -> bool {
    &&& climbing(nonterminals, old_grammar.nonterminals@.len())
    &&& climbing(terminals, old_grammar.terminals@.len())
    &&& climbing(productions, old_grammar.productions@.len())
    &&& nonterminals_selected(old_grammar.nonterminals@, new_grammar.nonterminals@, nonterminals)
    &&& terminals_selected(old_grammar.terminals@, new_grammar.terminals@, terminals)
    &&& new_grammar.productions@.len() == productions.len()
    &&& forall|q: int|
        0 <= q < productions.len() ==> (#[trigger] new_grammar.productions@[q]).id == q
            && same_production(
            nonterminals,
            terminals,
            new_grammar.productions@[q],
            old_grammar.productions@[productions[q] as int],
        )
    &&& forall|a: u32|
        a < old_grammar.nonterminals@.len() ==> (#[trigger] useful(old_grammar, a)
            <==> nonterminals.contains(a as usize))
    &&& forall|p: int|
        0 <= p < old_grammar.productions@.len() ==> (#[trigger] stays(old_grammar, p)
            <==> productions.contains(p as usize))
    &&& forall|t: u32|
        t < old_grammar.terminals@.len() ==> (#[trigger] needed(old_grammar, t)
            <==> terminals.contains(t as usize))
    &&& new_grammar.start < nonterminals.len() && nonterminals[new_grammar.start as int]
        == old_grammar.start
}

/// Whether `new` is `old` without what is not useful, or the start alone if it derives nothing.
pub open spec fn reduced_to(old_grammar: &Grammar, new_grammar: &Grammar) -> bool {
    if productive(old_grammar.rules(), old_grammar.start) {
        exists|nonterminals: Seq<usize>, terminals: Seq<usize>, productions: Seq<usize>| #[trigger]
            selected(old_grammar, new_grammar, nonterminals, terminals, productions)
    } else {
        &&& new_grammar.start == 0
        &&& new_grammar.nonterminals@.len() == 1
        &&& new_grammar.nonterminals@[0].name
            == old_grammar.nonterminals@[old_grammar.start as int].name
        &&& new_grammar.nonterminals@[0].provenance
            == old_grammar.nonterminals@[old_grammar.start as int].provenance
        &&& new_grammar.terminals@.len() == 0
        &&& new_grammar.productions@.len() == 0
    }
}

/// Whether two grammars have the same language, whatever the languages of the kinds of terminals.
pub open spec fn same_language(left: &Grammar, right: &Grammar) -> bool {
    forall|kinds: KindLex, w: Seq<u8>| #[trigger]
        left.language(kinds, w) == right.language(kinds, w)
}

/// Whether every terminal of `new` is one of `old`, under another number.
pub open spec fn terminals_kept(old_grammar: &Grammar, new_grammar: &Grammar) -> bool {
    forall|v: int|
        0 <= v < new_grammar.terminals@.len() ==> exists|u: int|
            0 <= u < old_grammar.terminals@.len() && (
            #[trigger] new_grammar.terminals@[v]).kind@ == (
            #[trigger] old_grammar.terminals@[u]).kind@
}

/// A list with room for `count` productions, if there is enough memory.
fn reserve_productions(count: usize) -> (room: Option<Vec<Production>>)
    ensures
        room matches Some(list) ==> list@.len() == 0,
{
    let mut list: Vec<Production> = Vec::new();
    match list.try_reserve(count) {
        Ok(()) => Some(list),
        Err(_) => None,
    }
}

/// Removes the nonterminals that derive nothing or are not reachable from the start, and what only
/// they use. Fails only where there is no memory for the productions.
pub fn reduce(grammar: &mut Grammar) -> (result: Result<ReductionStats, CompileError>)
    requires
        old(grammar).wf(),
    ensures
        result matches Ok(stats) ==> {
            &&& final(grammar).wf()
            &&& same_language(final(grammar), old(grammar))
            &&& reduced_to(old(grammar), final(grammar))
            &&& terminals_kept(old(grammar), final(grammar))
            &&& stats_of(old(grammar), final(grammar), stats)
            &&& sown(final(grammar))
        },
        result matches Err(e) ==> {
            &&& *final(grammar) == *old(grammar)
            &&& productive(old(grammar).rules(), old(grammar).start)
            &&& e matches CompileError::ResourceLimitExceeded { stage, .. } && stage
                == CompileStage::GrammarReduction
        },
{
    let room = reserve_productions(grammar.productions.len());
    reduce_into(grammar, room)
}

/// Whether every nonterminal has a derivation tree, or there are no productions at all.
pub open spec fn sown(grammar: &Grammar) -> bool {
    grammar.productions@.len() == 0 || forall|a: u32|
        a < grammar.nonterminals@.len() ==> #[trigger] productive(grammar.rules(), a)
}

/// What had a derivation tree still has one.
proof fn lemma_kept_productive(
    before: &Grammar,
    after: &Grammar,
    nonterminals: Seq<usize>,
    terminals: Seq<usize>,
    productions: Seq<usize>,
    n: nat,
    v: u32,
)
    requires
        before.wf(),
        before.nonterminals@.len() <= u32::MAX + 1,
        selected(before, after, nonterminals, terminals, productions),
        v < nonterminals.len(),
        productive_within(before.rules(), n, nonterminals[v as int] as u32),
        reachable(before.rules(), before.start, nonterminals[v as int] as u32),
    ensures
        productive_within(after.rules(), n, v),
    decreases n,
{
    let rules = before.rules();
    let kept = after.rules();
    let a = nonterminals[v as int] as u32;
    let p = choose|p: int|
        #![trigger rules[p]]
        0 <= p < rules.len() && rules[p].lhs == a && forall|i: int|
            0 <= i < rules[p].rhs.len() ==> (#[trigger] rules[p].rhs[i] matches Symbol::Nonterminal(
                b,
            ) ==> productive_within(rules, (n - 1) as nat, b));
    assert(rules[p] == grammar::production_rule(before.productions@[p]));
    let rhs = before.productions@[p].rhs@;
    let m = choose|m: nat| reachable_within(rules, before.start, m, a);
    assert(stays(before, p)) by {
        assert(productive(rules, a));
        assert forall|i: int| 0 <= i < before.productions@[p].rhs@.len() implies (
        #[trigger] before.productions@[p].rhs@[i] matches Symbol::Nonterminal(b) ==> useful(
            before,
            b,
        )) by {
            if let Symbol::Nonterminal(b) = rules[p].rhs[i] {
                assert(rules[p].rhs.contains(Symbol::Nonterminal(b)));
                assert(reachable_within(rules, before.start, m + 1, b));
            }
        }
    }
    assert(productions.contains(p as usize));
    let q = choose|q: int| 0 <= q < productions.len() && productions[q] == p as usize;
    let new = after.productions@[q];
    assert(same_production(nonterminals, terminals, new, before.productions@[productions[q] as int]));
    assert(kept[q] == grammar::production_rule(new));
    assert(new.lhs == v) by {
        if new.lhs < v {
            assert(nonterminals[new.lhs as int] < nonterminals[v as int]);
        } else if v < new.lhs {
            assert(nonterminals[v as int] < nonterminals[new.lhs as int]);
        }
    }
    assert forall|i: int| 0 <= i < kept[q].rhs.len() implies (
    #[trigger] kept[q].rhs[i] matches Symbol::Nonterminal(c) ==> productive_within(
        kept,
        (n - 1) as nat,
        c,
    )) by {
        if let Symbol::Nonterminal(c) = new.rhs@[i] {
            assert(stands_for(nonterminals, terminals, new.rhs@[i], rhs[i]));
            let b = nonterminals[c as int] as u32;
            assert(rules[p].rhs[i] == Symbol::Nonterminal(b));
            assert(rules[p].rhs.contains(Symbol::Nonterminal(b)));
            assert(reachable_within(rules, before.start, m + 1, b));
            lemma_kept_productive(
                before,
                after,
                nonterminals,
                terminals,
                productions,
                (n - 1) as nat,
                c,
            );
        }
    }
}

/// After a grammar is reduced, every nonterminal has a derivation tree.
proof fn lemma_sown(
    before: &Grammar,
    after: &Grammar,
    nonterminals: Seq<usize>,
    terminals: Seq<usize>,
    productions: Seq<usize>,
)
    requires
        before.wf(),
        selected(before, after, nonterminals, terminals, productions),
    ensures
        sown(after),
{
    lemma_id_bound(before);
    assert forall|v: u32| v < after.nonterminals@.len() implies #[trigger] productive(
        after.rules(),
        v,
    ) by {
        let a = nonterminals[v as int] as u32;
        assert(nonterminals.contains(a as usize)) by {
            assert(nonterminals[v as int] == a as usize);
        }
        assert(useful(before, a));
        let n = choose|n: nat| productive_within(before.rules(), n, a);
        lemma_kept_productive(before, after, nonterminals, terminals, productions, n, v);
    }
}

/// Whether the counts are those of what is gone.
pub open spec fn stats_of(
    old_grammar: &Grammar,
    new_grammar: &Grammar,
    stats: ReductionStats,
) -> bool {
    &&& stats.removed_nonterminals == old_grammar.nonterminals@.len()
        - new_grammar.nonterminals@.len()
    &&& stats.removed_terminals == old_grammar.terminals@.len() - new_grammar.terminals@.len()
    &&& stats.removed_productions == old_grammar.productions@.len()
        - new_grammar.productions@.len()
}

/// Removes what is not useful, with the productions that stay put into `room`.
pub fn reduce_into(grammar: &mut Grammar, room: Option<Vec<Production>>) -> (result: Result<
    ReductionStats,
    CompileError,
>)
    requires
        old(grammar).wf(),
        room matches Some(list) ==> list@.len() == 0,
    ensures
        result is Ok <==> room is Some || !productive(old(grammar).rules(), old(grammar).start),
        result matches Ok(stats) ==> {
            &&& final(grammar).wf()
            &&& same_language(final(grammar), old(grammar))
            &&& reduced_to(old(grammar), final(grammar))
            &&& terminals_kept(old(grammar), final(grammar))
            &&& stats_of(old(grammar), final(grammar), stats)
            &&& sown(final(grammar))
        },
        result matches Err(e) ==> {
            &&& *final(grammar) == *old(grammar)
            &&& e matches CompileError::ResourceLimitExceeded { stage, .. } && stage
                == CompileStage::GrammarReduction
        },
{
    let ghost before = *grammar;
    let found = productive_nonterminals(grammar);
    let start: usize = grammar.start as usize;
    if !found[start] {
        let only = Nonterminal {
            id: 0,
            name: grammar.nonterminals[start].name.clone(),
            provenance: grammar.nonterminals[start].provenance.clone(),
        };
        let stats = ReductionStats {
            removed_nonterminals: grammar.nonterminals.len() - 1,
            removed_terminals: grammar.terminals.len(),
            removed_productions: grammar.productions.len(),
        };
        let mut nonterminals: Vec<Nonterminal> = Vec::new();
        nonterminals.push(only);
        grammar.start = 0;
        grammar.nonterminals = nonterminals;
        grammar.terminals = Vec::new();
        grammar.productions = Vec::new();
        proof {
            assert forall|kinds: KindLex, w: Seq<u8>| #[trigger] grammar.language(kinds, w)
                == before.language(kinds, w) by {
                lemma_empty_language(&before, kinds, w);
                lemma_no_productions(grammar, kinds, w);
            }
        }
        return Ok(stats);
    }
    let marked = reachable_nonterminals(grammar);
    let keep = both(&found, &marked);
    proof {
        assert forall|a: u32| a < keep@.len() implies #[trigger] keep@[a as int] == useful(
            grammar,
            a,
        ) by {
            assert(keep@[a as int] == (found@[a as int] && marked@[a as int]));
        }
        assert(reachable_within(grammar.rules(), grammar.start, 0, grammar.start));
        lemma_id_bound(grammar);
    }
    let (nonterminal_map, nonterminal_origin) = number(&keep);
    let (retained, used) = retain_productions(grammar, &keep);
    let (terminal_map, terminal_origin) = number(&used);
    let mut productions = match room {
        Some(list) => list,
        None => {
            return Err(
                resource_error(
                    CompileStage::GrammarReduction,
                    retained.len(),
                    retained.len().saturating_sub(1),
                ),
            );
        },
    };
    proof {
        lemma_selection_bound(keep@, nonterminal_map@, nonterminal_origin@);
        lemma_selection_bound(used@, terminal_map@, terminal_origin@);
    }
    let nonterminals = select_nonterminals(&grammar.nonterminals, &nonterminal_origin);
    let terminals = select_terminals(&grammar.terminals, &terminal_origin);
    let mut index: usize = 0;
    while index < retained.len()
        invariant
            index == productions@.len() <= retained@.len() <= grammar.productions@.len(),
            *grammar == before,
            grammar.wf(),
            grammar.productions@.len() <= u32::MAX + 1,
            keep@.len() == grammar.nonterminals@.len(),
            retained_are(
                grammar,
                keep@,
                retained@,
                used@,
                grammar.productions@.len() as int,
            ),
            numbering(keep@, nonterminal_map@, nonterminal_origin@),
            numbering(used@, terminal_map@, terminal_origin@),
            forall|q: int|
                0 <= q < index ==> {
                    let new = #[trigger] productions@[q];
                    let production = before.productions@[retained@[q] as int];
                    &&& new.id == q
                    &&& new.lhs == renumbered(nonterminal_map@, production.lhs)
                    &&& new.rhs@ == rename_all(nonterminal_map@, terminal_map@, production.rhs@)
                    &&& new.provenance == production.provenance
                },
        decreases retained@.len() - index,
    {
        let position: usize = retained[index];
        assert(retainable(grammar, keep@, retained@[index as int] as int));
        let production = &grammar.productions[position];
        proof {
            lemma_in_range(grammar, position as int);
            lemma_retained_numbered(
                grammar,
                keep@,
                used@,
                nonterminal_map@,
                nonterminal_origin@,
                terminal_map@,
                terminal_origin@,
                position as int,
            );
        }
        let lhs: u32 = match nonterminal_map[production.lhs as usize] {
            Some(lhs) => lhs,
            None => 0,
        };
        let rhs = rename_symbols(&production.rhs, &nonterminal_map, &terminal_map);
        productions.push(
            Production { id: index as u32, lhs, rhs, provenance: production.provenance.clone() },
        );
        index += 1;
    }
    let new_start: u32 = match nonterminal_map[start] {
        Some(id) => id,
        None => 0,
    };
    let stats = ReductionStats {
        removed_nonterminals: grammar.nonterminals.len() - nonterminals.len(),
        removed_terminals: grammar.terminals.len() - terminals.len(),
        removed_productions: grammar.productions.len() - productions.len(),
    };
    grammar.start = new_start;
    grammar.nonterminals = nonterminals;
    grammar.terminals = terminals;
    grammar.productions = productions;
    proof {
        assert forall|v: int| 0 <= v < grammar.terminals@.len() implies exists|u: int|
            0 <= u < before.terminals@.len() && (#[trigger] grammar.terminals@[v]).kind@ == (
            #[trigger] before.terminals@[u]).kind@ by {
            let u = terminal_origin@[v] as int;
            assert(grammar.terminals@[v].kind@ == before.terminals@[u].kind@);
        }
        lemma_reduced(
            &before,
            grammar,
            keep@,
            used@,
            nonterminal_map@,
            nonterminal_origin@,
            terminal_map@,
            terminal_origin@,
            retained@,
        );
    }
    Ok(stats)
}

/// Where both marks are set.
fn both(left: &Vec<bool>, right: &Vec<bool>) -> (marks: Vec<bool>)
    requires
        left@.len() == right@.len(),
    ensures
        marks@.len() == left@.len(),
        forall|i: int| 0 <= i < marks@.len() ==> #[trigger] marks@[i] == (left@[i] && right@[i]),
{
    let mut marks: Vec<bool> = Vec::new();
    let mut index: usize = 0;
    while index < left.len()
        invariant
            index == marks@.len() <= left@.len() == right@.len(),
            forall|i: int| 0 <= i < index ==> #[trigger] marks@[i] == (left@[i] && right@[i]),
        decreases left@.len() - index,
    {
        marks.push(left[index] && right[index]);
        index += 1;
    }
    marks
}

/// Identifiers that are positions bound the counts.
pub proof fn lemma_id_bound(grammar: &Grammar)
    requires
        grammar.wf(),
    ensures
        grammar.nonterminals@.len() <= u32::MAX + 1,
        grammar.terminals@.len() <= u32::MAX + 1,
        grammar.productions@.len() <= u32::MAX + 1,
{
    if grammar.nonterminals@.len() > 0 {
        let last = grammar.nonterminals@.len() - 1;
        assert(grammar.nonterminals@[last].id == last);
    }
    if grammar.terminals@.len() > 0 {
        let last = grammar.terminals@.len() - 1;
        assert(grammar.terminals@[last].id == last);
    }
    if grammar.productions@.len() > 0 {
        let last = grammar.productions@.len() - 1;
        assert(grammar.productions@[last].id == last);
    }
}

/// No more positions are numbered than there are.
proof fn lemma_selection_bound(keep: Seq<bool>, numbers: Seq<Option<u32>>, origin: Seq<usize>)
    requires
        numbering(keep, numbers, origin),
    ensures
        origin.len() <= keep.len(),
{
    if origin.len() > 0 {
        lemma_increasing(origin, origin.len() - 1);
    }
}

proof fn lemma_increasing(origin: Seq<usize>, v: int)
    requires
        0 <= v < origin.len(),
        forall|u: int, v: int| 0 <= u < v < origin.len() ==> origin[u] < origin[v],
    ensures
        origin[v] >= v,
    decreases v,
{
    if v > 0 {
        lemma_increasing(origin, v - 1);
        assert(origin[v - 1] < origin[v]);
    }
}

/// A grammar whose start is not productive has an empty language.
proof fn lemma_empty_language(grammar: &Grammar, kinds: KindLex, w: Seq<u8>)
    requires
        !productive(grammar.rules(), grammar.start),
    ensures
        !grammar.language(kinds, w),
{
    if grammar.language(kinds, w) {
        let symbol = Symbol::Nonterminal(grammar.start);
        let len = w.len() as int;
        let n = choose|n: nat|
            derivation::derives(grammar.rules(), grammar.lex(kinds), n, symbol, w, 0, len);
        lemma_derives_productive(
            grammar.rules(),
            grammar.lex(kinds),
            n,
            grammar.start,
            w,
            0,
            len,
        );
    }
}

/// A grammar without productions has an empty language.
proof fn lemma_no_productions(grammar: &Grammar, kinds: KindLex, w: Seq<u8>)
    requires
        grammar.productions@.len() == 0,
    ensures
        !grammar.language(kinds, w),
{
    if grammar.language(kinds, w) {
        let symbol = Symbol::Nonterminal(grammar.start);
        let len = w.len() as int;
        let n = choose|n: nat|
            derivation::derives(grammar.rules(), grammar.lex(kinds), n, symbol, w, 0, len);
        assert(grammar.rules().len() == 0);
    }
}

/// The symbols of a production that is retained have new numbers.
proof fn lemma_retained_numbered(
    grammar: &Grammar,
    keep: Seq<bool>,
    used: Seq<bool>,
    nonterminals: Seq<Option<u32>>,
    nonterminal_origin: Seq<usize>,
    terminals: Seq<Option<u32>>,
    terminal_origin: Seq<usize>,
    p: int,
)
    requires
        grammar.wf(),
        keep.len() == grammar.nonterminals@.len(),
        0 <= p < grammar.productions@.len(),
        retainable(grammar, keep, p),
        terminals_used(used, grammar.productions@[p].rhs@),
        numbering(keep, nonterminals, nonterminal_origin),
        numbering(used, terminals, terminal_origin),
    ensures
        nonterminals[grammar.productions@[p].lhs as int] is Some,
        all_numbered(nonterminals, terminals, grammar.productions@[p].rhs@),
{
    let rhs = grammar.productions@[p].rhs@;
    lemma_in_range(grammar, p);
    assert forall|i: int| 0 <= i < rhs.len() implies numbered(
        nonterminals,
        terminals,
        #[trigger] rhs[i],
    ) by {
        match rhs[i] {
            Symbol::Nonterminal(a) => {
                assert((|a: u32| keep[a as int])(a));
                assert(nonterminals[a as int] is Some);
            },
            Symbol::Terminal(t) => {
                assert(terminals[t as int] is Some);
            },
        }
    }
}

/// What is kept is what is useful, in its order and under new numbers.
proof fn lemma_selected(
    before: &Grammar,
    after: &Grammar,
    keep: Seq<bool>,
    used: Seq<bool>,
    nonterminals: Seq<Option<u32>>,
    nonterminal_origin: Seq<usize>,
    terminals: Seq<Option<u32>>,
    terminal_origin: Seq<usize>,
    retained: Seq<usize>,
)
    requires
        before.wf(),
        productive(before.rules(), before.start),
        keep.len() == before.nonterminals@.len(),
        forall|a: u32| a < keep.len() ==> #[trigger] keep[a as int] == useful(before, a),
        numbering(keep, nonterminals, nonterminal_origin),
        retained_are(before, keep, retained, used, before.productions@.len() as int),
        numbering(used, terminals, terminal_origin),
        nonterminals_selected(before.nonterminals@, after.nonterminals@, nonterminal_origin),
        terminals_selected(before.terminals@, after.terminals@, terminal_origin),
        after.productions@.len() == retained.len(),
        forall|q: int|
            0 <= q < retained.len() ==> {
                let new = #[trigger] after.productions@[q];
                let production = before.productions@[retained[q] as int];
                &&& new.id == q
                &&& new.lhs == renumbered(nonterminals, production.lhs)
                &&& new.rhs@ == rename_all(nonterminals, terminals, production.rhs@)
                &&& new.provenance == production.provenance
            },
        after.start == renumbered(nonterminals, before.start),
        reachable(before.rules(), before.start, before.start),
    ensures
        selected(before, after, nonterminal_origin, terminal_origin, retained),
{
    lemma_id_bound(before);
    assert(useful(before, before.start));
    assert(keep[before.start as int]);
    assert(nonterminals[before.start as int] is Some);
    assert forall|p: int| 0 <= p < before.productions@.len() implies (#[trigger] stays(before, p)
        <==> retainable(before, keep, p)) by {
        lemma_in_range(before, p);
        let rhs = before.productions@[p].rhs@;
        assert(keep[before.productions@[p].lhs as int] == useful(before, before.productions@[p].lhs));
        assert forall|i: int| 0 <= i < rhs.len() implies (
        #[trigger] rhs[i] matches Symbol::Nonterminal(a) ==> keep[a as int] == useful(before, a)) by {}
        if stays(before, p) {
            assert forall|i: int| 0 <= i < rhs.len() implies (
            #[trigger] rhs[i] matches Symbol::Nonterminal(a) ==> (|a: u32| keep[a as int])(a)) by {
                assert(before.productions@[p].rhs@[i] == rhs[i]);
            }
        }
        if retainable(before, keep, p) {
            assert forall|i: int| 0 <= i < before.productions@[p].rhs@.len() implies (
            #[trigger] before.productions@[p].rhs@[i] matches Symbol::Nonterminal(a) ==> useful(
                before,
                a,
            )) by {
                if let Symbol::Nonterminal(a) = rhs[i] {
                    assert((|a: u32| keep[a as int])(a));
                }
            }
        }
    }
    assert forall|q: int| 0 <= q < retained.len() implies (#[trigger] after.productions@[q]).id == q
        && same_production(
        nonterminal_origin,
        terminal_origin,
        after.productions@[q],
        before.productions@[retained[q] as int],
    ) by {
        let p = retained[q] as int;
        assert(retainable(before, keep, retained[q] as int));
        lemma_retained_numbered(
            before,
            keep,
            used,
            nonterminals,
            nonterminal_origin,
            terminals,
            terminal_origin,
            p,
        );
        let new = after.productions@[q];
        let old_rhs = before.productions@[p].rhs@;
        assert forall|i: int| 0 <= i < new.rhs@.len() implies stands_for(
            nonterminal_origin,
            terminal_origin,
            #[trigger] new.rhs@[i],
            old_rhs[i],
        ) by {
            assert(numbered(nonterminals, terminals, old_rhs[i]));
            match old_rhs[i] {
                Symbol::Nonterminal(a) => {
                    assert(nonterminals[a as int] is Some);
                },
                Symbol::Terminal(t) => {
                    assert(terminals[t as int] is Some);
                },
            }
        }
    }
    assert forall|a: u32| a < before.nonterminals@.len() implies (#[trigger] useful(before, a)
        <==> nonterminal_origin.contains(a as usize)) by {
        assert(keep[a as int] == useful(before, a));
        if useful(before, a) {
            assert(nonterminals[a as int] is Some);
            assert(nonterminal_origin[nonterminals[a as int]->0 as int] == a);
        }
        if nonterminal_origin.contains(a as usize) {
            let v = choose|v: int|
                0 <= v < nonterminal_origin.len() && nonterminal_origin[v] == a as usize;
            assert(nonterminals[nonterminal_origin[v] as int] is Some);
        }
    }
    assert forall|p: int| 0 <= p < before.productions@.len() implies (#[trigger] stays(before, p)
        <==> retained.contains(p as usize)) by {
        if retained.contains(p as usize) {
            let x = choose|x: int| 0 <= x < retained.len() && retained[x] == p as usize;
            assert(retainable(before, keep, retained[x] as int));
        }
    }
    assert forall|t: u32| t < before.terminals@.len() implies (#[trigger] needed(before, t)
        <==> terminal_origin.contains(t as usize)) by {
        if needed(before, t) {
            let p = choose|p: int|
                0 <= p < before.productions@.len() && #[trigger] stays(before, p)
                    && before.productions@[p].rhs@.contains(Symbol::Terminal(t));
            assert(retained.contains(p as usize));
            let x = choose|x: int| 0 <= x < retained.len() && retained[x] == p as usize;
            let rhs = before.productions@[retained[x] as int].rhs@;
            assert(terminals_used(used, rhs));
            let i = choose|i: int| 0 <= i < rhs.len() && rhs[i] == Symbol::Terminal(t);
            assert(rhs[i] == Symbol::Terminal(t));
            assert(used[t as int]);
            assert(terminals[t as int] is Some);
            assert(terminal_origin[terminals[t as int]->0 as int] == t);
        }
        if terminal_origin.contains(t as usize) {
            let v = choose|v: int|
                0 <= v < terminal_origin.len() && terminal_origin[v] == t as usize;
            assert(terminals[terminal_origin[v] as int] is Some);
            assert(used[t as int]);
            let x = choose|x: int|
                0 <= x < retained.len() && before.productions@[#[trigger] retained[x] as int].rhs@.contains(
                    Symbol::Terminal(t),
                );
            assert(stays(before, retained[x] as int));
        }
    }
}

/// The reduced grammar is well formed, has the same language and keeps what is useful.
proof fn lemma_reduced(
    before: &Grammar,
    after: &Grammar,
    keep: Seq<bool>,
    used: Seq<bool>,
    nonterminals: Seq<Option<u32>>,
    nonterminal_origin: Seq<usize>,
    terminals: Seq<Option<u32>>,
    terminal_origin: Seq<usize>,
    retained: Seq<usize>,
)
    requires
        before.wf(),
        productive(before.rules(), before.start),
        keep.len() == before.nonterminals@.len(),
        forall|a: u32| a < keep.len() ==> #[trigger] keep[a as int] == useful(before, a),
        numbering(keep, nonterminals, nonterminal_origin),
        retained_are(before, keep, retained, used, before.productions@.len() as int),
        numbering(used, terminals, terminal_origin),
        nonterminals_selected(before.nonterminals@, after.nonterminals@, nonterminal_origin),
        terminals_selected(before.terminals@, after.terminals@, terminal_origin),
        after.productions@.len() == retained.len(),
        forall|q: int|
            0 <= q < retained.len() ==> {
                let new = #[trigger] after.productions@[q];
                let production = before.productions@[retained[q] as int];
                &&& new.id == q
                &&& new.lhs == renumbered(nonterminals, production.lhs)
                &&& new.rhs@ == rename_all(nonterminals, terminals, production.rhs@)
                &&& new.provenance == production.provenance
            },
        after.start == renumbered(nonterminals, before.start),
        reachable(before.rules(), before.start, before.start),
    ensures
        after.wf(),
        same_language(after, before),
        reduced_to(before, after),
        sown(after),
{
    let old_rules = before.rules();
    let new_rules = after.rules();
    let origin = Seq::new(retained.len(), |q: int| retained[q] as int);
    assert(useful(before, before.start));
    assert(keep[before.start as int]);
    assert(nonterminals[before.start as int] is Some);
    lemma_id_bound(before);
    assert forall|q: int| 0 <= q < new_rules.len() implies {
        let p = #[trigger] origin[q];
        &&& 0 <= p < old_rules.len()
        &&& numbered(nonterminals, terminals, Symbol::Nonterminal(old_rules[p].lhs))
        &&& all_numbered(nonterminals, terminals, old_rules[p].rhs)
        &&& new_rules[q].lhs == renumbered(nonterminals, old_rules[p].lhs)
        &&& new_rules[q].rhs == rename_all(nonterminals, terminals, old_rules[p].rhs)
    } by {
        let p = retained[q] as int;
        assert(retainable(before, keep, retained[q] as int));
        assert(after.productions@[q].id == q);
        lemma_retained_numbered(
            before,
            keep,
            used,
            nonterminals,
            nonterminal_origin,
            terminals,
            terminal_origin,
            p,
        );
    }
    assert forall|p: int|
        0 <= p < old_rules.len() && numbered(
            nonterminals,
            terminals,
            Symbol::Nonterminal((#[trigger] old_rules[p]).lhs),
        ) && all_good(
            old_rules[p].rhs,
            |a: u32| a < nonterminals.len() && nonterminals[a as int] is Some,
        ) implies origin.contains(p) by {
        let rhs = before.productions@[p].rhs@;
        assert(old_rules[p].rhs == rhs);
        assert(retainable(before, keep, p)) by {
            assert forall|i: int| 0 <= i < rhs.len() implies (
            #[trigger] rhs[i] matches Symbol::Nonterminal(a) ==> (|a: u32| keep[a as int])(a)) by {
                if let Symbol::Nonterminal(a) = rhs[i] {
                    assert((|a: u32|
                        a < nonterminals.len() && nonterminals[a as int] is Some)(a));
                }
            }
        }
        assert(retained.contains(p as usize));
        let q = choose|q: int| 0 <= q < retained.len() && retained[q] == p as usize;
        assert(before.productions@[p].id == p);
        assert(origin[q] == p);
    }
    assert forall|a: u32, b: u32|
        a < nonterminals.len() && b < nonterminals.len() && #[trigger] nonterminals[a as int]
            is Some && nonterminals[a as int] == #[trigger] nonterminals[b as int] implies a
        == b by {}
    assert forall|p: int, b: u32|
        0 <= p < old_rules.len() && numbered(
            nonterminals,
            terminals,
            Symbol::Nonterminal((#[trigger] old_rules[p]).lhs),
        ) && old_rules[p].rhs.contains(Symbol::Nonterminal(b)) && #[trigger] productive(
            old_rules,
            b,
        ) implies b < nonterminals.len() && nonterminals[b as int] is Some by {
        let lhs = old_rules[p].lhs;
        assert(keep[lhs as int]);
        assert(useful(before, lhs));
        lemma_reachable_step(old_rules, before.start, p, b);
        lemma_in_range(before, p);
        let rhs = before.productions@[p].rhs@;
        let i = choose|i: int| 0 <= i < rhs.len() && rhs[i] == Symbol::Nonterminal(b);
        assert(rhs[i] == Symbol::Nonterminal(b));
        assert(useful(before, b));
        assert(keep[b as int]);
    }
    assert forall|a: u32|
        a < nonterminals.len() && #[trigger] nonterminals[a as int] is Some implies productive(
        old_rules,
        a,
    ) by {
        assert(keep[a as int]);
    }
    assert(corresponds(old_rules, new_rules, nonterminals, terminals, origin));
    assert forall|kinds: KindLex, w: Seq<u8>| #[trigger] after.language(kinds, w)
        == before.language(kinds, w) by {
        let (old_lex, new_lex) = (before.lex(kinds), after.lex(kinds));
        assert(same_lex(old_lex, new_lex, terminals)) by {
            assert forall|t: u32, v: Seq<u8>|
                t < terminals.len() && terminals[t as int] is Some implies #[trigger] old_lex(t, v)
                == new_lex(renumbered(terminals, t), v) by {
                let new = terminals[t as int]->0;
                assert(terminal_origin[new as int] == t);
                assert(after.terminals@[new as int].kind@ == before.terminals@[t as int].kind@);
            }
        }
        let symbol = Symbol::Nonterminal(before.start);
        let renamed = Symbol::Nonterminal(after.start);
        let len = w.len() as int;
        assert(renamed == rename(nonterminals, terminals, symbol));
        assert forall|n: nat|
            #![trigger derivation::derives(old_rules, old_lex, n, symbol, w, 0, len)]
            #![trigger derivation::derives(new_rules, new_lex, n, renamed, w, 0, len)]
            derivation::derives(old_rules, old_lex, n, symbol, w, 0, len) == derivation::derives(
                new_rules,
                new_lex,
                n,
                renamed,
                w,
                0,
                len,
            ) by {
            lemma_rename_derives(
                old_rules,
                new_rules,
                old_lex,
                new_lex,
                nonterminals,
                terminals,
                origin,
                n,
                symbol,
                w,
                0,
                len,
            );
        }
        if after.language(kinds, w) {
            let n = choose|n: nat|
                derivation::derives(new_rules, new_lex, n, renamed, w, 0, len);
            assert(derivation::derives(old_rules, old_lex, n, symbol, w, 0, len));
        }
        if before.language(kinds, w) {
            let n = choose|n: nat| derivation::derives(old_rules, old_lex, n, symbol, w, 0, len);
            assert(derivation::derives(new_rules, new_lex, n, renamed, w, 0, len));
        }
    }
    assert(after.wf()) by {
        assert forall|p: int| 0 <= p < after.productions@.len() implies (
        #[trigger] after.productions@[p]).id == p && after.productions@[p].lhs
            < after.nonterminals@.len() && residual::symbols_in(
            after.productions@[p].rhs@,
            after.nonterminals@.len(),
            after.terminals@.len(),
        ) by {
            let source = origin[p];
            let rhs = after.productions@[p].rhs@;
            assert(all_numbered(nonterminals, terminals, old_rules[source].rhs));
            assert(numbered(nonterminals, terminals, Symbol::Nonterminal(old_rules[source].lhs)));
            assert(nonterminals[old_rules[source].lhs as int] is Some);
            assert forall|i: int| 0 <= i < rhs.len() implies residual::symbol_in(
                #[trigger] rhs[i],
                after.nonterminals@.len(),
                after.terminals@.len(),
            ) by {
                assert(numbered(nonterminals, terminals, old_rules[source].rhs[i]));
                match old_rules[source].rhs[i] {
                    Symbol::Nonterminal(a) => {
                        assert(nonterminals[a as int] is Some);
                    },
                    Symbol::Terminal(t) => {
                        assert(terminals[t as int] is Some);
                    },
                }
            }
        }
    }
    lemma_selected(
        before,
        after,
        keep,
        used,
        nonterminals,
        nonterminal_origin,
        terminals,
        terminal_origin,
        retained,
    );
    lemma_sown(before, after, nonterminal_origin, terminal_origin, retained);
}

} // verus!
