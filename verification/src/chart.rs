//! What an Earley chart holds, and why recognition by it is exact.

use vstd::prelude::*;

use crate::derivation;
use crate::derivation::Rule;
use crate::earley;
use crate::earley::{ActiveScan, ChartColumn, CompiledEarley, EarleyItem};
use crate::items;
use crate::residual;
use crate::symbol::Symbol;

verus! {

impl CompiledEarley {
    /// Whether `item` belongs to column `j` of the chart of `w`.
    pub open spec fn in_column(&self, w: Seq<u8>, j: int, item: EarleyItem) -> bool {
        self.valid(item) && items::item_in(
            self.rules(),
            self.lex(),
            self.root(),
            w,
            j,
            self.production(item),
            self.dot(item),
            item.origin as int,
        )
    }

    /// Whether `item` is in column `c`, or the end of the chain of completions that it starts is.
    pub open spec fn covered(&self, chart: Seq<ChartColumn>, c: int, item: EarleyItem) -> bool {
        chart[c].items@.contains(item) || (self.next(item) is None && item.origin < c && {
            let leo = chart[item.origin as int].leo_by_postdot@;
            leo.dom().contains(self.lhs(item)) && chart[c].items@.contains(leo[self.lhs(item)])
        })
    }

    /// Whether `target` belongs to every column up to which `a` is recognized from column `c` on.
    pub open spec fn leads_to(&self, w: Seq<u8>, c: int, a: u32, target: EarleyItem) -> bool {
        forall|v: Seq<u8>, j: int, item: EarleyItem|
            c <= v.len() && v.take(c) == w.take(c) && self.next(item) is None && self.lhs(item)
                == a && item.origin == c && #[trigger] self.in_column(v, j, item)
                ==> self.in_column(v, j, target)
    }

    /// Whether column `c` is that of the chart of `w`.
    #[verifier::opaque]
    pub open spec fn column_exact(&self, chart: Seq<ChartColumn>, c: int, w: Seq<u8>) -> bool {
        let column = chart[c];
        &&& column.position == c
        &&& column.keyed()
        &&& forall|item: EarleyItem| #[trigger]
            column.items@.contains(item) ==> self.in_column(w, c, item)
        &&& forall|item: EarleyItem| #[trigger]
            self.in_column(w, c, item) ==> self.covered(chart, c, item)
        &&& forall|a: u32, item: EarleyItem| #[trigger]
            earley::waits(column.waiting_nonterminal@, a, item) <==> column.items@.contains(item)
                && self.next(item) == Some(Symbol::Nonterminal(a))
        &&& forall|t: u32, item: EarleyItem| #[trigger]
            earley::waits(column.waiting_terminal@, t, item) <==> column.items@.contains(item)
                && self.next(item) == Some(Symbol::Terminal(t))
        &&& self.leo_is(chart.take(c), column)
        &&& forall|a: u32| #[trigger]
            column.leo_by_postdot@.dom().contains(a) ==> self.leads_to(
                w,
                c,
                a,
                column.leo_by_postdot@[a],
            )
    }

    /// Whether the last column of a chart was worked off behind columns that are exact.
    pub open spec fn last_worked(
        &self,
        leo: bool,
        chart: Seq<ChartColumn>,
        scans: Seq<ActiveScan>,
        seeds: int,
        w: Seq<u8>,
    ) -> bool {
        let c = w.len() as int;
        let column = chart[c];
        &&& self.wf()
        &&& self.grammar.nullable_exact()
        &&& chart.len() == c + 1
        &&& column.position == c
        &&& column.keyed()
        &&& self.column_ok(column, c)
        &&& forall|d: int| 0 <= d < c ==> #[trigger] self.column_exact(chart, d, w)
        &&& self.worked(leo, chart.take(c), column, scans, seeds, column.items@.len() as int)
        &&& self.leo_is(chart.take(c), column)
        &&& !leo ==> forall|d: int|
            0 <= d <= c ==> (#[trigger] chart[d]).leo_by_postdot@.dom() == Set::<u32>::empty()
        &&& forall|k: int|
            0 <= k < seeds ==> self.in_column(w, c, #[trigger] column.items@[k])
        &&& forall|item: EarleyItem| #[trigger]
            self.in_column(w, c, item) && self.dot(item) > 0 && self.productions@[self.production(
                item,
            )].rhs@[self.dot(item) - 1] is Terminal ==> column.items@.contains(item)
        &&& c == 0 ==> column.items@.contains(self.predicted(self.root(), 0))
    }

    /// The rules are those of the grammar, and the one that recognition starts with.
    pub proof fn lemma_rules(&self)
        requires
            self.wf(),
        ensures
            self.rules().len() == self.productions@.len(),
            forall|p: int|
                0 <= p < self.productions@.len() ==> #[trigger] self.rules()[p]
                    == self.productions@[p].rule(),
            self.rules() == self.grammar.rules().push(
                Rule {
                    lhs: self.grammar.nonterminals@.len() as u32,
                    rhs: seq![Symbol::Nonterminal(self.grammar.start)],
                },
            ),
            forall|p: int|
                0 <= p < self.grammar.rules().len() ==> derivation::avoids(
                    (#[trigger] self.grammar.rules()[p]).rhs,
                    self.grammar.nonterminals@.len() as u32,
                ),
            0 <= self.root() < self.rules().len(),
    {
        let extra = Rule {
            lhs: self.grammar.nonterminals@.len() as u32,
            rhs: seq![Symbol::Nonterminal(self.grammar.start)],
        };
        let count = self.grammar.productions@.len() as int;
        assert forall|p: int| 0 <= p < self.productions@.len() implies #[trigger] self.rules()[p]
            == self.grammar.rules().push(extra)[p] by {
            let production = self.productions@[p];
            if p < count {
                assert(production.lhs == self.grammar.productions@[p].lhs);
            }
        }
        assert(self.rules() =~= self.grammar.rules().push(extra));
        assert forall|p: int|
            0 <= p < self.grammar.rules().len() implies derivation::avoids(
            (#[trigger] self.grammar.rules()[p]).rhs,
            extra.lhs,
        ) by {
            let rhs = self.grammar.productions@[p].rhs@;
            assert(residual::symbols_in(
                rhs,
                self.grammar.nonterminals@.len(),
                self.grammar.terminals@.len(),
            ));
            assert forall|i: int| 0 <= i < rhs.len() implies #[trigger] rhs[i]
                != Symbol::Nonterminal(extra.lhs) by {
                assert(residual::symbol_in(
                    rhs[i],
                    self.grammar.nonterminals@.len(),
                    self.grammar.terminals@.len(),
                ));
            }
        }
    }

    /// A nonterminal derives nothing between a position and itself unless it is nullable.
    proof fn lemma_nullable(&self, w: Seq<u8>, c: int, a: u32)
        requires
            self.wf(),
            self.grammar.nullable_exact(),
            a < self.grammar.nonterminals@.len(),
            0 <= c <= w.len(),
        ensures
            self.grammar.nullable@[a as int] <==> derivation::yields(
                self.rules(),
                self.lex(),
                Symbol::Nonterminal(a),
                w,
                c,
                c,
            ),
    {
        self.lemma_rules();
        let extra = Rule {
            lhs: self.grammar.nonterminals@.len() as u32,
            rhs: seq![Symbol::Nonterminal(self.grammar.start)],
        };
        derivation::lemma_yields_shift(
            self.rules(),
            self.lex(),
            Symbol::Nonterminal(a),
            w,
            c,
            c,
        );
        assert(w.subrange(c, c) =~= Seq::empty());
        derivation::lemma_yields_unused_rule(
            self.grammar.rules(),
            self.lex(),
            extra,
            Symbol::Nonterminal(a),
            Seq::empty(),
            0,
            0,
        );
        assert(Seq::<u8>::empty().len() == 0);
        assert(self.grammar.nullable@[a as int] == derivation::generates(
            self.grammar.rules(),
            self.grammar.lex(),
            a,
            Seq::empty(),
        ));
    }

    /// A complete item and an item that waits for its left-hand side give the latter moved.
    proof fn lemma_in_complete(
        &self,
        w: Seq<u8>,
        k: int,
        j: int,
        waiter: EarleyItem,
        done: EarleyItem,
    )
        requires
            self.wf(),
            self.in_column(w, k, waiter),
            self.in_column(w, j, done),
            self.next(done) is None,
            done.origin == k,
            self.next(waiter) == Some(Symbol::Nonterminal(self.lhs(done))),
        ensures
            self.in_column(w, j, self.advanced(waiter)),
    {
        self.lemma_rules();
        self.lemma_item(waiter);
        self.lemma_item(done);
        let p = self.production(waiter);
        let q = self.production(done);
        assert(self.rules()[p] == self.productions@[p].rule());
        assert(self.rules()[q] == self.productions@[q].rule());
        items::lemma_item_complete(
            self.rules(),
            self.lex(),
            self.root(),
            w,
            k,
            j,
            p,
            self.dot(waiter),
            waiter.origin as int,
            q,
        );
    }

    /// Membership of a column does not depend on later bytes.
    proof fn lemma_in_prefix(&self, w: Seq<u8>, v: Seq<u8>, j: int, item: EarleyItem)
        requires
            0 <= j <= w.len(),
            j <= v.len(),
            w.take(j) == v.take(j),
        ensures
            self.in_column(w, j, item) == self.in_column(v, j, item),
    {
        if self.valid(item) {
            items::lemma_item_prefix(
                self.rules(),
                self.lex(),
                self.root(),
                w,
                v,
                j,
                self.production(item),
                self.dot(item),
                item.origin as int,
            );
        }
    }

    /// Every item of the last column belongs to it.
    proof fn lemma_last_sound(
        &self,
        leo: bool,
        chart: Seq<ChartColumn>,
        scans: Seq<ActiveScan>,
        seeds: int,
        w: Seq<u8>,
        k: int,
    )
        requires
            self.last_worked(leo, chart, scans, seeds, w),
            0 <= k < chart[w.len() as int].items@.len(),
        ensures
            self.in_column(w, w.len() as int, chart[w.len() as int].items@[k]),
        decreases k,
    {
        let c = w.len() as int;
        let column = chart[c];
        let list = column.items@;
        let item = list[k];
        let prior = chart.take(c);
        if k >= seeds {
            reveal(CompiledEarley::worked);
            assert(self.justified(prior, column.position, list, k));
            let m = choose|m: int|
                0 <= m < k && #[trigger] self.follows(prior, column.position, list, m, list[k]);
            self.lemma_last_sound(leo, chart, scans, seeds, w, m);
            let source = list[m];
            self.lemma_rules();
            self.lemma_item(source);
            let q = self.production(source);
            assert(self.rules()[q] == self.productions@[q].rule());
            assert(self.item_ok(list[m], c));
            match self.next(source) {
                Some(Symbol::Nonterminal(a)) => {
                    if item.origin == column.position && self.is_start_id(a, item.dotted) {
                        let p = choose|p: int|
                            #![trigger self.productions@[p]]
                            0 <= p < self.productions@.len() && self.productions@[p].lhs == a
                                && self.dotted_offsets@[p] == item.dotted;
                        self.lemma_item_of(p, 0, item.origin);
                        assert(self.rules()[p] == self.productions@[p].rule());
                        items::lemma_item_predict(
                            self.rules(),
                            self.lex(),
                            self.root(),
                            w,
                            c,
                            q,
                            self.dot(source),
                            source.origin as int,
                            p,
                        );
                    } else {
                        self.lemma_nullable(w, c, a);
                        let n = choose|n: nat|
                            derivation::derives(
                                self.rules(),
                                self.lex(),
                                n,
                                Symbol::Nonterminal(a),
                                w,
                                c,
                                c,
                            );
                        items::lemma_item_over_symbol(
                            self.rules(),
                            self.lex(),
                            self.root(),
                            n,
                            w,
                            c,
                            c,
                            q,
                            self.dot(source),
                            source.origin as int,
                        );
                    }
                },
                Some(Symbol::Terminal(_)) => {},
                None => {
                    let lhs = self.lhs(source);
                    let o = source.origin as int;
                    if o < c {
                        reveal(CompiledEarley::column_exact);
                        assert(self.column_exact(chart, o, w));
                        assert(prior[o] == chart[o]);
                        let waiting = chart[o].waiting_nonterminal@;
                        let leo_map = chart[o].leo_by_postdot@;
                        if leo_map.dom().contains(lhs) && item == leo_map[lhs] {
                            assert(self.leads_to(w, o, lhs, item));
                            assert(w.take(o) == w.take(o));
                        } else {
                            let waiter = choose|waiter: EarleyItem| #[trigger]
                                earley::waits(waiting, lhs, waiter) && item == self.advanced(
                                    waiter,
                                );
                            assert(earley::waits(waiting, lhs, waiter));
                            self.lemma_in_complete(w, o, c, waiter, source);
                        }
                    } else {
                        let x = choose|x: int|
                            0 <= x < m && self.next(#[trigger] list[x]) == Some(
                                Symbol::Nonterminal(lhs),
                            ) && item == self.advanced(list[x]);
                        self.lemma_last_sound(leo, chart, scans, seeds, w, x);
                        self.lemma_in_complete(w, c, c, list[x], source);
                    }
                },
            }
        }
    }

    /// The item of a production, a dot and an origin.
    pub open spec fn item_of(&self, p: int, dot: int, i: int) -> EarleyItem {
        EarleyItem { dotted: (self.dotted_offsets@[p] + dot) as u32, origin: i as u32 }
    }

    proof fn lemma_in_item_of(&self, w: Seq<u8>, j: int, p: int, dot: int, i: int)
        requires
            self.wf(),
            items::item_in(self.rules(), self.lex(), self.root(), w, j, p, dot, i),
            i <= u32::MAX,
        ensures
            self.in_column(w, j, self.item_of(p, dot, i)),
            self.production(self.item_of(p, dot, i)) == p,
            self.dot(self.item_of(p, dot, i)) == dot,
            self.item_of(p, dot, i).origin == i,
            0 <= p < self.productions@.len(),
            0 <= dot <= self.productions@[p].rhs@.len(),
            dot > 0 ==> self.advanced(self.item_of(p, dot - 1, i)) == self.item_of(p, dot, i),
    {
        self.lemma_rules();
        items::lemma_item_bounds(self.rules(), self.lex(), self.root(), w, j, p, dot, i);
        assert(self.rules()[p] == self.productions@[p].rule());
        self.lemma_item_of(p, dot, i as u32);
        if dot > 0 {
            self.lemma_item_of(p, dot - 1, i as u32);
        }
    }

    /// An item that belongs to an exact column and is not complete is in it.
    proof fn lemma_incomplete_there(
        &self,
        chart: Seq<ChartColumn>,
        d: int,
        w: Seq<u8>,
        item: EarleyItem,
    )
        requires
            self.column_exact(chart, d, w),
            self.in_column(w, d, item),
            self.next(item) is Some,
        ensures
            chart[d].items@.contains(item),
            self.next(item) matches Some(Symbol::Nonterminal(a)) ==> earley::waits(
                chart[d].waiting_nonterminal@,
                a,
                item,
            ),
            self.next(item) matches Some(Symbol::Terminal(t)) ==> earley::waits(
                chart[d].waiting_terminal@,
                t,
                item,
            ),
    {
        reveal(CompiledEarley::column_exact);
        assert(self.covered(chart, d, item));
    }

    /// Every item that belongs to the last column is covered by it.
    proof fn lemma_last_complete(
        &self,
        leo: bool,
        chart: Seq<ChartColumn>,
        scans: Seq<ActiveScan>,
        seeds: int,
        w: Seq<u8>,
        n: nat,
        p: int,
        dot: int,
        i: int,
    )
        requires
            self.last_worked(leo, chart, scans, seeds, w),
            items::item_within(
                self.rules(),
                self.lex(),
                self.root(),
                n,
                w,
                w.len() as int,
                p,
                dot,
                i,
            ),
        ensures
            self.covered(chart, w.len() as int, self.item_of(p, dot, i)),
        decreases n,
    {
        let c = w.len() as int;
        let column = chart[c];
        let list = column.items@;
        let prior = chart.take(c);
        let rules = self.rules();
        let item = self.item_of(p, dot, i);
        let n1 = (n - 1) as nat;
        self.lemma_rules();
        self.lemma_in_item_of(w, c, p, dot, i);
        self.lemma_item(item);
        assert(rules[p] == self.productions@[p].rule());
        if dot == 0 {
            if !(p == self.root() && c == 0) {
                let (q, d, k) = choose|q: int, d: int, k: int| #[trigger]
                    items::item_at(q, d, k) && items::item_within(
                        rules,
                        self.lex(),
                        self.root(),
                        n1,
                        w,
                        c,
                        q,
                        d,
                        k,
                    ) && d < rules[q].rhs.len() && rules[q].rhs[d] == Symbol::Nonterminal(
                        rules[p].lhs,
                    );
                let waiter = self.item_of(q, d, k);
                self.lemma_in_item_of(w, c, q, d, k);
                self.lemma_item(waiter);
                assert(rules[q] == self.productions@[q].rule());
                self.lemma_last_complete(leo, chart, scans, seeds, w, n1, q, d, k);
                assert(list.contains(waiter));
                let m = choose|m: int| 0 <= m < list.len() && list[m] == waiter;
                reveal(CompiledEarley::worked);
                assert(self.closed_at(leo, prior, column.position, list, scans, m));
                assert(self.productions@[p].lhs == rules[p].lhs);
                assert(list.contains(self.predicted(p, column.position)));
                assert(item == self.predicted(p, column.position));
            } else {
                assert(item == self.predicted(self.root(), 0));
            }
        } else {
            match rules[p].rhs[dot - 1] {
                Symbol::Terminal(t) => {
                    assert(self.in_column(w, c, item));
                },
                Symbol::Nonterminal(b) => {
                    let (k, q) = choose|k: int, q: int| #[trigger]
                        items::item_at(q, rules[q].rhs.len() as int, k) && k <= c
                            && items::item_within(
                            rules,
                            self.lex(),
                            self.root(),
                            n1,
                            w,
                            k,
                            p,
                            dot - 1,
                            i,
                        ) && rules[q].lhs == b && items::item_within(
                            rules,
                            self.lex(),
                            self.root(),
                            n1,
                            w,
                            c,
                            q,
                            rules[q].rhs.len() as int,
                            k,
                        );
                    let len = rules[q].rhs.len() as int;
                    let waiter = self.item_of(p, dot - 1, i);
                    let done = self.item_of(q, len, k);
                    self.lemma_in_item_of(w, k, p, dot - 1, i);
                    self.lemma_in_item_of(w, c, q, len, k);
                    self.lemma_item(waiter);
                    self.lemma_item(done);
                    assert(rules[q] == self.productions@[q].rule());
                    assert(self.advanced(waiter) == item);
                    self.lemma_last_complete(leo, chart, scans, seeds, w, n1, q, len, k);
                    reveal(CompiledEarley::worked);
                    if k < c {
                        assert(self.column_exact(chart, k, w));
                        self.lemma_incomplete_there(chart, k, w, waiter);
                        assert(earley::waits(chart[k].waiting_nonterminal@, b, waiter));
                        assert(prior[k] == chart[k]);
                        let leo_map = chart[k].leo_by_postdot@;
                        if self.production(done) == self.root() {
                            assert(self.productions@[self.root()].lhs
                                == self.grammar.nonterminals@.len());
                        }
                        if list.contains(done) {
                            let m = choose|m: int| 0 <= m < list.len() && list[m] == done;
                            assert(self.closed_at(leo, prior, column.position, list, scans, m));
                        }
                        if leo_map.dom().contains(b) {
                            assert(leo);
                            assert(list.contains(leo_map[b]));
                            self.lemma_leo_covers(chart, c, w, k, b, waiter);
                        }
                    } else {
                        self.lemma_last_complete(leo, chart, scans, seeds, w, n1, p, dot - 1, i);
                        assert(list.contains(waiter));
                        let m = choose|m: int| 0 <= m < list.len() && list[m] == waiter;
                        assert(self.closed_at(leo, prior, column.position, list, scans, m));
                        items::lemma_item_sound(
                            rules,
                            self.lex(),
                            self.root(),
                            n1,
                            w,
                            c,
                            q,
                            len,
                            k,
                        );
                        assert(rules[q].rhs.take(len) =~= rules[q].rhs);
                        derivation::lemma_yields_rule(rules, self.lex(), q, w, k, c);
                        self.lemma_nullable(w, c, b);
                    }
                },
            }
        }
    }

    /// Where a shortcut for `b` from column `k` leads to an item of column `c`, the item that the
    /// only waiter moves to is covered.
    proof fn lemma_leo_covers(
        &self,
        chart: Seq<ChartColumn>,
        c: int,
        w: Seq<u8>,
        k: int,
        b: u32,
        waiter: EarleyItem,
    )
        requires
            self.wf(),
            0 <= k < c < chart.len(),
            self.column_exact(chart, k, w),
            earley::waits(chart[k].waiting_nonterminal@, b, waiter),
            chart[k].leo_by_postdot@.dom().contains(b),
            chart[c].items@.contains(chart[k].leo_by_postdot@[b]),
        ensures
            self.covered(chart, c, self.advanced(waiter)),
    {
        reveal(CompiledEarley::column_exact);
        let only = choose|only: EarleyItem|
            self.leo_waiter(chart[k], b, only) && chart[k].leo_by_postdot@[b]
                == #[trigger] self.leo_target(chart.take(k), only);
        assert(only == waiter);
        assert(chart[k].items@.contains(waiter));
        assert(self.in_column(w, k, waiter));
        self.lemma_item(waiter);
        self.lemma_item(self.advanced(waiter));
        let moved = self.advanced(waiter);
        if moved.origin < k {
            assert(chart.take(k)[moved.origin as int] == chart[moved.origin as int]);
        }
    }

    /// A last column that was worked off is that of the chart.
    pub proof fn lemma_last_exact(
        &self,
        leo: bool,
        chart: Seq<ChartColumn>,
        scans: Seq<ActiveScan>,
        seeds: int,
        w: Seq<u8>,
    )
        requires
            self.last_worked(leo, chart, scans, seeds, w),
        ensures
            self.column_exact(chart, w.len() as int, w),
    {
        let c = w.len() as int;
        let column = chart[c];
        let list = column.items@;
        let prior = chart.take(c);
        assert forall|item: EarleyItem| #[trigger] list.contains(item) implies self.in_column(
            w,
            c,
            item,
        ) by {
            let k = choose|k: int| 0 <= k < list.len() && list[k] == item;
            self.lemma_last_sound(leo, chart, scans, seeds, w, k);
        }
        assert forall|item: EarleyItem| #[trigger] self.in_column(w, c, item) implies self.covered(
            chart,
            c,
            item,
        ) by {
            let (p, dot, i) = (self.production(item), self.dot(item), item.origin as int);
            let n = choose|n: nat|
                items::item_within(self.rules(), self.lex(), self.root(), n, w, c, p, dot, i);
            self.lemma_last_complete(leo, chart, scans, seeds, w, n, p, dot, i);
            self.lemma_item(item);
            assert(self.item_of(p, dot, i) == item);
        }
        assert forall|a: u32, item: EarleyItem| #[trigger]
            earley::waits(column.waiting_nonterminal@, a, item) <==> list.contains(item)
                && self.next(item) == Some(Symbol::Nonterminal(a)) by {
            reveal(CompiledEarley::worked);
            if earley::waits(column.waiting_nonterminal@, a, item) {
                let x = choose|x: int| 0 <= x < list.len() && #[trigger] list[x] == item;
                assert(list.contains(list[x]));
            }
            if list.contains(item) && self.next(item) == Some(Symbol::Nonterminal(a)) {
                let x = choose|x: int| 0 <= x < list.len() && list[x] == item;
                assert(earley::waits(column.waiting_nonterminal@, a, list[x]));
            }
        }
        assert forall|t: u32, item: EarleyItem| #[trigger]
            earley::waits(column.waiting_terminal@, t, item) <==> list.contains(item) && self.next(
                item,
            ) == Some(Symbol::Terminal(t)) by {
            reveal(CompiledEarley::worked);
            if earley::waits(column.waiting_terminal@, t, item) {
                let x = choose|x: int| 0 <= x < list.len() && #[trigger] list[x] == item;
                assert(list.contains(list[x]));
            }
            if list.contains(item) && self.next(item) == Some(Symbol::Terminal(t)) {
                let x = choose|x: int| 0 <= x < list.len() && list[x] == item;
                assert(earley::waits(column.waiting_terminal@, t, list[x]));
            }
        }
        assert forall|a: u32| #[trigger]
            column.leo_by_postdot@.dom().contains(a) implies self.leads_to(
            w,
            c,
            a,
            column.leo_by_postdot@[a],
        ) by {
            let waiter = choose|waiter: EarleyItem|
                self.leo_waiter(column, a, waiter) && column.leo_by_postdot@[a]
                    == #[trigger] self.leo_target(prior, waiter);
            assert(earley::waits(column.waiting_nonterminal@, a, waiter));
            assert(list.contains(waiter));
            self.lemma_item(waiter);
            let moved = self.advanced(waiter);
            self.lemma_item(moved);
            let target = column.leo_by_postdot@[a];
            assert forall|v: Seq<u8>, j: int, item: EarleyItem|
                c <= v.len() && v.take(c) == w.take(c) && self.next(item) is None && self.lhs(item)
                    == a && item.origin == c && #[trigger] self.in_column(
                    v,
                    j,
                    item,
                ) implies self.in_column(v, j, target) by {
                self.lemma_in_prefix(w, v, c, waiter);
                self.lemma_in_complete(v, c, j, waiter, item);
                if target != moved {
                    let o = moved.origin as int;
                    assert(prior[o] == chart[o]);
                    assert(self.column_exact(chart, o, w));
                    reveal(CompiledEarley::column_exact);
                    assert(self.leads_to(w, o, self.lhs(moved), target));
                    assert(v.take(o) =~= v.take(c).take(o));
                    assert(w.take(o) =~= w.take(c).take(o));
                }
            }
        }
        reveal(CompiledEarley::column_exact);
    }

    /// A column stays exact when the chart and the string grow.
    pub proof fn lemma_exact_grow(
        &self,
        chart: Seq<ChartColumn>,
        more: Seq<ChartColumn>,
        c: int,
        w: Seq<u8>,
        v: Seq<u8>,
    )
        requires
            self.column_exact(chart, c, w),
            0 <= c < chart.len() <= more.len(),
            c <= w.len() <= v.len(),
            forall|d: int| 0 <= d <= c ==> #[trigger] more[d] == chart[d],
            v.take(c) == w.take(c),
        ensures
            self.column_exact(more, c, v),
    {
        reveal(CompiledEarley::column_exact);
        assert(more.take(c) =~= chart.take(c));
        assert forall|item: EarleyItem| #[trigger] self.in_column(v, c, item) == self.in_column(
            w,
            c,
            item,
        ) by {
            self.lemma_in_prefix(w, v, c, item);
        }
        assert forall|item: EarleyItem| #[trigger] more[c].items@.contains(
            item,
        ) implies self.in_column(v, c, item) by {
            assert(chart[c].items@.contains(item));
        }
        assert forall|a: u32| #[trigger]
            more[c].leo_by_postdot@.dom().contains(a) implies self.leads_to(
            v,
            c,
            a,
            more[c].leo_by_postdot@[a],
        ) by {
            assert(chart[c].leo_by_postdot@.dom().contains(a));
            assert(self.leads_to(w, c, a, chart[c].leo_by_postdot@[a]));
        }
    }

    /// The last column accepts exactly if the grammar generates the string.
    pub proof fn lemma_accepts(&self, chart: Seq<ChartColumn>, w: Seq<u8>)
        requires
            self.wf(),
            chart.len() == w.len() + 1,
            self.column_exact(chart, w.len() as int, w),
            forall|d: int| 0 <= d < w.len() ==> #[trigger] self.column_exact(chart, d, w),
        ensures
            chart.last().items@.contains(
                (EarleyItem { dotted: self.augmented_complete, origin: 0 }),
            ) <==> self.grammar.generates(w),
    {
        let c = w.len() as int;
        let root = self.root();
        let done = EarleyItem { dotted: self.augmented_complete, origin: 0 };
        self.lemma_rules();
        assert(self.rules()[root] == self.productions@[root].rule());
        self.lemma_item_of(root, 1, 0);
        self.lemma_item(done);
        items::lemma_item_accepts(self.rules(), self.lex(), root, self.grammar.start, w);
        derivation::lemma_yields_unused_rule(
            self.grammar.rules(),
            self.lex(),
            Rule {
                lhs: self.grammar.nonterminals@.len() as u32,
                rhs: seq![Symbol::Nonterminal(self.grammar.start)],
            },
            Symbol::Nonterminal(self.grammar.start),
            w,
            0,
            c,
        );
        assert(self.in_column(w, c, done) <==> self.grammar.generates(w));
        reveal(CompiledEarley::column_exact);
        if self.in_column(w, c, done) && !chart[c].items@.contains(done) {
            assert(self.covered(chart, c, done));
            let a = self.lhs(done);
            assert(a == self.grammar.nonterminals@.len());
            assert(self.column_exact(chart, 0, w));
            let waiter = choose|waiter: EarleyItem|
                self.leo_waiter(chart[0], a, waiter) && chart[0].leo_by_postdot@[a]
                    == #[trigger] self.leo_target(chart.take(0), waiter);
            assert(earley::waits(chart[0].waiting_nonterminal@, a, waiter));
            assert(chart[0].items@.contains(waiter));
            assert(self.in_column(w, 0, waiter));
            self.lemma_item(waiter);
        }
    }
}

impl CompiledEarley {
    /// Whether `scan` is one that `w` leaves open: an item waits for its terminal where it starts,
    /// and what follows there is a proper prefix of a word of the terminal, or nothing yet.
    pub open spec fn scan_open(
        &self,
        chart: Seq<ChartColumn>,
        w: Seq<u8>,
        scan: ActiveScan,
    ) -> bool {
        let terminal = self.grammar.terminals@[scan.terminal as int];
        &&& scan.terminal < self.grammar.terminals@.len()
        &&& scan.start <= w.len()
        &&& exists|waiter: EarleyItem| #[trigger]
            earley::waits(chart[scan.start as int].waiting_terminal@, scan.terminal, waiter)
        &&& terminal.read(w.subrange(scan.start as int, w.len() as int)) == Some(scan.cursor)
        &&& scan.start < w.len() ==> terminal.spec_live(scan.cursor)
    }

    /// Whether `scans` are those that `w` leaves open.
    pub open spec fn scans_exact(
        &self,
        chart: Seq<ChartColumn>,
        w: Seq<u8>,
        scans: Seq<ActiveScan>,
    ) -> bool {
        forall|scan: ActiveScan| #[trigger]
            scans.contains(scan) <==> self.scan_open(chart, w, scan)
    }

    /// A terminal that covers the end of `w` is being scanned.
    pub proof fn lemma_open_scanned(
        &self,
        chart: Seq<ChartColumn>,
        w: Seq<u8>,
        rest: Seq<u8>,
        scans: Seq<ActiveScan>,
        open: items::OpenTerminal,
    )
        requires
            self.wf(),
            chart.len() == w.len() + 1,
            w.len() <= u32::MAX,
            forall|d: int| 0 <= d <= w.len() ==> #[trigger] self.column_exact(chart, d, w),
            self.scans_exact(chart, w, scans),
            items::item_in(
                self.rules(),
                self.lex(),
                self.root(),
                w,
                open.c,
                open.production,
                open.dot,
                open.origin,
            ),
            items::open_at(self.rules(), self.lex(), self.root(), w + rest, w.len() as int, open),
        ensures
            scans.len() > 0,
    {
        self.lemma_rules();
        let all = w + rest;
        let p = open.production;
        let origin = open.origin as u32;
        let item = EarleyItem { dotted: (self.dotted_offsets@[p] + open.dot) as u32, origin };
        assert(self.rules()[p] == self.productions@[p].rule());
        self.lemma_item_of(p, open.dot, origin);
        self.lemma_item(item);
        assert(self.in_column(w, open.c, item));
        assert(self.column_exact(chart, open.c, w));
        reveal(CompiledEarley::column_exact);
        assert(self.covered(chart, open.c, item));
        assert(chart[open.c].items@.contains(item));
        assert(earley::waits(chart[open.c].waiting_terminal@, open.terminal, item));
        let terminal = self.grammar.terminals@[open.terminal as int];
        let word = all.subrange(open.c, open.e);
        let read = w.len() - open.c;
        terminal.lemma_match_live(word, read);
        assert(word.take(read) =~= w.subrange(open.c, w.len() as int));
        let cursor = terminal.read(word.take(read))->0;
        let scan = ActiveScan { terminal: open.terminal, start: open.c as u32, cursor };
        assert(self.scan_open(chart, w, scan));
        assert(scans.contains(scan));
    }

    /// A scan that is open in one exact chart is open in every other.
    proof fn lemma_scan_shared(
        &self,
        chart: Seq<ChartColumn>,
        other: Seq<ChartColumn>,
        w: Seq<u8>,
        scan: ActiveScan,
    )
        requires
            forall|d: int| 0 <= d <= w.len() ==> #[trigger] self.column_exact(chart, d, w),
            forall|d: int| 0 <= d <= w.len() ==> #[trigger] self.column_exact(other, d, w),
            self.scan_open(chart, w, scan),
        ensures
            self.scan_open(other, w, scan),
    {
        let d = scan.start as int;
        let waiter = choose|waiter: EarleyItem| #[trigger]
            earley::waits(chart[d].waiting_terminal@, scan.terminal, waiter);
        assert(self.column_exact(chart, d, w));
        assert(self.column_exact(other, d, w));
        assert(chart[d].items@.contains(waiter) && self.next(waiter) == Some(
            Symbol::Terminal(scan.terminal),
        ) && self.in_column(w, d, waiter)) by {
            reveal(CompiledEarley::column_exact);
        }
        self.lemma_incomplete_there(other, d, w, waiter);
        assert(earley::waits(other[d].waiting_terminal@, scan.terminal, waiter));
    }

    /// Exact charts leave the same scans open.
    pub proof fn lemma_same_scans(
        &self,
        chart: Seq<ChartColumn>,
        other: Seq<ChartColumn>,
        w: Seq<u8>,
        scans: Seq<ActiveScan>,
        others: Seq<ActiveScan>,
    )
        requires
            forall|d: int| 0 <= d <= w.len() ==> #[trigger] self.column_exact(chart, d, w),
            forall|d: int| 0 <= d <= w.len() ==> #[trigger] self.column_exact(other, d, w),
            self.scans_exact(chart, w, scans),
            self.scans_exact(other, w, others),
        ensures
            forall|scan: ActiveScan| #[trigger] scans.contains(scan) <==> others.contains(scan),
    {
        assert forall|scan: ActiveScan| #[trigger] scans.contains(scan) <==> others.contains(
            scan,
        ) by {
            if scans.contains(scan) {
                self.lemma_scan_shared(chart, other, w, scan);
            }
            if others.contains(scan) {
                self.lemma_scan_shared(other, chart, w, scan);
            }
        }
    }

    /// An exact column's set of keys is that of its items.
    pub proof fn lemma_exact_keyed(&self, chart: Seq<ChartColumn>, c: int, w: Seq<u8>)
        requires
            self.column_exact(chart, c, w),
        ensures
            chart[c].keyed(),
    {
        reveal(CompiledEarley::column_exact);
    }

    /// The first column of a chart, worked off from the starting item, is exact.
    pub proof fn lemma_first_column(
        &self,
        leo: bool,
        chart: Seq<ChartColumn>,
        created: Seq<ActiveScan>,
    )
        requires
            self.wf(),
            self.grammar.nullable_exact(),
            chart.len() == 1,
            chart[0].position == 0,
            chart[0].keyed(),
            self.column_ok(chart[0], 0),
            self.worked(
                leo,
                chart.drop_last(),
                chart[0],
                created,
                1,
                chart[0].items@.len() as int,
            ),
            self.leo_is(chart.drop_last(), chart[0]),
            !leo ==> chart[0].leo_by_postdot@.dom() == Set::<u32>::empty(),
            chart[0].items@[0] == self.predicted(self.root(), 0),
            chart[0].items@.contains(self.predicted(self.root(), 0)),
        ensures
            self.column_exact(chart, 0, Seq::empty()),
    {
        let w = Seq::<u8>::empty();
        assert(chart.take(0) =~= chart.drop_last());
        self.lemma_rules();
        items::lemma_item_start(self.rules(), self.lex(), self.root(), w);
        self.lemma_item_of(self.root(), 0, 0);
        assert(self.in_column(w, 0, self.predicted(self.root(), 0)));
        assert forall|item: EarleyItem| #[trigger]
            self.in_column(w, 0, item) && self.dot(item) > 0 && self.productions@[self.production(
                item,
            )].rhs@[self.dot(item) - 1] is Terminal implies chart[0].items@.contains(item) by {
            self.lemma_item(item);
            self.lemma_scanned_from(w, 0, item);
        }
        self.lemma_last_exact(leo, chart, created, 1, w);
    }

    /// An item whose dot is behind a terminal came from an item before it, in an earlier column.
    proof fn lemma_scanned_from(&self, w: Seq<u8>, c: int, item: EarleyItem) -> (k: int)
        requires
            self.wf(),
            self.in_column(w, c, item),
            self.dot(item) > 0,
            self.productions@[self.production(item)].rhs@[self.dot(item) - 1] is Terminal,
            c <= u32::MAX,
        ensures
            0 <= k < c <= w.len(),
            ({
                let t = (self.productions@[self.production(item)].rhs@[self.dot(item)
                    - 1])->Terminal_0;
                let source = self.item_of(
                    self.production(item),
                    self.dot(item) - 1,
                    item.origin as int,
                );
                &&& t < self.grammar.terminals@.len()
                &&& self.in_column(w, k, source)
                &&& self.next(source) == Some(Symbol::Terminal(t))
                &&& self.advanced(source) == item
                &&& self.grammar.terminals@[t as int].matches(w.subrange(k, c))
            }),
    {
        self.lemma_rules();
        self.lemma_item(item);
        let rules = self.rules();
        let (p, dot, i) = (self.production(item), self.dot(item), item.origin as int);
        let n = choose|n: nat|
            items::item_within(rules, self.lex(), self.root(), n, w, c, p, dot, i);
        assert(rules[p] == self.productions@[p].rule());
        let t = rules[p].rhs[dot - 1]->Terminal_0;
        let n1 = (n - 1) as nat;
        let k = choose|k: int| #[trigger]
            derivation::at(k) && k <= c && items::item_within(
                rules,
                self.lex(),
                self.root(),
                n1,
                w,
                k,
                p,
                dot - 1,
                i,
            ) && (self.lex())(t, w.subrange(k, c));
        self.lemma_in_item_of(w, k, p, dot - 1, i);
        self.lemma_in_item_of(w, c, p, dot, i);
        self.lemma_item(self.item_of(p, dot - 1, i));
        assert(self.item_of(p, dot, i) == item);
        k
    }

    /// The next column, seeded by the scans and worked off, is exact.
    pub proof fn lemma_next_column(
        &self,
        leo: bool,
        before: Seq<ChartColumn>,
        chart: Seq<ChartColumn>,
        scans: Seq<ActiveScan>,
        created: Seq<ActiveScan>,
        seeds: Seq<EarleyItem>,
        h: Seq<u8>,
        byte: u8,
    )
        requires
            self.wf(),
            self.grammar.nullable_exact(),
            before.len() == h.len() + 1,
            forall|c: int| 0 <= c <= h.len() ==> #[trigger] self.column_exact(before, c, h),
            self.scans_exact(before, h, scans),
            chart.len() == before.len() + 1,
            chart.drop_last() == before,
            chart.last().position == h.len() + 1,
            chart.last().keyed(),
            self.column_ok(chart.last(), before.len() as int),
            self.seeded(before, scans, scans.len() as int, byte, seeds),
            seeds.len() <= chart.last().items@.len(),
            forall|k: int|
                0 <= k < seeds.len() ==> #[trigger] chart.last().items@[k] == seeds[k],
            self.worked(
                leo,
                before,
                chart.last(),
                created,
                seeds.len() as int,
                chart.last().items@.len() as int,
            ),
            self.leo_is(before, chart.last()),
            !leo ==> forall|c: int|
                0 <= c <= h.len() ==> (#[trigger] before[c]).leo_by_postdot@.dom() == Set::<
                    u32,
                >::empty(),
            !leo ==> chart.last().leo_by_postdot@.dom() == Set::<u32>::empty(),
        ensures
            forall|c: int|
                0 <= c <= h.len() + 1 ==> #[trigger] self.column_exact(chart, c, h.push(byte)),
    {
        let w = h.push(byte);
        let c = w.len() as int;
        let column = chart[c];
        assert(chart.take(c) =~= before);
        assert forall|d: int| 0 <= d < c implies #[trigger] self.column_exact(chart, d, w) by {
            assert(self.column_exact(before, d, h));
            assert(w.take(d) =~= h.take(d));
            assert forall|e: int| 0 <= e <= d implies #[trigger] chart[e] == before[e] by {
                assert(chart.drop_last()[e] == before[e]);
            }
            self.lemma_exact_grow(before, chart, d, h, w);
        }
        assert forall|k: int| 0 <= k < seeds.len() implies self.in_column(
            w,
            c,
            #[trigger] column.items@[k],
        ) by {
            reveal(CompiledEarley::seeded);
            assert(column.items@[k] == seeds[k]);
            assert(self.scanned_by(before, scans, scans.len() as int, byte, seeds[k]));
            let i = choose|i: int|
                0 <= i < scans.len() && #[trigger] self.scanned(before, scans[i], byte, seeds[k]);
            self.lemma_scan_sound(before, scans, scans[i], seeds[k], h, byte);
        }
        assert forall|item: EarleyItem| #[trigger]
            self.in_column(w, c, item) && self.dot(item) > 0 && self.productions@[self.production(
                item,
            )].rhs@[self.dot(item) - 1] is Terminal implies column.items@.contains(item) by {
            self.lemma_scan_complete(before, scans, item, h, byte);
            let scan = choose|scan: ActiveScan|
                scans.contains(scan) && #[trigger] self.scanned(before, scan, byte, item);
            let i = choose|i: int| 0 <= i < scans.len() && scans[i] == scan;
            reveal(CompiledEarley::seeded);
            assert(self.scanned(before, scans[i], byte, item));
            assert(seeds.contains(item));
            let k = choose|k: int| 0 <= k < seeds.len() && seeds[k] == item;
            assert(column.items@[k] == item);
        }
        if !leo {
            assert forall|d: int| 0 <= d <= c implies (
            #[trigger] chart[d]).leo_by_postdot@.dom() == Set::<u32>::empty() by {
                if d < c {
                    assert(chart.drop_last()[d] == before[d]);
                }
            }
        }
        self.lemma_last_exact(leo, chart, created, seeds.len() as int, w);
    }

    /// What a scan completes belongs to the next column.
    proof fn lemma_scan_sound(
        &self,
        before: Seq<ChartColumn>,
        scans: Seq<ActiveScan>,
        scan: ActiveScan,
        item: EarleyItem,
        h: Seq<u8>,
        byte: u8,
    )
        requires
            self.wf(),
            before.len() == h.len() + 1,
            forall|c: int| 0 <= c <= h.len() ==> #[trigger] self.column_exact(before, c, h),
            self.scans_exact(before, h, scans),
            scans.contains(scan),
            self.scanned(before, scan, byte, item),
        ensures
            self.in_column(h.push(byte), (h.len() + 1) as int, item),
    {
        let w = h.push(byte);
        let c = w.len() as int;
        let k = scan.start as int;
        let t = scan.terminal;
        assert(self.scan_open(before, h, scan));
        let waiter = choose|waiter: EarleyItem| #[trigger]
            earley::waits(before[k].waiting_terminal@, t, waiter) && item == self.advanced(waiter);
        assert(self.column_exact(before, k, h));
        reveal(CompiledEarley::column_exact);
        assert(self.in_column(h, k, waiter));
        assert(w.take(k) =~= h.take(k));
        self.lemma_in_prefix(h, w, k, waiter);
        self.lemma_item(waiter);
        self.lemma_rules();
        let p = self.production(waiter);
        assert(self.rules()[p] == self.productions@[p].rule());
        let part = w.subrange(k, c);
        assert(part.drop_last() =~= h.subrange(k, h.len() as int));
        assert(part.last() == byte);
        assert(self.grammar.terminals@[t as int].matches(part));
        items::lemma_item_scan(
            self.rules(),
            self.lex(),
            self.root(),
            w,
            k,
            c,
            p,
            self.dot(waiter),
            waiter.origin as int,
            t,
        );
    }

    /// What belongs to the next column behind a terminal, a scan completes.
    proof fn lemma_scan_complete(
        &self,
        before: Seq<ChartColumn>,
        scans: Seq<ActiveScan>,
        item: EarleyItem,
        h: Seq<u8>,
        byte: u8,
    )
        requires
            self.wf(),
            before.len() == h.len() + 1,
            h.len() + 1 <= u32::MAX,
            forall|c: int| 0 <= c <= h.len() ==> #[trigger] self.column_exact(before, c, h),
            self.scans_exact(before, h, scans),
            self.in_column(h.push(byte), (h.len() + 1) as int, item),
            self.dot(item) > 0,
            self.productions@[self.production(item)].rhs@[self.dot(item) - 1] is Terminal,
        ensures
            exists|scan: ActiveScan|
                scans.contains(scan) && #[trigger] self.scanned(before, scan, byte, item),
    {
        let w = h.push(byte);
        let c = w.len() as int;
        self.lemma_item(item);
        let t = (self.productions@[self.production(item)].rhs@[self.dot(item) - 1])->Terminal_0;
        let k = self.lemma_scanned_from(w, c, item);
        let source = self.item_of(self.production(item), self.dot(item) - 1, item.origin as int);
        assert(w.take(k) =~= h.take(k));
        self.lemma_in_prefix(h, w, k, source);
        assert(self.column_exact(before, k, h));
        self.lemma_incomplete_there(before, k, h, source);
        let terminal = self.grammar.terminals@[t as int];
        let part = w.subrange(k, c);
        let read = h.subrange(k, h.len() as int);
        assert(part.take(part.len() - 1) =~= read);
        assert(part.drop_last() =~= read);
        assert(part.last() == byte);
        terminal.lemma_match_live(part, part.len() - 1);
        let scan = ActiveScan { terminal: t, start: k as u32, cursor: terminal.read(read)->0 };
        assert(self.scan_open(before, h, scan)) by {
            assert(earley::waits(before[k].waiting_terminal@, t, source));
        }
        assert(scans.contains(scan));
        assert(self.scanned(before, scan, byte, item)) by {
            assert(earley::waits(before[k].waiting_terminal@, t, source));
        }
    }

    /// At the start, the scans that are created are those that are open.
    pub proof fn lemma_scans_first(
        &self,
        leo: bool,
        chart: Seq<ChartColumn>,
        created: Seq<ActiveScan>,
    )
        requires
            self.wf(),
            chart.len() == 1,
            chart[0].position == 0,
            self.worked(
                leo,
                chart.drop_last(),
                chart[0],
                created,
                1,
                chart[0].items@.len() as int,
            ),
            self.column_ok(chart[0], 0),
        ensures
            self.scans_exact(chart, Seq::empty(), created),
    {
        let w = Seq::<u8>::empty();
        assert forall|scan: ActiveScan| #[trigger] created.contains(scan) <==> self.scan_open(
            chart,
            w,
            scan,
        ) by {
            self.lemma_created(leo, chart.drop_last(), chart[0], created, 1, 0, scan);
            assert(w.subrange(0, 0).len() == 0);
            if self.scan_open(chart, w, scan) {
                assert(scan.start == 0);
                assert(w.subrange(scan.start as int, 0).len() == 0);
            }
        }
    }

    /// The scans that are created start where an item waits for their terminal.
    proof fn lemma_created(
        &self,
        leo: bool,
        prior: Seq<ChartColumn>,
        column: ChartColumn,
        created: Seq<ActiveScan>,
        seeds: int,
        c: int,
        scan: ActiveScan,
    )
        requires
            self.wf(),
            column.position == c,
            self.worked(leo, prior, column, created, seeds, column.items@.len() as int),
            self.column_ok(column, c),
        ensures
            created.contains(scan) <==> {
                &&& scan.start == c
                &&& scan.terminal < self.grammar.terminals@.len()
                &&& exists|waiter: EarleyItem| #[trigger]
                    earley::waits(column.waiting_terminal@, scan.terminal, waiter)
                &&& scan.cursor == self.grammar.terminals@[scan.terminal as int].spec_start()
            },
    {
        reveal(CompiledEarley::worked);
        let list = column.items@;
        if created.contains(scan) {
            let x = choose|x: int|
                0 <= x < list.len() && self.next(#[trigger] list[x]) == Some(
                    Symbol::Terminal(scan.terminal),
                );
            assert(self.item_ok(list[x], c));
            self.lemma_item(list[x]);
            assert(earley::waits(column.waiting_terminal@, scan.terminal, list[x]));
        }
        if scan.start == c && scan.cursor
            == self.grammar.terminals@[scan.terminal as int].spec_start() && (exists|
            waiter: EarleyItem,
        | #[trigger]
            earley::waits(column.waiting_terminal@, scan.terminal, waiter)) {
            let waiter = choose|waiter: EarleyItem| #[trigger]
                earley::waits(column.waiting_terminal@, scan.terminal, waiter);
            let x = choose|x: int| 0 <= x < list.len() && #[trigger] list[x] == waiter;
            assert(self.closed_at(leo, prior, column.position, list, created, x));
            assert(scan == self.new_scan(scan.terminal, column.position));
        }
    }

    /// After one more byte, the scans that continue and those that are created are the open ones.
    pub proof fn lemma_next_scans(
        &self,
        leo: bool,
        before: Seq<ChartColumn>,
        chart: Seq<ChartColumn>,
        scans: Seq<ActiveScan>,
        continuing: Seq<ActiveScan>,
        created: Seq<ActiveScan>,
        all: Seq<ActiveScan>,
        seeds: int,
        h: Seq<u8>,
        byte: u8,
    )
        requires
            self.wf(),
            before.len() == h.len() + 1,
            self.scans_exact(before, h, scans),
            chart.len() == before.len() + 1,
            chart.drop_last() == before,
            chart.last().position == h.len() + 1,
            self.column_ok(chart.last(), before.len() as int),
            self.worked(
                leo,
                before,
                chart.last(),
                created,
                seeds,
                chart.last().items@.len() as int,
            ),
            self.continued(scans, scans.len() as int, byte, continuing),
            forall|scan: ActiveScan| #[trigger]
                all.contains(scan) <==> continuing.contains(scan) || created.contains(scan),
        ensures
            self.scans_exact(chart, h.push(byte), all),
    {
        let w = h.push(byte);
        let c = w.len() as int;
        reveal(CompiledEarley::continued);
        assert forall|scan: ActiveScan| #[trigger] all.contains(scan) <==> self.scan_open(
            chart,
            w,
            scan,
        ) by {
            let k = scan.start as int;
            let terminal = self.grammar.terminals@[scan.terminal as int];
            self.lemma_created(leo, before, chart.last(), created, seeds, c, scan);
            assert(w.subrange(c, c).len() == 0);
            if 0 <= k < c {
                assert(chart.drop_last()[k] == before[k]);
                let part = w.subrange(k, c);
                let read = h.subrange(k, h.len() as int);
                assert(part.drop_last() =~= read);
                assert(part.last() == byte);
                if continuing.contains(scan) {
                    let i = choose|i: int|
                        0 <= i < scans.len() && #[trigger] self.continues(scans[i], byte, scan);
                    assert(scans.contains(scans[i]));
                    assert(self.scan_open(before, h, scans[i]));
                }
                if self.scan_open(chart, w, scan) {
                    let old_scan = ActiveScan {
                        terminal: scan.terminal,
                        start: scan.start,
                        cursor: terminal.read(read)->0,
                    };
                    assert(terminal.wf());
                    if k < h.len() {
                        terminal.lemma_live_before(part);
                    }
                    assert(self.scan_open(before, h, old_scan));
                    assert(scans.contains(old_scan));
                    let i = choose|i: int| 0 <= i < scans.len() && scans[i] == old_scan;
                    assert(self.continues(scans[i], byte, scan));
                }
            } else {
                if continuing.contains(scan) {
                    let i = choose|i: int|
                        0 <= i < scans.len() && #[trigger] self.continues(scans[i], byte, scan);
                    assert(scans.contains(scans[i]));
                    assert(self.scan_open(before, h, scans[i]));
                }
            }
        }
    }
}

} // verus!
