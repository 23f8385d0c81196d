//! Incremental Earley recognition with nullable closure and optional Leo completion.

use std::sync::Arc;

use rustc_hash::{FxHashMap, FxHashSet};
use vstd::prelude::*;

use crate::count;
use crate::derivation;
use crate::derivation::{Lex, Rule};
use crate::error::{
    enforce_compile_limit, enforce_runtime_limit, to_u32, usize_to_u64, CompileError, CompileStage,
    RuntimeError, RuntimeResource,
};
use crate::fx;
use crate::items;
use crate::residual;
use crate::residual::{ResidualGrammar, TerminalCursorState};
use crate::schema::{CompileLimits, RuntimeLimits};
use crate::symbol::{NonterminalId, ProductionId, Symbol, TerminalId};

verus! {

pub type DottedId = u32;

/// A production with a position in it.
#[derive(Clone, Copy, Debug, PartialEq, Eq)]
pub struct DottedRule {
    pub production: ProductionId,
    pub dot: u32,
    pub next: Option<Symbol>,
    pub advanced: Option<DottedId>,
    pub lhs: NonterminalId,
}

/// A dotted rule and the column that it was predicted in.
#[derive(Clone, Copy, Debug, PartialEq, Eq, Structural, Hash)]
pub struct EarleyItem {
    pub dotted: DottedId,
    pub origin: u32,
}

/// Counts of a recognizer's work.
#[derive(Clone, Copy, Debug, PartialEq, Eq)]
pub struct EarleyStats {
    pub columns: u64,
    pub items_inserted: u64,
    pub duplicate_items: u64,
    pub predictions: u64,
    pub scans: u64,
    pub completions: u64,
    pub nullable_advances: u64,
    pub leo_candidates: u64,
    pub leo_hits: u64,
    pub max_column_items: u64,
    pub max_active_scans: u64,
    pub estimated_bytes: u64,
}

impl Default for EarleyStats {
    fn default() -> (stats: Self)
        ensures
            stats == (EarleyStats {
                columns: 0,
                items_inserted: 0,
                duplicate_items: 0,
                predictions: 0,
                scans: 0,
                completions: 0,
                nullable_advances: 0,
                leo_candidates: 0,
                leo_hits: 0,
                max_column_items: 0,
                max_active_scans: 0,
                estimated_bytes: 0,
            }),
    {
        EarleyStats {
            columns: 0,
            items_inserted: 0,
            duplicate_items: 0,
            predictions: 0,
            scans: 0,
            completions: 0,
            nullable_advances: 0,
            leo_candidates: 0,
            leo_hits: 0,
            max_column_items: 0,
            max_active_scans: 0,
            estimated_bytes: 0,
        }
    }
}

/// A count with so many more, or the largest that there is.
pub open spec fn more_of(count: u64, more: int) -> u64 {
    if count + more > u64::MAX {
        u64::MAX
    } else {
        (count + more) as u64
    }
}

/// The larger of two counts.
pub open spec fn larger_of(one: u64, other: int) -> u64 {
    if one < other {
        other as u64
    } else {
        one
    }
}

/// The counts after `more` shortcuts were noted.
pub open spec fn with_candidates(stats: EarleyStats, more: nat) -> EarleyStats {
    EarleyStats {
        leo_candidates: more_of(stats.leo_candidates, more as int),
        ..stats
    }
}

/// The items after some number of bytes.
#[derive(Debug, PartialEq, Eq)]
pub struct ChartColumn {
    pub position: u32,
    pub items: Vec<EarleyItem>,
    pub membership: FxHashSet<u64>,
    pub waiting_nonterminal: FxHashMap<NonterminalId, Vec<EarleyItem>>,
    pub waiting_terminal: FxHashMap<TerminalId, Vec<EarleyItem>>,
    pub leo_by_postdot: FxHashMap<NonterminalId, EarleyItem>,
}

/// A terminal that is being read.
#[derive(Clone, Copy, Debug, PartialEq, Eq, Structural, Hash)]
pub struct ActiveScan {
    pub terminal: TerminalId,
    pub start: u32,
    pub cursor: TerminalCursorState,
}

/// A production as the recognizer walks it.
#[derive(Clone, Debug, PartialEq, Eq)]
pub struct EarleyProduction {
    pub lhs: NonterminalId,
    pub rhs: Vec<Symbol>,
}

/// A residual grammar with its dotted rules.
#[derive(Debug, PartialEq, Eq)]
pub struct CompiledEarley {
    pub grammar: Arc<ResidualGrammar>,
    pub productions: Vec<EarleyProduction>,
    pub dotted: Vec<DottedRule>,
    pub dotted_offsets: Vec<DottedId>,
    pub starts_by_lhs: Vec<Vec<DottedId>>,
    pub augmented_production: ProductionId,
    pub augmented_complete: DottedId,
    pub nullable_nonterminals: usize,
    pub leo_eligible_rules: usize,
}

/// A state of a recognizer to which it can go back.
#[derive(Debug, PartialEq, Eq)]
pub struct EarleyCheckpoint {
    pub generation: u64,
    pub column_count: usize,
    pub active_scans: Vec<ActiveScan>,
    pub byte_position: u32,
    pub total_items: usize,
    pub leo_items: usize,
    pub stats: EarleyStats,
}

impl Clone for EarleyCheckpoint {
    fn clone(&self) -> (copy: Self)
        ensures
            copy.generation == self.generation,
            copy.column_count == self.column_count,
            copy.active_scans@ == self.active_scans@,
            copy.byte_position == self.byte_position,
            copy.total_items == self.total_items,
            copy.leo_items == self.leo_items,
            copy.stats == self.stats,
    {
        let active_scans = self.active_scans.clone();
        assert(active_scans@ =~= self.active_scans@);
        EarleyCheckpoint {
            generation: self.generation,
            column_count: self.column_count,
            active_scans,
            byte_position: self.byte_position,
            total_items: self.total_items,
            leo_items: self.leo_items,
            stats: self.stats,
        }
    }
}

/// An incremental recognizer.
#[derive(Debug, PartialEq, Eq)]
pub struct EarleyRecognizer {
    pub compiled: Arc<CompiledEarley>,
    pub limits: RuntimeLimits,
    pub leo_enabled: bool,
    pub generation: u64,
    pub chart: Vec<ChartColumn>,
    pub active_scans: Vec<ActiveScan>,
    pub byte_position: u32,
    pub total_items: usize,
    pub leo_items: usize,
    pub stats: EarleyStats,
}

/// The number that stands for an item in a column's set.
pub open spec fn item_key(item: EarleyItem) -> int {
    item.dotted * 0x1_0000_0000 + item.origin
}

/// Whether `waiting` lists `item` under `id`.
pub open spec fn waits(waiting: Map<u32, Vec<EarleyItem>>, id: u32, item: EarleyItem) -> bool {
    waiting.dom().contains(id) && waiting[id]@.contains(item)
}

impl EarleyProduction {
    pub open spec fn rule(self) -> Rule {
        Rule { lhs: self.lhs, rhs: self.rhs@ }
    }
}

impl ChartColumn {
    fn new(position: u32) -> (column: Self)
        ensures
            column.position == position,
            column.fresh(),
            column.items@.len() == 0,
            column.keyed(),
    {
        ChartColumn {
            position,
            items: Vec::new(),
            membership: fx::set_new(),
            waiting_nonterminal: fx::map_new(),
            waiting_terminal: fx::map_new(),
            leo_by_postdot: fx::map_new(),
        }
    }

    /// Whether nothing waits yet.
    pub open spec fn fresh(self) -> bool {
        &&& self.waiting_nonterminal@.dom() == Set::<u32>::empty()
        &&& self.waiting_terminal@.dom() == Set::<u32>::empty()
        &&& self.leo_by_postdot@.dom() == Set::<u32>::empty()
    }

    /// Whether the set of keys is that of the items, of which none is there twice.
    pub open spec fn keyed(self) -> bool {
        &&& self.items@.no_duplicates()
        &&& forall|item: EarleyItem|
            #![trigger self.items@.contains(item)]
            self.items@.contains(item) <==> self.membership@.contains(item_key(item) as u64)
    }
}

/// A sequence with one more element contains that and what it contained before.
pub proof fn lemma_push_contains<A>(items: Seq<A>, item: A, other: A)
    ensures
        items.push(item).contains(other) <==> items.contains(other) || other == item,
{
    let more = items.push(item);
    if items.contains(other) {
        let i = choose|i: int| 0 <= i < items.len() && items[i] == other;
        assert(more[i] == other);
    }
    if other == item {
        assert(more[items.len() as int] == other);
    }
}

/// The key of an item as a machine integer.
fn pack(item: EarleyItem) -> (key: u64)
    ensures
        key == item_key(item),
{
    let dotted: u64 = item.dotted as u64;
    let origin: u64 = item.origin as u64;
    assert((dotted << 32) | origin == dotted * 0x1_0000_0000 + origin) by (bit_vector)
        requires
            dotted <= 0xFFFF_FFFF,
            origin <= 0xFFFF_FFFF,
    ;
    (dotted << 32) | origin
}

/// Whether `dotted` holds the dotted rules of the first `count` productions, each production's
/// from its offset on.
#[verifier::opaque]
pub open spec fn dotted_tables(
    productions: Seq<EarleyProduction>,
    offsets: Seq<u32>,
    dotted: Seq<DottedRule>,
    count: int,
) -> bool {
    &&& offsets.len() == count <= productions.len()
    &&& dotted.len() <= u32::MAX + 1
    &&& forall|p: int, dot: int|
        0 <= p < count && 0 <= dot <= productions[p].rhs@.len() ==> {
            &&& offsets[p] + dot < dotted.len()
            &&& #[trigger] dotted_rule_of(productions[p], offsets[p], p, dot) == dotted[offsets[p]
                + dot]
            &&& p <= u32::MAX
        }
    &&& forall|id: int|
        0 <= id < dotted.len() ==> {
            let rule = #[trigger] dotted[id];
            let p = rule.production as int;
            &&& p < count
            &&& rule.dot <= productions[p].rhs@.len()
            &&& offsets[p] + rule.dot == id
            &&& rule == dotted_rule_of(productions[p], offsets[p], p, rule.dot as int)
        }
}

/// Whether `id` is the first dotted rule of one of the first `count` productions of `a`.
pub open spec fn is_start(
    productions: Seq<EarleyProduction>,
    offsets: Seq<u32>,
    count: int,
    a: int,
    id: u32,
) -> bool {
    exists|p: int|
        #![trigger productions[p]]
        0 <= p < count && productions[p].lhs == a && offsets[p] == id
}

/// Whether `starts` lists the first dotted rules of the first `count` productions by left-hand
/// side.
#[verifier::opaque]
pub open spec fn starts_tables(
    productions: Seq<EarleyProduction>,
    offsets: Seq<u32>,
    starts: Seq<Vec<DottedId>>,
    count: int,
) -> bool {
    &&& offsets.len() == count <= productions.len()
    &&& forall|p: int|
        0 <= p < count ==> starts[(#[trigger] productions[p]).lhs as int]@.contains(offsets[p])
    &&& forall|a: int, k: int|
        #![trigger starts[a]@[k]]
        0 <= a < starts.len() && 0 <= k < starts[a]@.len() ==> is_start(
            productions,
            offsets,
            count,
            a,
            starts[a]@[k],
        )
}

/// One more production's dotted rules complete the table for one more production.
proof fn lemma_dotted_grew(
    productions: Seq<EarleyProduction>,
    offsets: Seq<u32>,
    before: Seq<DottedRule>,
    dotted: Seq<DottedRule>,
    count: int,
    offset: u32,
)
    requires
        dotted_tables(productions, offsets, before, count),
        0 <= count < productions.len(),
        count <= u32::MAX,
        before.len() == offset,
        dotted.len() == offset + productions[count].rhs@.len() + 1,
        dotted.len() <= u32::MAX + 1,
        forall|id: int| 0 <= id < offset ==> #[trigger] dotted[id] == before[id],
        forall|d: int|
            0 <= d <= productions[count].rhs@.len() ==> dotted[offset + d]
                == #[trigger] dotted_rule_of(productions[count], offset, count, d),
    ensures
        dotted_tables(productions, offsets.push(offset), dotted, count + 1),
{
    reveal(dotted_tables);
    let more = offsets.push(offset);
    assert forall|p: int, dot: int|
        0 <= p < count + 1 && 0 <= dot <= productions[p].rhs@.len() implies {
        &&& more[p] + dot < dotted.len()
        &&& #[trigger] dotted_rule_of(productions[p], more[p], p, dot) == dotted[more[p] + dot]
        &&& p <= u32::MAX
    } by {
        if p < count {
            assert(dotted_rule_of(productions[p], offsets[p], p, dot) == before[offsets[p] + dot]);
        } else {
            assert(dotted_rule_of(productions[count], offset, count, dot) == dotted[offset + dot]);
        }
    }
    assert forall|id: int| 0 <= id < dotted.len() implies {
        let rule = #[trigger] dotted[id];
        let p = rule.production as int;
        &&& p < count + 1
        &&& rule.dot <= productions[p].rhs@.len()
        &&& more[p] + rule.dot == id
        &&& rule == dotted_rule_of(productions[p], more[p], p, rule.dot as int)
    } by {
        if id < offset {
            assert(dotted[id] == before[id]);
        } else {
            let d = id - offset;
            assert(dotted[offset + d] == dotted_rule_of(productions[count], offset, count, d));
        }
    }
}

/// One more offset completes the starts for one more production.
proof fn lemma_starts_grew(
    productions: Seq<EarleyProduction>,
    offsets: Seq<u32>,
    before: Seq<Vec<DottedId>>,
    starts: Seq<Vec<DottedId>>,
    count: int,
    offset: u32,
)
    requires
        starts_tables(productions, offsets, before, count),
        0 <= count < productions.len(),
        forall|p: int|
            0 <= p < productions.len() ==> (#[trigger] productions[p]).lhs < before.len(),
        starts.len() == before.len(),
        forall|a: int|
            0 <= a < before.len() ==> (#[trigger] starts[a])@ == (if a == productions[count].lhs {
                before[a]@.push(offset)
            } else {
                before[a]@
            }),
    ensures
        starts_tables(productions, offsets.push(offset), starts, count + 1),
{
    reveal(starts_tables);
    let more = offsets.push(offset);
    assert forall|p: int| 0 <= p < count + 1 implies starts[(
    #[trigger] productions[p]).lhs as int]@.contains(more[p]) by {
        let a = productions[p].lhs as int;
        if p < count {
            assert(before[a]@.contains(offsets[p]));
            let k = choose|k: int| 0 <= k < before[a]@.len() && before[a]@[k] == offsets[p];
            assert(starts[a]@[k] == more[p]);
        } else {
            let last = starts[a]@.len() - 1;
            assert(starts[a]@[last] == offset);
        }
    }
    assert forall|a: int, k: int|
        #![trigger starts[a]@[k]]
        0 <= a < starts.len() && 0 <= k < starts[a]@.len() implies is_start(
        productions,
        more,
        count + 1,
        a,
        starts[a]@[k],
    ) by {
        if k < before[a]@.len() {
            assert(before[a]@[k] == starts[a]@[k]);
            assert(is_start(productions, offsets, count, a, before[a]@[k]));
            let p = choose|p: int|
                #![trigger productions[p]]
                0 <= p < count && productions[p].lhs == a && offsets[p] == before[a]@[k];
            assert(more[p] == starts[a]@[k]);
            assert(productions[p].lhs == a);
        } else {
            assert(productions[count].lhs == a);
        }
    }
}

impl CompiledEarley {
    /// The productions, with the one that recognition starts with as the last.
    pub open spec fn rules(&self) -> Seq<Rule> {
        self.productions@.map_values(|production: EarleyProduction| production.rule())
    }

    /// The languages of the terminals.
    pub open spec fn lex(&self) -> Lex {
        self.grammar.lex()
    }

    pub open spec fn root(&self) -> int {
        self.augmented_production as int
    }

    pub open spec fn rule(&self, p: int) -> Rule {
        self.productions@[p].rule()
    }

    /// Whether the dotted rules are those of the first `count` productions.
    pub open spec fn dotted_for(&self, count: int) -> bool {
        dotted_tables(self.productions@, self.dotted_offsets@, self.dotted@, count)
    }

    /// Whether the starts are those of the first `count` productions.
    pub open spec fn starts_for(&self, count: int) -> bool {
        &&& self.starts_by_lhs@.len() == self.grammar.nonterminals@.len() + 1
        &&& starts_tables(self.productions@, self.dotted_offsets@, self.starts_by_lhs@, count)
    }

    /// Whether the productions are those of the grammar, with one more for the start.
    pub open spec fn productions_ok(&self) -> bool {
        let count = self.grammar.productions@.len() as int;
        &&& self.productions@.len() == count + 1
        &&& self.augmented_production == count
        &&& forall|p: int|
            0 <= p < count ==> (#[trigger] self.productions@[p]).lhs
                == self.grammar.productions@[p].lhs && self.productions@[p].rhs@
                == self.grammar.productions@[p].rhs@
        &&& self.productions@[count].lhs == self.grammar.nonterminals@.len()
        &&& self.productions@[count].rhs@ == seq![Symbol::Nonterminal(self.grammar.start)]
    }

    /// What holds of every compiled grammar.
    pub open spec fn wf(&self) -> bool {
        &&& self.grammar.wf()
        &&& self.productions_ok()
        &&& self.dotted_for(self.productions@.len() as int)
        &&& self.starts_for(self.productions@.len() as int)
        &&& self.augmented_complete == self.dotted_offsets@[self.augmented_production as int] + 1
    }

    /// Adds the dotted rules of the production at `position`.
    fn push_dotted(&mut self, position: usize, limit: usize) -> (result: Result<(), CompileError>)
        requires
            old(self).grammar.wf(),
            old(self).productions_ok(),
            old(self).productions@.len() <= u32::MAX + 1,
            position < old(self).productions@.len(),
            old(self).dotted_for(position as int),
            old(self).starts_for(position as int),
        ensures
            final(self).grammar == old(self).grammar,
            final(self).productions == old(self).productions,
            final(self).augmented_production == old(self).augmented_production,
            final(self).nullable_nonterminals == old(self).nullable_nonterminals,
            final(self).leo_eligible_rules == old(self).leo_eligible_rules,
            result is Ok ==> {
                &&& final(self).dotted_for(position + 1)
                &&& final(self).starts_for(position + 1)
                &&& final(self).dotted@.len() == old(self).dotted@.len()
                    + old(self).productions@[position as int].rhs@.len() + 1
            },
            ({
                let total = old(self).dotted@.len() + old(self).productions@[position as int].rhs@.len()
                    + 1;
                &&& result is Ok <==> count::saturated(total) <= limit && total <= u32::MAX + 1
                &&& result matches Err(e)
                    ==> e matches CompileError::ResourceLimitExceeded { stage, observed, limit: bound }
                    && stage == CompileStage::EarleyPreparation && ((bound == limit < observed
                    == count::saturated(total)) || (bound == u32::MAX && observed == u32::MAX + 1
                    && observed < total))
            }),
    {
        proof {
            reveal(dotted_tables);
        }
        let stage = CompileStage::EarleyPreparation;
        let length: usize = self.productions[position].rhs.len();
        let lhs: u32 = self.productions[position].lhs;
        let observed: usize = self.dotted.len().saturating_add(length).saturating_add(1);
        match enforce_compile_limit(stage, observed, limit) {
            Ok(()) => {},
            Err(error) => {
                return Err(error);
            },
        }
        let offset: u32 = match to_u32(self.dotted.len(), stage) {
            Ok(id) => id,
            Err(error) => {
                return Err(error);
            },
        };
        let production: u32 = position as u32;
        let ghost before = *self;
        proof {
            reveal(starts_tables);
            assert(self.productions@[position as int].lhs < self.starts_by_lhs@.len());
        }
        self.dotted_offsets.push(offset);
        self.starts_by_lhs[lhs as usize].push(offset);
        let mut dot: usize = 0;
        while dot < length
            invariant
                dot <= length,
                stage == CompileStage::EarleyPreparation,
                position < self.productions@.len(),
                production == position,
                length == self.productions@[position as int].rhs@.len(),
                lhs == self.productions@[position as int].lhs,
                self.productions == before.productions,
                self.grammar == before.grammar,
                self.augmented_production == before.augmented_production,
                self.nullable_nonterminals == before.nullable_nonterminals,
                self.leo_eligible_rules == before.leo_eligible_rules,
                self.dotted_offsets@ == before.dotted_offsets@.push(offset),
                self.starts_by_lhs@.len() == before.starts_by_lhs@.len(),
                forall|a: int|
                    0 <= a < before.starts_by_lhs@.len() ==> (#[trigger] self.starts_by_lhs@[a])@
                        == (if a == lhs {
                        before.starts_by_lhs@[a]@.push(offset)
                    } else {
                        before.starts_by_lhs@[a]@
                    }),
                before.dotted@.len() == offset,
                self.dotted@.len() == offset + dot,
                self.dotted@.len() <= u32::MAX + 1,
                count::saturated((offset + length + 1) as nat) <= limit,
                *old(self) == before,
                forall|id: int|
                    0 <= id < offset ==> #[trigger] self.dotted@[id] == before.dotted@[id],
                forall|d: int|
                    0 <= d < dot ==> self.dotted@[offset + d] == #[trigger] dotted_rule_of(
                        before.productions@[position as int],
                        offset,
                        position as int,
                        d,
                    ),
            decreases length - dot,
        {
            let id: u32 = match to_u32(self.dotted.len(), stage) {
                Ok(id) => id,
                Err(error) => {
                    return Err(error);
                },
            };
            let next: Symbol = self.productions[position].rhs[dot];
            self.dotted.push(
                DottedRule {
                    production,
                    dot: dot as u32,
                    next: Some(next),
                    advanced: Some(id.saturating_add(1)),
                    lhs,
                },
            );
            dot += 1;
        }
        match to_u32(self.dotted.len(), stage) {
            Ok(_) => {},
            Err(error) => {
                return Err(error);
            },
        }
        self.dotted.push(
            DottedRule { production, dot: length as u32, next: None, advanced: None, lhs },
        );
        proof {
            lemma_dotted_grew(
                self.productions@,
                before.dotted_offsets@,
                before.dotted@,
                self.dotted@,
                position as int,
                offset,
            );
            lemma_starts_grew(
                self.productions@,
                before.dotted_offsets@,
                before.starts_by_lhs@,
                self.starts_by_lhs@,
                position as int,
                offset,
            );
        }
        Ok(())
    }

    /// Prepares a grammar for recognition.
    pub fn build(grammar: Arc<ResidualGrammar>, limits: &CompileLimits) -> (result: Result<
        Self,
        CompileError,
    >)
        requires
            grammar.wf(),
        ensures
            result matches Ok(compiled) ==> compiled.wf() && compiled.grammar == grammar
                && compiled.nullable_nonterminals == count::count_true(grammar.nullable@)
                && compiled.leo_eligible_rules == count_right_recursive(compiled.rules()),
            result is Ok <==> grammar.nonterminals@.len() <= u32::MAX && grammar.productions@.len()
                <= u32::MAX && count::saturated(dotted_total(grammar.rules()) + 2) <= limits.max_lr_items
                && dotted_total(grammar.rules()) + 2 <= u32::MAX + 1,
            result matches Err(e) ==> preparation_error(&grammar, limits.max_lr_items, e),
    {
        let stage = CompileStage::EarleyPreparation;
        let augmented: u32 = match to_u32(grammar.nonterminals.len(), stage) {
            Ok(id) => id,
            Err(error) => {
                return Err(error);
            },
        };
        let mut productions: Vec<EarleyProduction> = copy_productions(&grammar);
        let augmented_production: u32 = match to_u32(productions.len(), stage) {
            Ok(id) => id,
            Err(error) => {
                return Err(error);
            },
        };
        let mut start_rhs: Vec<Symbol> = Vec::new();
        start_rhs.push(Symbol::Nonterminal(grammar.start));
        assert(start_rhs@ =~= seq![Symbol::Nonterminal(grammar.start)]);
        productions.push(EarleyProduction { lhs: augmented, rhs: start_rhs });
        let nullable_nonterminals: usize = count::count_marks(&grammar.nullable);
        let leo_eligible_rules: usize = count_eligible(&productions);
        let mut starts_by_lhs: Vec<Vec<DottedId>> = count::empty_lists(grammar.nonterminals.len());
        starts_by_lhs.push(Vec::new());
        let mut compiled = CompiledEarley {
            grammar,
            productions,
            dotted: Vec::new(),
            dotted_offsets: Vec::new(),
            starts_by_lhs,
            augmented_production,
            augmented_complete: 0,
            nullable_nonterminals,
            leo_eligible_rules,
        };
        let ghost rules = compiled.rules();
        proof {
            assert(rules.drop_last() =~= compiled.grammar.rules()) by {
                assert forall|p: int| 0 <= p < compiled.grammar.productions@.len() implies rules[p]
                    == compiled.grammar.rules()[p] by {
                    assert(compiled.productions@[p].lhs == compiled.grammar.productions@[p].lhs);
                }
            }
            assert(rules.last().rhs.len() == 1);
            assert(dotted_total(rules) == dotted_total(compiled.grammar.rules()) + 2);
            assert(rules.take(rules.len() as int) =~= rules);
            assert(rules.take(0).len() == 0);
            assert(compiled.dotted_for(0)) by {
                reveal(dotted_tables);
            }
            assert(compiled.starts_for(0)) by {
                reveal(starts_tables);
            }
        }
        let mut position: usize = 0;
        while position < compiled.productions.len()
            invariant
                position <= compiled.productions@.len() <= u32::MAX + 1,
                compiled.grammar == grammar,
                compiled.grammar.wf(),
                compiled.productions_ok(),
                compiled.augmented_production == augmented_production,
                compiled.grammar.nonterminals@.len() <= u32::MAX,
                compiled.grammar.productions@.len() <= u32::MAX,
                rules == compiled.rules(),
                rules.len() == compiled.productions@.len(),
                rules.take(rules.len() as int) == rules,
                dotted_total(rules) == dotted_total(compiled.grammar.rules()) + 2,
                compiled.dotted@.len() == dotted_total(rules.take(position as int)),
                position > 0 ==> count::saturated(dotted_total(rules.take(position as int)))
                    <= limits.max_lr_items,
                compiled.dotted_for(position as int),
                compiled.starts_for(position as int),
                compiled.nullable_nonterminals == nullable_nonterminals,
                compiled.leo_eligible_rules == leo_eligible_rules,
            decreases compiled.productions@.len() - position,
        {
            proof {
                lemma_dotted_step(rules, position as int);
                lemma_dotted_mono(rules, position + 1, rules.len() as int);
            }
            match compiled.push_dotted(position, limits.max_lr_items) {
                Ok(()) => {},
                Err(error) => {
                    return Err(error);
                },
            }
            position += 1;
        }
        proof {
            assert(compiled.dotted@.len() <= u32::MAX + 1 && compiled.dotted_offsets@.len()
                == compiled.productions@.len() && compiled.dotted_offsets@[augmented_production as int] < u32::MAX) by {
                reveal(dotted_tables);
                let last = compiled.productions@.len() - 1;
                assert(dotted_rule_of(
                    compiled.productions@[last],
                    compiled.dotted_offsets@[last],
                    last,
                    1,
                ).dot == 1);
            }
        }
        compiled.augmented_complete = compiled.dotted_offsets[augmented_production as usize] + 1;
        Ok(compiled)
    }
}

/// The dotted rule of the production `p`, whose first dotted rule is `offset`.
pub open spec fn dotted_rule_of(
    production: EarleyProduction,
    offset: u32,
    p: int,
    dot: int,
) -> DottedRule {
    let rhs = production.rhs@;
    DottedRule {
        production: p as u32,
        dot: dot as u32,
        next: if dot < rhs.len() {
            Some(rhs[dot])
        } else {
            None
        },
        advanced: if dot >= rhs.len() {
            None
        } else if offset + dot < u32::MAX {
            Some((offset + dot + 1) as u32)
        } else {
            Some(u32::MAX)
        },
        lhs: production.lhs,
    }
}

/// The productions of a grammar, without what recognition does not need.
fn copy_productions(grammar: &ResidualGrammar) -> (productions: Vec<EarleyProduction>)
    ensures
        productions@.len() == grammar.productions@.len(),
        forall|p: int|
            0 <= p < productions@.len() ==> (#[trigger] productions@[p]).lhs
                == grammar.productions@[p].lhs && productions@[p].rhs@
                == grammar.productions@[p].rhs@,
{
    let mut productions: Vec<EarleyProduction> = Vec::new();
    let mut index: usize = 0;
    while index < grammar.productions.len()
        invariant
            index == productions@.len() <= grammar.productions@.len(),
            forall|p: int|
                0 <= p < index ==> (#[trigger] productions@[p]).lhs == grammar.productions@[p].lhs
                    && productions@[p].rhs@ == grammar.productions@[p].rhs@,
        decreases grammar.productions@.len() - index,
    {
        let production = &grammar.productions[index];
        let rhs = production.rhs.clone();
        assert(rhs@ =~= production.rhs@);
        productions.push(EarleyProduction { lhs: production.lhs, rhs });
        index += 1;
    }
    productions
}

/// How many productions end in a nonterminal.
fn count_eligible(productions: &Vec<EarleyProduction>) -> (count: usize)
    ensures
        count == count_right_recursive(
            productions@.map_values(|production: EarleyProduction| production.rule()),
        ),
{
    let ghost rules = productions@.map_values(|production: EarleyProduction| production.rule());
    let mut count: usize = 0;
    let mut index: usize = 0;
    while index < productions.len()
        invariant
            index <= productions@.len(),
            rules == productions@.map_values(|production: EarleyProduction| production.rule()),
            count <= index,
            count == count_right_recursive(rules.take(index as int)),
        decreases productions@.len() - index,
    {
        assert(rules.take(index + 1).drop_last() =~= rules.take(index as int));
        assert(rules.take(index + 1).last().rhs == productions@[index as int].rhs@);
        let length: usize = productions[index].rhs.len();
        if length > 0 {
            if let Symbol::Nonterminal(_) = productions[index].rhs[length - 1] {
                count += 1;
            }
        }
        index += 1;
    }
    assert(rules.take(index as int) =~= rules);
    count
}

/// The errors of preparing a grammar: too many nonterminals or productions for an identifier, or
/// too many dotted rules for the limit or for an identifier.
pub open spec fn preparation_error(grammar: &ResidualGrammar, limit: usize, e: CompileError) -> bool {
    let nonterminals = grammar.nonterminals@.len();
    let productions = grammar.productions@.len();
    let total = dotted_total(grammar.rules()) + 2;
    e matches CompileError::ResourceLimitExceeded { stage, observed, limit: bound } && stage
        == CompileStage::EarleyPreparation && if nonterminals > u32::MAX {
        observed == nonterminals && bound == u32::MAX
    } else if productions > u32::MAX {
        observed == productions && bound == u32::MAX
    } else {
        (bound == limit < observed <= count::saturated(total)) || (bound == u32::MAX && observed
            == u32::MAX + 1 && observed < total)
    }
}

/// One more production adds its dotted rules.
pub proof fn lemma_dotted_step(rules: Seq<Rule>, i: int)
    requires
        0 <= i < rules.len(),
    ensures
        dotted_total(rules.take(i + 1)) == dotted_total(rules.take(i)) + rules[i].rhs.len() + 1,
{
    assert(rules.take(i + 1).drop_last() =~= rules.take(i));
    assert(rules.take(i + 1).last() == rules[i]);
}

/// More productions have no fewer dotted rules.
pub proof fn lemma_dotted_mono(rules: Seq<Rule>, i: int, j: int)
    requires
        0 <= i <= j <= rules.len(),
    ensures
        dotted_total(rules.take(i)) <= dotted_total(rules.take(j)),
    decreases j - i,
{
    if i < j {
        lemma_dotted_mono(rules, i, j - 1);
        lemma_dotted_step(rules, j - 1);
    }
}

/// How many productions end in a nonterminal.
pub open spec fn count_right_recursive(rules: Seq<Rule>) -> nat
    decreases rules.len(),
{
    if rules.len() == 0 {
        0
    } else {
        count_right_recursive(rules.drop_last()) + (if rules.last().rhs.len() > 0
            && rules.last().rhs.last() is Nonterminal {
            1nat
        } else {
            0nat
        })
    }
}

/// The number of dotted rules: one more than its length for each production.
pub open spec fn dotted_total(rules: Seq<Rule>) -> nat
    decreases rules.len(),
{
    if rules.len() == 0 {
        0
    } else {
        dotted_total(rules.drop_last()) + rules.last().rhs.len() + 1
    }
}

impl CompiledEarley {
    /// Whether an item's dotted rule exists.
    pub open spec fn valid(&self, item: EarleyItem) -> bool {
        item.dotted < self.dotted@.len()
    }

    /// The symbol after an item's dot.
    pub open spec fn next(&self, item: EarleyItem) -> Option<Symbol> {
        self.dotted@[item.dotted as int].next
    }

    /// The left-hand side of an item's production.
    pub open spec fn lhs(&self, item: EarleyItem) -> NonterminalId {
        self.dotted@[item.dotted as int].lhs
    }

    /// An item's production.
    pub open spec fn production(&self, item: EarleyItem) -> int {
        self.dotted@[item.dotted as int].production as int
    }

    /// An item's dot.
    pub open spec fn dot(&self, item: EarleyItem) -> int {
        self.dotted@[item.dotted as int].dot as int
    }

    /// An item with its dot one symbol further.
    pub open spec fn advanced(&self, item: EarleyItem) -> EarleyItem {
        EarleyItem { dotted: (item.dotted + 1) as u32, origin: item.origin }
    }

    /// The first item of production `p`, predicted at `position`.
    pub open spec fn predicted(&self, p: int, position: u32) -> EarleyItem {
        EarleyItem { dotted: self.dotted_offsets@[p], origin: position }
    }

    /// What a valid item's dotted rule holds.
    pub proof fn lemma_item(&self, item: EarleyItem)
        requires
            self.wf(),
            self.valid(item),
        ensures
            0 <= self.production(item) < self.productions@.len(),
            0 <= self.dot(item) <= self.productions@[self.production(item)].rhs@.len(),
            self.dotted_offsets@.len() == self.productions@.len(),
            self.dotted_offsets@[self.production(item)] + self.dot(item) == item.dotted,
            self.lhs(item) == self.productions@[self.production(item)].lhs,
            self.next(item) == (if self.dot(item) < self.productions@[self.production(
                item,
            )].rhs@.len() {
                Some(self.productions@[self.production(item)].rhs@[self.dot(item)])
            } else {
                None
            }),
            self.next(item) is Some ==> self.dotted@[item.dotted as int].advanced == Some(
                self.advanced(item).dotted,
            ) && self.valid(self.advanced(item)) && self.advanced(item).dotted == item.dotted + 1
                && self.production(self.advanced(item)) == self.production(item) && self.dot(
                self.advanced(item),
            ) == self.dot(item) + 1,
            self.next(item) matches Some(symbol) ==> residual::symbol_in(
                symbol,
                self.grammar.nonterminals@.len(),
                self.grammar.terminals@.len(),
            ),
    {
        reveal(dotted_tables);
        let rule = self.dotted@[item.dotted as int];
        let p = rule.production as int;
        let dot = rule.dot as int;
        if dot < self.productions@[p].rhs@.len() {
            let next = dotted_rule_of(self.productions@[p], self.dotted_offsets@[p], p, dot + 1);
            assert(next.production == p);
            if p < self.grammar.productions@.len() {
                assert(self.productions@[p].rhs@ == self.grammar.productions@[p].rhs@);
                assert(residual::symbol_in(
                    self.grammar.productions@[p].rhs@[dot],
                    self.grammar.nonterminals@.len(),
                    self.grammar.terminals@.len(),
                ));
            }
        }
    }

    /// The item of a production and a dot.
    pub proof fn lemma_item_of(&self, p: int, dot: int, origin: u32)
        requires
            self.wf(),
            0 <= p < self.productions@.len(),
            0 <= dot <= self.productions@[p].rhs@.len(),
        ensures
            self.dotted_offsets@.len() == self.productions@.len(),
            self.dotted_offsets@[p] + dot <= u32::MAX,
            ({
                let item = EarleyItem {
                    dotted: (self.dotted_offsets@[p] + dot) as u32,
                    origin,
                };
                self.valid(item) && self.production(item) == p && self.dot(item) == dot
            }),
    {
        reveal(dotted_tables);
        assert(dotted_rule_of(self.productions@[p], self.dotted_offsets@[p], p, dot).production
            == p);
    }

    /// What the starts of a nonterminal are.
    proof fn lemma_starts(&self, a: u32)
        requires
            self.wf(),
            a < self.starts_by_lhs@.len(),
        ensures
            forall|k: int|
                0 <= k < self.starts_by_lhs@[a as int]@.len() ==> self.is_start_id(
                    a,
                    #[trigger] self.starts_by_lhs@[a as int]@[k],
                ),
            forall|p: int|
                0 <= p < self.productions@.len() && (#[trigger] self.productions@[p]).lhs == a
                    ==> self.starts_by_lhs@[a as int]@.contains(self.dotted_offsets@[p]),
    {
        reveal(starts_tables);
        assert forall|k: int| 0 <= k < self.starts_by_lhs@[a as int]@.len() implies self.is_start_id(
            a,
            #[trigger] self.starts_by_lhs@[a as int]@[k],
        ) by {
            assert(is_start(
                self.productions@,
                self.dotted_offsets@,
                self.productions@.len() as int,
                a as int,
                self.starts_by_lhs@[a as int]@[k],
            ));
        }
    }

    /// Whether `id` is the first dotted rule of a production of `a`.
    pub open spec fn is_start_id(&self, a: u32, id: u32) -> bool {
        is_start(
            self.productions@,
            self.dotted_offsets@,
            self.productions@.len() as int,
            a as int,
            id,
        )
    }

    /// Whether `item` follows from the item `items[m]` of the column behind `prior`.
    pub open spec fn follows(
        &self,
        prior: Seq<ChartColumn>,
        position: u32,
        items: Seq<EarleyItem>,
        m: int,
        item: EarleyItem,
    ) -> bool {
        let source = items[m];
        match self.next(source) {
            Some(Symbol::Nonterminal(a)) => (item.origin == position && self.is_start_id(
                a,
                item.dotted,
            )) || (self.grammar.nullable@[a as int] && item == self.advanced(source)),
            Some(Symbol::Terminal(_)) => false,
            None => {
                let lhs = self.lhs(source);
                if source.origin < prior.len() {
                    let column = prior[source.origin as int];
                    (column.leo_by_postdot@.dom().contains(lhs) && item
                        == column.leo_by_postdot@[lhs]) || exists|waiter: EarleyItem|
                        #[trigger] waits(column.waiting_nonterminal@, lhs, waiter) && item
                            == self.advanced(waiter)
                } else {
                    exists|w: int|
                        0 <= w < m && self.next(#[trigger] items[w]) == Some(
                            Symbol::Nonterminal(lhs),
                        ) && item == self.advanced(items[w])
                }
            },
        }
    }

    /// Whether everything that `items[m]` gives rise to is there.
    pub open spec fn closed_at(
        &self,
        leo: bool,
        prior: Seq<ChartColumn>,
        position: u32,
        items: Seq<EarleyItem>,
        scans: Seq<ActiveScan>,
        m: int,
    ) -> bool {
        let source = items[m];
        match self.next(source) {
            Some(Symbol::Nonterminal(a)) => {
                &&& forall|p: int|
                    0 <= p < self.productions@.len() && (#[trigger] self.productions@[p]).lhs == a
                        ==> items.contains(self.predicted(p, position))
                &&& self.grammar.nullable@[a as int] ==> items.contains(self.advanced(source))
            },
            Some(Symbol::Terminal(t)) => scans.contains(self.new_scan(t, position)),
            None => {
                let lhs = self.lhs(source);
                if self.production(source) == self.root() {
                    true
                } else if source.origin < prior.len() {
                    let column = prior[source.origin as int];
                    if leo && column.leo_by_postdot@.dom().contains(lhs) {
                        items.contains(column.leo_by_postdot@[lhs])
                    } else {
                        forall|waiter: EarleyItem| #[trigger]
                            waits(column.waiting_nonterminal@, lhs, waiter) ==> items.contains(
                                self.advanced(waiter),
                            )
                    }
                } else {
                    forall|w: int|
                        0 <= w < m && self.next(#[trigger] items[w]) == Some(
                            Symbol::Nonterminal(lhs),
                        ) ==> items.contains(self.advanced(items[w]))
                }
            },
        }
    }

    /// The scan of terminal `t` from `position` on.
    pub open spec fn new_scan(&self, t: u32, position: u32) -> ActiveScan {
        ActiveScan {
            terminal: t,
            start: position,
            cursor: self.grammar.terminals@[t as int].spec_start(),
        }
    }

    /// Whether a scan can be read on.
    pub open spec fn scan_ok(&self, scan: ActiveScan, columns: int) -> bool {
        &&& scan.terminal < self.grammar.terminals@.len()
        &&& scan.start < columns
    }

    /// Whether the column with index `c` can be used without harm.
    pub open spec fn column_ok(&self, column: ChartColumn, c: int) -> bool {
        &&& column.position <= c
        &&& forall|i: int|
            0 <= i < column.items@.len() ==> self.item_ok(#[trigger] column.items@[i], c)
        &&& forall|a: u32, waiter: EarleyItem| #[trigger]
            waits(column.waiting_nonterminal@, a, waiter) ==> self.item_ok(waiter, c) && self.next(
                waiter,
            ) == Some(Symbol::Nonterminal(a))
        &&& forall|t: u32, waiter: EarleyItem| #[trigger]
            waits(column.waiting_terminal@, t, waiter) ==> self.item_ok(waiter, c) && self.next(
                waiter,
            ) == Some(Symbol::Terminal(t))
        &&& forall|a: u32| #[trigger]
            column.leo_by_postdot@.dom().contains(a) ==> self.item_ok(column.leo_by_postdot@[a], c)
    }

    /// Whether an item exists and has an origin up to column `c`.
    pub open spec fn item_ok(&self, item: EarleyItem, c: int) -> bool {
        self.valid(item) && item.origin <= c
    }
}

impl EarleyRecognizer {
    /// What holds of a recognizer, also after an error.
    pub open spec fn wf(&self) -> bool {
        &&& self.compiled.wf()
        &&& self.chart@.len() > 0
        &&& self.byte_position < self.chart@.len()
        &&& forall|c: int|
            0 <= c < self.chart@.len() ==> self.compiled.column_ok(#[trigger] self.chart@[c], c)
        &&& forall|i: int|
            0 <= i < self.active_scans@.len() ==> self.compiled.scan_ok(
                #[trigger] self.active_scans@[i],
                self.chart@.len() as int,
            )
    }

    /// Whether only the last column and the counts differ.
    pub open spec fn same_frame(&self, before: &Self) -> bool {
        &&& self.compiled == before.compiled
        &&& self.limits == before.limits
        &&& self.leo_enabled == before.leo_enabled
        &&& self.generation == before.generation
        &&& self.active_scans == before.active_scans
        &&& self.byte_position == before.byte_position
        &&& self.chart@.len() == before.chart@.len()
        &&& forall|c: int|
            0 <= c < self.chart@.len() - 1 ==> #[trigger] self.chart@[c] == before.chart@[c]
    }

    /// The columns before the last.
    pub open spec fn prior(&self) -> Seq<ChartColumn> {
        self.chart@.drop_last()
    }

    /// The last column.
    pub open spec fn current(&self) -> ChartColumn {
        self.chart@.last()
    }

    /// Whether only the items and their set differ in the last column.
    pub open spec fn same_waiting(&self, before: &Self) -> bool {
        &&& self.current().position == before.current().position
        &&& self.current().waiting_nonterminal == before.current().waiting_nonterminal
        &&& self.current().waiting_terminal == before.current().waiting_terminal
        &&& self.current().leo_by_postdot == before.current().leo_by_postdot
    }

    /// The items of the last column.
    pub open spec fn items(&self) -> Seq<EarleyItem> {
        self.current().items@
    }

    /// The error of one item too many, if there is one.
    pub open spec fn insertion_error(&self) -> Option<RuntimeError> {
        if count::saturated(self.items().len() + 1) > self.limits.max_items_per_column {
            Some(
                RuntimeError::ResourceLimitExceeded {
                    resource: RuntimeResource::ItemsPerColumn,
                    observed: count::saturated(self.items().len() + 1) as usize,
                    limit: self.limits.max_items_per_column,
                },
            )
        } else if self.total_items + 1 > self.limits.max_total_items {
            Some(
                RuntimeError::ResourceLimitExceeded {
                    resource: RuntimeResource::TotalItems,
                    observed: count::saturated((self.total_items + 1) as nat) as usize,
                    limit: self.limits.max_total_items,
                },
            )
        } else {
            None
        }
    }

    /// The error of one shortcut too many.
    pub open spec fn leo_error(&self) -> RuntimeError {
        RuntimeError::ResourceLimitExceeded {
            resource: RuntimeResource::LeoItems,
            observed: count::saturated((self.leo_items + 1) as nat) as usize,
            limit: self.limits.max_leo_items,
        }
    }

    /// Whether an error says that one more item or shortcut is over a limit, and it is.
    pub open spec fn overfull(&self, error: RuntimeError) -> bool {
        ||| self.insertion_error() == Some(error)
        ||| (error matches RuntimeError::ResourceLimitExceeded { resource, limit, .. } && resource
            == RuntimeResource::LeoItems && limit == self.limits.max_leo_items && self.leo_items + 1
            > limit)
    }

    fn dotted(&self, item: EarleyItem) -> (result: Result<DottedRule, RuntimeError>)
        ensures
            self.compiled.valid(item) ==> result == Ok::<_, RuntimeError>(
                self.compiled.dotted@[item.dotted as int],
            ),
            !self.compiled.valid(item) ==> result is Err,
    {
        if (item.dotted as usize) < self.compiled.dotted.len() {
            Ok(self.compiled.dotted[item.dotted as usize])
        } else {
            Err(RuntimeError::InternalInvariant { message: "Earley dotted rule does not exist" })
        }
    }

    fn advance_item(&self, item: EarleyItem) -> (result: Result<EarleyItem, RuntimeError>)
        requires
            self.compiled.wf(),
            self.compiled.valid(item),
        ensures
            self.compiled.next(item) is Some ==> result == Ok::<_, RuntimeError>(
                self.compiled.advanced(item),
            ),
            self.compiled.next(item) is None ==> result is Err,
    {
        proof {
            self.compiled.lemma_item(item);
            reveal(dotted_tables);
        }
        let dotted = match self.dotted(item) {
            Ok(dotted) => dotted,
            Err(error) => {
                return Err(error);
            },
        };
        match dotted.advanced {
            Some(advanced) => Ok(EarleyItem { dotted: advanced, origin: item.origin }),
            None => Err(
                RuntimeError::InternalInvariant { message: "completed Earley item cannot advance" },
            ),
        }
    }

    /// Adds an item to the last column, unless it is there.
    fn insert_item(&mut self, column: usize, item: EarleyItem) -> (result: Result<(), RuntimeError>)
        requires
            old(self).wf(),
            column == old(self).chart@.len() - 1,
            old(self).compiled.item_ok(item, column as int),
            old(self).current().keyed(),
        ensures
            final(self).wf(),
            final(self).same_frame(old(self)),
            final(self).same_waiting(old(self)),
            final(self).leo_items == old(self).leo_items,
            result is Ok <==> old(self).items().contains(item) || old(self).insertion_error()
                is None,
            result matches Err(e) ==> old(self).insertion_error() == Some(e),
            result matches Err(e) ==> final(self).insertion_error() == Some(e),
            result is Err ==> final(self).items() == old(self).items()
                && !old(self).items().contains(item),
            final(self).counted(old(self)),
            result is Ok ==> {
                &&& final(self).current().keyed()
                &&& final(self).items() == (if old(self).items().contains(item) {
                    old(self).items()
                } else {
                    old(self).items().push(item)
                })
                &&& final(self).items().contains(item)
                &&& forall|other: EarleyItem|
                    old(self).items().contains(other) ==> #[trigger] final(self).items().contains(
                        other,
                    )
                &&& old(self).items().len() <= old(self).limits.max_items_per_column
                    ==> final(self).items().len() <= old(self).limits.max_items_per_column
            },
    {
        let key: u64 = pack(item);
        let ghost before = *self;
        assert(before.chart@[column as int].items@.contains(item)
            <==> before.chart@[column as int].membership@.contains(key));
        if !fx::set_insert(&mut self.chart[column].membership, key) {
            self.stats.duplicate_items = self.stats.duplicate_items.saturating_add(1);
            assert(self.chart@[column as int].membership@ =~= before.chart@[column as int].membership@);
            return Ok(());
        }
        let next_column_items: usize = self.chart[column].items.len().saturating_add(1);
        match enforce_runtime_limit(
            RuntimeResource::ItemsPerColumn,
            next_column_items,
            self.limits.max_items_per_column,
        ) {
            Ok(()) => {},
            Err(error) => {
                return Err(error);
            },
        }
        let total: usize = match self.total_items.checked_add(1) {
            Some(total) => total,
            None => {
                return Err(
                    RuntimeError::ResourceLimitExceeded {
                        resource: RuntimeResource::TotalItems,
                        observed: usize::MAX,
                        limit: self.limits.max_total_items,
                    },
                );
            },
        };
        match enforce_runtime_limit(RuntimeResource::TotalItems, total, self.limits.max_total_items) {
            Ok(()) => {},
            Err(error) => {
                return Err(error);
            },
        }
        self.chart[column].items.push(item);
        proof {
            let now = self.chart@[column as int];
            let then = before.chart@[column as int];
            assert(now.items@.len() == now.items.len());
            assert(now.items@.no_duplicates()) by {
                assert forall|i: int, j: int|
                    0 <= i < now.items@.len() && 0 <= j < now.items@.len() && i != j implies
                    now.items@[i] != now.items@[j] by {
                    if i < then.items@.len() {
                        assert(then.items@[i] == now.items@[i]);
                        assert(then.items@.contains(then.items@[i]));
                    }
                    if j < then.items@.len() {
                        assert(then.items@[j] == now.items@[j]);
                        assert(then.items@.contains(then.items@[j]));
                    }
                }
            }
            assert forall|other: EarleyItem|
                #![trigger now.items@.contains(other)]
                (now.items@.contains(other) <==> now.membership@.contains(
                    item_key(other) as u64,
                )) && (then.items@.contains(other) ==> now.items@.contains(other)) by {
                lemma_push_contains(then.items@, item, other);
                assert(then.items@.contains(other) <==> then.membership@.contains(
                    item_key(other) as u64,
                ));
            }
        }
        assert(self.chart@[column as int].items@.contains(item));
        self.total_items = total;
        self.stats.items_inserted = self.stats.items_inserted.saturating_add(1);
        Ok(())
    }

    /// Moves every item that waits for what `item` recognized.
    fn complete(&mut self, column: usize, item: EarleyItem, Ghost(m): Ghost<int>) -> (result: Result<
        (),
        RuntimeError,
    >)
        requires
            old(self).wf(),
            column == old(self).chart@.len() - 1,
            old(self).current().keyed(),
            old(self).items().len() <= old(self).limits.max_items_per_column,
            0 <= m < old(self).items().len(),
            old(self).items()[m] == item,
            old(self).compiled.next(item) is None,
            old(self).current().leo_by_postdot@.dom() == Set::<u32>::empty(),
            old(self).compiled.waiting_is(
                old(self).current().waiting_nonterminal@,
                old(self).items(),
                m,
            ),
        ensures
            final(self).wf(),
            final(self).same_frame(old(self)),
            final(self).same_waiting(old(self)),
            final(self).leo_items == old(self).leo_items,
            result matches Err(e) ==> insertion_failure(e, old(self).limits) && final(self).overfull(e),
            result matches Err(e) ==> final(self).grew(old(self), m) && final(self).bursts(m, e),
            result is Ok ==> {
                &&& final(self).current().keyed()
                &&& final(self).grew(old(self), m)
                &&& final(self).compiled.closed_at(
                    final(self).leo_enabled,
                    final(self).prior(),
                    final(self).current().position,
                    final(self).items(),
                    Seq::empty(),
                    m,
                )
            },
    {
        let ghost before = *self;
        proof {
            self.compiled.lemma_item(item);
            assert(self.compiled.column_ok(self.chart@[column as int], column as int));
            assert(self.compiled.item_ok(self.chart@[column as int].items@[m], column as int));
        }
        let dotted = match self.dotted(item) {
            Ok(dotted) => dotted,
            Err(error) => {
                return Err(error);
            },
        };
        if dotted.production == self.compiled.augmented_production {
            return Ok(());
        }
        let origin: usize = item.origin as usize;
        assert(self.compiled.column_ok(self.chart@[origin as int], origin as int));
        if self.leo_enabled {
            let top = match self.leo_completion(item) {
                Ok(top) => top,
                Err(error) => {
                    return Err(error);
                },
            };
            if let Some(top) = top {
                self.stats.leo_hits = self.stats.leo_hits.saturating_add(1);
                assert(self.chart@ == before.chart@);
                match self.insert_item(column, top) {
                    Ok(()) => {},
                    Err(error) => {
                        proof {
                            assert(self.prior() =~= before.prior());
                            assert(self.items()[m] == item);
                            assert(self.compiled.follows(
                                self.prior(),
                                self.current().position,
                                self.items(),
                                m,
                                top,
                            ));
                        }
                        return Err(error);
                    },
                }
                assert(self.prior() =~= before.prior());
                return Ok(());
            }
        }
        let waiters = match fx::map_get(&self.chart[origin].waiting_nonterminal, dotted.lhs) {
            Some(list) => list.clone(),
            None => Vec::new(),
        };
        let ghost list = self.chart@[origin as int].waiting_nonterminal@;
        assert(forall|waiter: EarleyItem|
            waiters@.contains(waiter) <==> #[trigger] waits(list, dotted.lhs, waiter)) by {
            if list.dom().contains(dotted.lhs) {
                assert(waiters@ =~= list[dotted.lhs]@);
            }
        }
        let mut index: usize = 0;
        while index < waiters.len()
            invariant
                index <= waiters@.len(),
                *old(self) == before,
                self.wf(),
                before.wf(),
                column == before.chart@.len() - 1,
                column == self.chart@.len() - 1,
                self.same_frame(&before),
                self.same_waiting(&before),
                self.leo_items == before.leo_items,
                self.current().keyed(),
                self.grew(&before, m),
                before.items().len() <= before.limits.max_items_per_column,
                0 <= m < before.items().len(),
                before.items()[m] == item,
                item.origin <= column,
                origin == item.origin,
                before.compiled.valid(item),
                before.compiled.next(item) is None,
                dotted.lhs == before.compiled.lhs(item),
                list == before.chart@[origin as int].waiting_nonterminal@,
                before.compiled.waiting_is(before.current().waiting_nonterminal@, before.items(), m),
                forall|waiter: EarleyItem|
                    waiters@.contains(waiter) <==> #[trigger] waits(list, dotted.lhs, waiter),
                forall|i: int|
                    0 <= i < index ==> self.items().contains(
                        self.compiled.advanced(#[trigger] waiters@[i]),
                    ),
            decreases waiters@.len() - index,
        {
            let waiter = waiters[index];
            self.stats.completions = self.stats.completions.saturating_add(1);
            let ghost middle = *self;
            proof {
                assert(waiters@.contains(waiter));
                assert(waits(list, dotted.lhs, waiter));
                assert(before.compiled.column_ok(before.chart@[origin as int], origin as int));
                self.compiled.lemma_item(waiter);
            }
            let advanced = match self.advance_item(waiter) {
                Ok(advanced) => advanced,
                Err(error) => {
                    return Err(error);
                },
            };
            let inserted = self.insert_item(column, advanced);
            proof {
                assert(self.prior() =~= before.prior());
                assert(middle.prior() =~= before.prior());
                assert(self.compiled.follows(
                    self.prior(),
                    self.current().position,
                    self.items(),
                    m,
                    advanced,
                )) by {
                    if item.origin < column {
                        assert(self.prior()[origin as int] == before.chart@[origin as int]);
                    } else {
                        let w = choose|w: int|
                            0 <= w < m && #[trigger] before.items()[w] == waiter;
                        assert(self.items()[w] == before.items()[w]);
                        assert(self.items()[m] == item);
                    }
                }
                self.lemma_grew_more(&middle, &before, m, advanced);
            }
            match inserted {
                Ok(()) => {},
                Err(error) => {
                    return Err(error);
                },
            }
            index += 1;
        }
        proof {
            let g = self.compiled;
            assert(self.items()[m] == item);
            assert forall|waiter: EarleyItem| #[trigger] waits(
                list,
                dotted.lhs,
                waiter,
            ) implies self.items().contains(g.advanced(waiter)) by {
                assert(waiters@.contains(waiter));
                let i = choose|i: int| 0 <= i < waiters@.len() && waiters@[i] == waiter;
                assert(self.items().contains(g.advanced(waiters@[i])));
            }
            if item.origin < column {
                assert(self.prior()[origin as int] == before.chart@[origin as int]);
            } else {
                assert forall|w: int|
                    0 <= w < m && g.next(#[trigger] self.items()[w]) == Some(
                        Symbol::Nonterminal(dotted.lhs),
                    ) implies self.items().contains(g.advanced(self.items()[w])) by {
                    assert(self.items()[w] == before.items()[w]);
                    assert(waits(list, dotted.lhs, before.items()[w]));
                }
            }
        }
        Ok(())
    }

    /// The item that a chain of completions of `item` ends in, if it is known.
    fn leo_completion(&self, item: EarleyItem) -> (result: Result<Option<EarleyItem>, RuntimeError>)
        requires
            self.compiled.wf(),
            self.compiled.valid(item),
            item.origin < self.chart@.len(),
        ensures
            result == Ok::<_, RuntimeError>(
                {
                    let leo = self.chart@[item.origin as int].leo_by_postdot@;
                    if leo.dom().contains(self.compiled.lhs(item)) {
                        Some(leo[self.compiled.lhs(item)])
                    } else {
                        None
                    }
                },
            ),
    {
        let dotted = match self.dotted(item) {
            Ok(dotted) => dotted,
            Err(error) => {
                return Err(error);
            },
        };
        match fx::map_get(&self.chart[item.origin as usize].leo_by_postdot, dotted.lhs) {
            Some(top) => Ok(Some(*top)),
            None => Ok(None),
        }
    }

    /// Whether the items and shortcuts that were added were counted, the items within their limit.
    pub open spec fn tallied(&self, before: &Self) -> bool {
        &&& self.total_items - before.total_items == self.items().len() - before.items().len()
        &&& self.total_items <= before.limits.max_total_items || self.total_items
            == before.total_items
        &&& self.stats.items_inserted == more_of(
            before.stats.items_inserted,
            self.items().len() - before.items().len(),
        )
        &&& self.stats.leo_candidates == more_of(
            before.stats.leo_candidates,
            self.leo_items - before.leo_items,
        )
        &&& self.stats.columns == before.stats.columns
        &&& self.stats.max_column_items == before.stats.max_column_items
        &&& self.stats.max_active_scans == before.stats.max_active_scans
    }

    /// Whether what was added was counted, and no terminal was read on.
    pub open spec fn counted(&self, before: &Self) -> bool {
        self.tallied(before) && self.stats.scans == before.stats.scans
    }

    /// Whether an error says that one more item is over a limit, and an item that is not there
    /// follows from the item at `m`.
    pub open spec fn bursts(&self, m: int, e: RuntimeError) -> bool {
        &&& self.insertion_error() == Some(e)
        &&& self.items().no_duplicates()
        &&& exists|extra: EarleyItem| #[trigger]
            self.compiled.follows(
                self.prior(),
                self.current().position,
                self.items(),
                m,
                extra,
            ) && !self.items().contains(extra)
    }

    /// Whether an error says that a column that grows from `seeds` has too many items or shortcuts,
    /// and it has: what is there follows from the seeds, each item once, and one more does too.
    pub open spec fn crammed(&self, seeds: Seq<EarleyItem>, e: RuntimeError) -> bool {
        &&& seeds.len() <= self.items().len()
        &&& self.items().take(seeds.len() as int) == seeds
        &&& self.items().no_duplicates()
        &&& forall|k: int|
            seeds.len() <= k < self.items().len() ==> #[trigger] self.compiled.justified(
                self.prior(),
                self.current().position,
                self.items(),
                k,
            )
        &&& {
            ||| exists|m: int| 0 <= m < self.items().len() && #[trigger] self.bursts(m, e)
            ||| e == self.leo_error() && self.leo_items + 1 > self.limits.max_leo_items && exists|
                a: u32,
            | #[trigger]
                self.compiled.leo_due(self.current(), a)
                    && !self.current().leo_by_postdot@.dom().contains(a)
        }
    }

    /// Whether the last column gained only items that follow from the item at `m`.
    pub open spec fn grew(&self, before: &Self, m: int) -> bool {
        &&& before.items().len() <= self.items().len()
        &&& before.items().len() <= before.limits.max_items_per_column ==> self.items().len()
            <= before.limits.max_items_per_column
        &&& self.counted(before)
        &&& forall|k: int|
            0 <= k < before.items().len() ==> #[trigger] self.items()[k] == before.items()[k]
        &&& forall|other: EarleyItem|
            before.items().contains(other) ==> #[trigger] self.items().contains(other)
        &&& forall|k: int|
            before.items().len() <= k < self.items().len() ==> self.compiled.follows(
                self.prior(),
                self.current().position,
                self.items(),
                m,
                #[trigger] self.items()[k],
            )
    }

    proof fn lemma_grew_more(&self, middle: &Self, before: &Self, m: int, item: EarleyItem)
        requires
            middle.grew(before, m),
            0 <= m < before.items().len(),
            self.prior() == middle.prior(),
            self.compiled == middle.compiled,
            self.current().position == middle.current().position,
            self.items() == middle.items() || self.items() == middle.items().push(item),
            before.items().len() <= before.limits.max_items_per_column ==> self.items().len()
                <= before.limits.max_items_per_column,
            self.counted(middle),
            self.leo_items == middle.leo_items,
            self.limits == middle.limits,
            middle.limits == before.limits,
            self.compiled.follows(
                self.prior(),
                self.current().position,
                self.items(),
                m,
                item,
            ),
            forall|other: EarleyItem|
                middle.items().contains(other) ==> #[trigger] self.items().contains(other),
        ensures
            self.grew(before, m),
    {
        assert forall|k: int|
            before.items().len() <= k < self.items().len() implies self.compiled.follows(
            self.prior(),
            self.current().position,
            self.items(),
            m,
            #[trigger] self.items()[k],
        ) by {
            if k < middle.items().len() {
                assert(middle.items()[k] == self.items()[k]);
                self.compiled.lemma_follows_grow(
                    self.prior(),
                    self.current().position,
                    middle.items(),
                    self.items(),
                    m,
                    middle.items()[k],
                );
            }
        }
        assert forall|other: EarleyItem| before.items().contains(other) implies #[trigger]
            self.items().contains(other) by {
            assert(middle.items().contains(other));
        }
        assert forall|k: int| 0 <= k < before.items().len() implies #[trigger] self.items()[k]
            == before.items()[k] by {
            assert(middle.items()[k] == before.items()[k]);
        }
    }
}

impl CompiledEarley {
    /// Whether `waiting` lists, of the first `m` items, those that wait for each nonterminal.
    pub open spec fn waiting_is(
        &self,
        waiting: Map<u32, Vec<EarleyItem>>,
        items: Seq<EarleyItem>,
        m: int,
    ) -> bool {
        &&& forall|w: int, a: u32|
            0 <= w < m && self.next(items[w]) == Some(Symbol::Nonterminal(a))
                ==> #[trigger] waits(waiting, a, items[w])
        &&& forall|a: u32, waiter: EarleyItem| #[trigger]
            waits(waiting, a, waiter) ==> self.next(waiter) == Some(Symbol::Nonterminal(a))
                && exists|w: int| 0 <= w < m && #[trigger] items[w] == waiter
    }

    proof fn lemma_follows_grow(
        &self,
        prior: Seq<ChartColumn>,
        position: u32,
        items: Seq<EarleyItem>,
        more: Seq<EarleyItem>,
        m: int,
        item: EarleyItem,
    )
        requires
            0 <= m < items.len() <= more.len(),
            forall|k: int| 0 <= k < items.len() ==> #[trigger] more[k] == items[k],
            self.follows(prior, position, items, m, item),
        ensures
            self.follows(prior, position, more, m, item),
    {
        let source = items[m];
        assert(more[m] == source);
        if self.next(source) is None && source.origin >= prior.len() {
            let lhs = self.lhs(source);
            let w = choose|w: int|
                0 <= w < m && self.next(#[trigger] items[w]) == Some(Symbol::Nonterminal(lhs))
                    && item == self.advanced(items[w]);
            assert(more[w] == items[w]);
        }
    }

    proof fn lemma_closed_grow(
        &self,
        leo: bool,
        prior: Seq<ChartColumn>,
        position: u32,
        items: Seq<EarleyItem>,
        more: Seq<EarleyItem>,
        scans: Seq<ActiveScan>,
        more_scans: Seq<ActiveScan>,
        m: int,
    )
        requires
            0 <= m < items.len() <= more.len(),
            forall|k: int| 0 <= k < items.len() ==> #[trigger] more[k] == items[k],
            forall|other: EarleyItem|
                items.contains(other) ==> #[trigger] more.contains(other),
            forall|scan: ActiveScan|
                scans.contains(scan) ==> #[trigger] more_scans.contains(scan),
            self.closed_at(leo, prior, position, items, scans, m),
        ensures
            self.closed_at(leo, prior, position, more, more_scans, m),
    {
        let source = items[m];
        assert(more[m] == source);
        if self.next(source) is None && source.origin >= prior.len() && self.production(source)
            != self.root() {
            let lhs = self.lhs(source);
            assert forall|w: int|
                0 <= w < m && self.next(#[trigger] more[w]) == Some(
                    Symbol::Nonterminal(lhs),
                ) implies more.contains(self.advanced(more[w])) by {
                assert(more[w] == items[w]);
                assert(items.contains(self.advanced(items[w])));
            }
        }
    }
}

impl CompiledEarley {
    /// Whether `waiting` lists, of the first `m` items, those that wait for each terminal.
    pub open spec fn scanning_is(
        &self,
        waiting: Map<u32, Vec<EarleyItem>>,
        items: Seq<EarleyItem>,
        m: int,
    ) -> bool {
        &&& forall|w: int, t: u32|
            0 <= w < m && self.next(items[w]) == Some(Symbol::Terminal(t)) ==> #[trigger] waits(
                waiting,
                t,
                items[w],
            )
        &&& forall|t: u32, waiter: EarleyItem| #[trigger]
            waits(waiting, t, waiter) ==> self.next(waiter) == Some(Symbol::Terminal(t))
                && exists|w: int| 0 <= w < m && #[trigger] items[w] == waiter
    }

    /// Whether the item at `k` follows from an earlier item.
    pub open spec fn justified(
        &self,
        prior: Seq<ChartColumn>,
        position: u32,
        items: Seq<EarleyItem>,
        k: int,
    ) -> bool {
        exists|m: int|
            0 <= m < k && #[trigger] self.follows(prior, position, items, m, items[k])
    }

    /// Whether `scans` are those that the first `m` items ask for.
    pub open spec fn scans_are(
        &self,
        scans: Seq<ActiveScan>,
        position: u32,
        items: Seq<EarleyItem>,
        m: int,
    ) -> bool {
        forall|scan: ActiveScan| #[trigger]
            scans.contains(scan) ==> scan == self.new_scan(scan.terminal, position) && exists|w: int|
                0 <= w < m && self.next(#[trigger] items[w]) == Some(
                    Symbol::Terminal(scan.terminal),
                )
    }

    /// Whether the first `agenda` items of the column behind `prior` have been worked off.
    #[verifier::opaque]
    pub open spec fn worked(
        &self,
        leo: bool,
        prior: Seq<ChartColumn>,
        column: ChartColumn,
        scans: Seq<ActiveScan>,
        seeds: int,
        agenda: int,
    ) -> bool {
        let items = column.items@;
        &&& 0 <= seeds <= items.len()
        &&& 0 <= agenda <= items.len()
        &&& self.waiting_is(column.waiting_nonterminal@, items, agenda)
        &&& self.scanning_is(column.waiting_terminal@, items, agenda)
        &&& self.scans_are(scans, column.position, items, agenda)
        &&& forall|m: int|
            0 <= m < agenda ==> #[trigger] self.closed_at(
                leo,
                prior,
                column.position,
                items,
                scans,
                m,
            )
        &&& forall|k: int|
            seeds <= k < items.len() ==> #[trigger] self.justified(
                prior,
                column.position,
                items,
                k,
            )
    }

    /// Work done stays done when items that follow from the next one are added.
    proof fn lemma_worked_grow(
        &self,
        leo: bool,
        prior: Seq<ChartColumn>,
        column: ChartColumn,
        more: ChartColumn,
        scans: Seq<ActiveScan>,
        more_scans: Seq<ActiveScan>,
        seeds: int,
        agenda: int,
    )
        requires
            self.worked(leo, prior, column, scans, seeds, agenda),
            agenda < column.items@.len() <= more.items@.len(),
            more.position == column.position,
            forall|k: int|
                0 <= k < column.items@.len() ==> #[trigger] more.items@[k] == column.items@[k],
            forall|other: EarleyItem|
                column.items@.contains(other) ==> #[trigger] more.items@.contains(other),
            forall|scan: ActiveScan|
                scans.contains(scan) ==> #[trigger] more_scans.contains(scan),
            forall|k: int|
                column.items@.len() <= k < more.items@.len() ==> self.follows(
                    prior,
                    more.position,
                    more.items@,
                    agenda,
                    #[trigger] more.items@[k],
                ),
            self.closed_at(leo, prior, more.position, more.items@, more_scans, agenda),
            self.waiting_is(more.waiting_nonterminal@, more.items@, agenda + 1),
            self.scanning_is(more.waiting_terminal@, more.items@, agenda + 1),
            self.scans_are(more_scans, more.position, more.items@, agenda + 1),
        ensures
            self.worked(leo, prior, more, more_scans, seeds, agenda + 1),
    {
        reveal(CompiledEarley::worked);
        assert forall|m: int| 0 <= m < agenda + 1 implies #[trigger] self.closed_at(
            leo,
            prior,
            more.position,
            more.items@,
            more_scans,
            m,
        ) by {
            if m < agenda {
                assert(self.closed_at(leo, prior, column.position, column.items@, scans, m));
                self.lemma_closed_grow(
                    leo,
                    prior,
                    column.position,
                    column.items@,
                    more.items@,
                    scans,
                    more_scans,
                    m,
                );
            }
        }
        assert forall|k: int| seeds <= k < more.items@.len() implies #[trigger] self.justified(
            prior,
            more.position,
            more.items@,
            k,
        ) by {
            if k < column.items@.len() {
                assert(self.justified(prior, column.position, column.items@, k));
                let m = choose|m: int|
                    0 <= m < k && #[trigger] self.follows(
                        prior,
                        column.position,
                        column.items@,
                        m,
                        column.items@[k],
                    );
                self.lemma_follows_grow(
                    prior,
                    column.position,
                    column.items@,
                    more.items@,
                    m,
                    column.items@[k],
                );
                assert(more.items@[k] == column.items@[k]);
                assert(self.follows(prior, more.position, more.items@, m, more.items@[k]));
            } else {
                assert(self.follows(prior, more.position, more.items@, agenda, more.items@[k]));
            }
        }
    }

    /// Listing the item at `agenda` under the nonterminal that it waits for.
    proof fn lemma_waiting_push(
        &self,
        waiting: Map<u32, Vec<EarleyItem>>,
        more: Map<u32, Vec<EarleyItem>>,
        items: Seq<EarleyItem>,
        agenda: int,
        a: u32,
    )
        requires
            0 <= agenda < items.len(),
            self.waiting_is(waiting, items, agenda),
            self.next(items[agenda]) == Some(Symbol::Nonterminal(a)),
            pushed(waiting, more, a, items[agenda]),
        ensures
            self.waiting_is(more, items, agenda + 1),
    {
        assert forall|b: u32, waiter: EarleyItem| #[trigger] waits(more, b, waiter) implies (
        waits(waiting, b, waiter) || (b == a && waiter == items[agenda])) by {
        }
        assert forall|w: int, b: u32|
            0 <= w < agenda + 1 && self.next(items[w]) == Some(
                Symbol::Nonterminal(b),
            ) implies #[trigger] waits(more, b, items[w]) by {
            if w < agenda {
                assert(waits(waiting, b, items[w]));
            }
        }
        assert forall|b: u32, waiter: EarleyItem| #[trigger] waits(
            more,
            b,
            waiter,
        ) implies self.next(waiter) == Some(Symbol::Nonterminal(b)) && exists|w: int|
            0 <= w < agenda + 1 && #[trigger] items[w] == waiter by {
            if waits(waiting, b, waiter) {
                let w = choose|w: int| 0 <= w < agenda && #[trigger] items[w] == waiter;
                assert(items[w] == waiter);
            } else {
                assert(items[agenda] == waiter);
            }
        }
    }

    /// Listing the item at `agenda` under the terminal that it waits for.
    proof fn lemma_scanning_push(
        &self,
        waiting: Map<u32, Vec<EarleyItem>>,
        more: Map<u32, Vec<EarleyItem>>,
        items: Seq<EarleyItem>,
        agenda: int,
        t: u32,
    )
        requires
            0 <= agenda < items.len(),
            self.scanning_is(waiting, items, agenda),
            self.next(items[agenda]) == Some(Symbol::Terminal(t)),
            pushed(waiting, more, t, items[agenda]),
        ensures
            self.scanning_is(more, items, agenda + 1),
    {
        assert forall|w: int, b: u32|
            0 <= w < agenda + 1 && self.next(items[w]) == Some(
                Symbol::Terminal(b),
            ) implies #[trigger] waits(more, b, items[w]) by {
            if w < agenda {
                assert(waits(waiting, b, items[w]));
            }
        }
        assert forall|b: u32, waiter: EarleyItem| #[trigger] waits(
            more,
            b,
            waiter,
        ) implies self.next(waiter) == Some(Symbol::Terminal(b)) && exists|w: int|
            0 <= w < agenda + 1 && #[trigger] items[w] == waiter by {
            if waits(waiting, b, waiter) {
                let w = choose|w: int| 0 <= w < agenda && #[trigger] items[w] == waiter;
                assert(items[w] == waiter);
            } else {
                assert(items[agenda] == waiter);
            }
        }
    }

    /// Scans that some items ask for are asked for by more items too.
    proof fn lemma_scans_stay(
        &self,
        scans: Seq<ActiveScan>,
        position: u32,
        items: Seq<EarleyItem>,
        more: Seq<EarleyItem>,
        agenda: int,
    )
        requires
            0 <= agenda <= items.len() <= more.len(),
            forall|k: int| 0 <= k < items.len() ==> #[trigger] more[k] == items[k],
            self.scans_are(scans, position, items, agenda),
        ensures
            self.scans_are(scans, position, more, agenda + 1),
    {
        assert forall|scan: ActiveScan| #[trigger] scans.contains(scan) implies scan
            == self.new_scan(scan.terminal, position) && exists|w: int|
            0 <= w < agenda + 1 && self.next(#[trigger] more[w]) == Some(
                Symbol::Terminal(scan.terminal),
            ) by {
            let w = choose|w: int|
                0 <= w < agenda && self.next(#[trigger] items[w]) == Some(
                    Symbol::Terminal(scan.terminal),
                );
            assert(more[w] == items[w]);
        }
    }

    /// Lists that are right for some items stay right for one more that waits for nothing listed.
    proof fn lemma_lists_stay(
        &self,
        waiting: Map<u32, Vec<EarleyItem>>,
        scanning: Map<u32, Vec<EarleyItem>>,
        items: Seq<EarleyItem>,
        more: Seq<EarleyItem>,
        agenda: int,
    )
        requires
            0 <= agenda <= items.len() <= more.len(),
            forall|k: int| 0 <= k < items.len() ==> #[trigger] more[k] == items[k],
        ensures
            self.waiting_is(waiting, items, agenda) ==> self.waiting_is(waiting, more, agenda),
            self.scanning_is(scanning, items, agenda) ==> self.scanning_is(scanning, more, agenda),
            agenda < items.len() && !(self.next(items[agenda]) matches Some(Symbol::Nonterminal(_)))
                && self.waiting_is(waiting, items, agenda) ==> self.waiting_is(
                waiting,
                more,
                agenda + 1,
            ),
            agenda < items.len() && !(self.next(items[agenda]) matches Some(Symbol::Terminal(_)))
                && self.scanning_is(scanning, items, agenda) ==> self.scanning_is(
                scanning,
                more,
                agenda + 1,
            ),
    {
        assert forall|waiter: EarleyItem, m: int|
            (exists|w: int| 0 <= w < agenda && #[trigger] items[w] == waiter) && agenda
                <= m implies #[trigger] item_before(more, m, waiter) by {
            let w = choose|w: int| 0 <= w < agenda && #[trigger] items[w] == waiter;
            assert(more[w] == waiter);
        }
        if self.waiting_is(waiting, items, agenda) {
            assert forall|a: u32, waiter: EarleyItem| #[trigger] waits(
                waiting,
                a,
                waiter,
            ) implies item_before(more, agenda, waiter) && item_before(more, agenda + 1, waiter) by {
                assert(exists|w: int| 0 <= w < agenda && #[trigger] items[w] == waiter);
            }
        }
        if self.scanning_is(scanning, items, agenda) {
            assert forall|a: u32, waiter: EarleyItem| #[trigger] waits(
                scanning,
                a,
                waiter,
            ) implies item_before(more, agenda, waiter) && item_before(more, agenda + 1, waiter) by {
                assert(exists|w: int| 0 <= w < agenda && #[trigger] items[w] == waiter);
            }
        }
    }
}

/// Whether an item is among the first `m`.
pub open spec fn item_before(items: Seq<EarleyItem>, m: int, item: EarleyItem) -> bool {
    exists|w: int| 0 <= w < m && #[trigger] items[w] == item
}

/// Whether `more` is `waiting` with `item` also listed under `id`.
pub open spec fn pushed(
    waiting: Map<u32, Vec<EarleyItem>>,
    more: Map<u32, Vec<EarleyItem>>,
    id: u32,
    item: EarleyItem,
) -> bool {
    forall|b: u32, waiter: EarleyItem| #[trigger]
        waits(more, b, waiter) <==> waits(waiting, b, waiter) || (b == id && waiter == item)
}

/// Lists an item under `id`.
fn push_waiting(waiting: &mut FxHashMap<u32, Vec<EarleyItem>>, id: u32, item: EarleyItem)
    ensures
        pushed(old(waiting)@, final(waiting)@, id, item),
{
    let mut list = match fx::map_remove(waiting, id) {
        Some(list) => list,
        None => Vec::new(),
    };
    let ghost then = list@;
    list.push(item);
    let ghost now = list@;
    fx::map_insert(waiting, id, list);
    assert forall|b: u32, waiter: EarleyItem| #[trigger]
        waits(waiting@, b, waiter) <==> waits(old(waiting)@, b, waiter) || (b == id && waiter
            == item) by {
        lemma_push_contains(then, item, waiter);
    }
}

/// Whether scans come in strictly ascending order, so that none is there twice.
pub open spec fn scans_ascend(scans: Seq<ActiveScan>) -> bool {
    forall|i: int, j: int| 0 <= i < j < scans.len() ==> scan_before(scans[i], scans[j])
}

/// The order of scans: by terminal, start and cursor.
pub open spec fn scan_before(left: ActiveScan, right: ActiveScan) -> bool {
    let (l, r) = (spec_cursor_key(left.cursor), spec_cursor_key(right.cursor));
    left.terminal < right.terminal || (left.terminal == right.terminal && (left.start < right.start
        || (left.start == right.start && (l.0 < r.0 || (l.0 == r.0 && l.1 < r.1)))))
}

/// A cursor as numbers.
pub open spec fn spec_cursor_key(cursor: TerminalCursorState) -> (u8, u32) {
    match cursor {
        TerminalCursorState::Literal(offset) => (0, offset),
        TerminalCursorState::Dfa(state) => (1, state),
    }
}

/// A cursor as numbers.
pub fn cursor_key(cursor: TerminalCursorState) -> (key: (u8, u32))
    ensures
        key == spec_cursor_key(cursor),
{
    match cursor {
        TerminalCursorState::Literal(offset) => (0, offset),
        TerminalCursorState::Dfa(state) => (1, state),
    }
}

/// A scan as numbers, in the order in which scans are sorted.
fn scan_key(scan: ActiveScan) -> (key: (u32, u32, (u8, u32)))
    ensures
        key == (scan.terminal, scan.start, spec_cursor_key(scan.cursor)),
{
    (scan.terminal, scan.start, cursor_key(scan.cursor))
}

/// `slice::sort_by_key` with [`scan_key`]: the same scans, each as often as before, in an order in
/// which no later one has a smaller key.
#[verifier::external_body]
fn sort_scans(scans: &mut Vec<ActiveScan>)
    ensures
        final(scans)@.to_multiset() == old(scans)@.to_multiset(),
        forall|i: int, j: int|
            0 <= i < j < final(scans)@.len() ==> !scan_before(final(scans)@[j], final(scans)@[i]),
{
    scans.sort_by_key(|scan| scan_key(*scan));
}

/// The same scans in order, each once.
fn sorted_scans(scans: Vec<ActiveScan>) -> (sorted: Vec<ActiveScan>)
    ensures
        forall|scan: ActiveScan| #[trigger] sorted@.contains(scan) <==> scans@.contains(scan),
        forall|i: int, j: int|
            0 <= i < j < sorted@.len() ==> scan_before(sorted@[i], sorted@[j]),
{
    let mut all = scans;
    sort_scans(&mut all);
    proof {
        broadcast use vstd::seq_lib::group_to_multiset_ensures;

        assert forall|scan: ActiveScan| #[trigger] all@.contains(scan) <==> scans@.contains(
            scan,
        ) by {
            assert(all@.to_multiset().count(scan) == scans@.to_multiset().count(scan));
        }
    }
    let mut sorted: Vec<ActiveScan> = Vec::new();
    let mut index: usize = 0;
    while index < all.len()
        invariant
            index <= all@.len(),
            forall|i: int, j: int|
                0 <= i < j < all@.len() ==> !scan_before(all@[j], all@[i]),
            forall|i: int| 0 <= i < index ==> sorted@.contains(#[trigger] all@[i]),
            forall|i: int| 0 <= i < sorted@.len() ==> all@.contains(#[trigger] sorted@[i]),
            forall|i: int, j: int|
                0 <= i < j < sorted@.len() ==> scan_before(sorted@[i], sorted@[j]),
            sorted@.len() > 0 ==> index > 0 && sorted@.last() == all@[index - 1],
            sorted@.len() == 0 ==> index == 0,
        decreases all@.len() - index,
    {
        let scan = all[index];
        let fresh = if sorted.len() == 0 {
            true
        } else {
            sorted[sorted.len() - 1] != scan
        };
        if fresh {
            let ghost then = sorted@;
            sorted.push(scan);
            proof {
                assert forall|i: int| 0 <= i < index + 1 implies sorted@.contains(
                    #[trigger] all@[i],
                ) by {
                    lemma_push_contains(then, scan, all@[i]);
                }
                if then.len() > 0 {
                    lemma_scan_order(then.last(), scan);
                    assert forall|i: int, j: int| 0 <= i < j < sorted@.len() implies scan_before(
                        sorted@[i],
                        sorted@[j],
                    ) by {
                        if j == then.len() && i < then.len() - 1 {
                            assert(scan_before(then[i], then[then.len() - 1]));
                        }
                    }
                }
            }
        } else {
            assert(sorted@[sorted@.len() - 1] == all@[index as int]);
        }
        index += 1;
    }
    assert forall|scan: ActiveScan| #[trigger] sorted@.contains(scan) <==> scans@.contains(
        scan,
    ) by {
        assert(all@.contains(scan) <==> scans@.contains(scan));
        if all@.contains(scan) {
            let i = choose|i: int| 0 <= i < all@.len() && all@[i] == scan;
            assert(sorted@.contains(all@[i]));
        }
        if sorted@.contains(scan) {
            let i = choose|i: int| 0 <= i < sorted@.len() && sorted@[i] == scan;
            assert(all@.contains(sorted@[i]));
        }
    }
    sorted
}

/// Of two different scans one comes before the other.
proof fn lemma_scan_order(left: ActiveScan, right: ActiveScan)
    ensures
        left == right || scan_before(left, right) || scan_before(right, left),
{
}

impl CompiledEarley {
    /// The item in which a chain of completions that starts with `waiter` ends.
    pub open spec fn leo_target(
        &self,
        prior: Seq<ChartColumn>,
        waiter: EarleyItem,
    ) -> EarleyItem {
        let advanced = self.advanced(waiter);
        if advanced.origin < prior.len() {
            let leo = prior[advanced.origin as int].leo_by_postdot@;
            if leo.dom().contains(self.lhs(advanced)) {
                leo[self.lhs(advanced)]
            } else {
                advanced
            }
        } else {
            advanced
        }
    }

    /// Whether `waiter` is the only item of a column that waits for `a`, and ends behind it.
    pub open spec fn leo_waiter(&self, column: ChartColumn, a: u32, waiter: EarleyItem) -> bool {
        &&& waits(column.waiting_nonterminal@, a, waiter)
        &&& forall|other: EarleyItem| #[trigger]
            waits(column.waiting_nonterminal@, a, other) ==> other == waiter
        &&& self.dot(waiter) + 1 == self.productions@[self.production(waiter)].rhs@.len()
    }

    /// Whether a column owes a shortcut for `a`: one item waits for it, and ends behind it.
    pub open spec fn leo_due(&self, column: ChartColumn, a: u32) -> bool {
        &&& column.waiting_nonterminal@.dom().contains(a)
        &&& column.waiting_nonterminal@[a]@.len() == 1
        &&& self.dot(column.waiting_nonterminal@[a]@[0]) + 1 == self.productions@[self.production(
            column.waiting_nonterminal@[a]@[0],
        )].rhs@.len()
    }

    /// Whether a column's shortcuts are those of its only waiters.
    pub open spec fn leo_is(&self, prior: Seq<ChartColumn>, column: ChartColumn) -> bool {
        forall|a: u32| #[trigger]
            column.leo_by_postdot@.dom().contains(a) ==> exists|waiter: EarleyItem|
                self.leo_waiter(column, a, waiter) && column.leo_by_postdot@[a]
                    == #[trigger] self.leo_target(prior, waiter)
    }
}

impl EarleyRecognizer {
    /// Works off the items of the last column, and gives the scans that they ask for.
    fn saturate(&mut self, column: usize) -> (result: Result<Vec<ActiveScan>, RuntimeError>)
        requires
            old(self).wf(),
            column == old(self).chart@.len() - 1,
            old(self).current().keyed(),
            old(self).current().fresh(),
            old(self).items().len() <= old(self).limits.max_items_per_column,
        ensures
            final(self).wf(),
            final(self).same_frame(old(self)),
            final(self).counted(old(self)),
            final(self).current().position == old(self).current().position,
            result matches Err(e) ==> saturation_failure(e, old(self).limits) && final(self).overfull(
                e,
            ),
            result matches Err(e) ==> final(self).crammed(old(self).items(), e),
            result matches Ok(scans) ==> {
                &&& scans_ascend(scans@)
                &&& final(self).items().len() <= old(self).limits.max_items_per_column
                &&& final(self).leo_items == old(self).leo_items
                    + final(self).current().leo_by_postdot@.dom().len()
                &&& final(self).leo_items <= old(self).limits.max_leo_items || final(self).leo_items
                    == old(self).leo_items
                &&& final(self).current().keyed()
                &&& final(self).current().position == old(self).current().position
                &&& old(self).items().len() <= final(self).items().len()
                &&& forall|k: int|
                    0 <= k < old(self).items().len() ==> #[trigger] final(self).items()[k]
                        == old(self).items()[k]
                &&& final(self).compiled.worked(
                    final(self).leo_enabled,
                    final(self).prior(),
                    final(self).current(),
                    scans@,
                    old(self).items().len() as int,
                    final(self).items().len() as int,
                )
                &&& final(self).compiled.leo_is(final(self).prior(), final(self).current())
                &&& !final(self).leo_enabled ==> final(self).current().leo_by_postdot@.dom()
                    == Set::<u32>::empty()
                &&& final(self).leo_enabled ==> forall|a: u32|
                    final(self).current().leo_by_postdot@.dom().contains(a)
                        <==> #[trigger] final(self).compiled.leo_due(final(self).current(), a)
            },
    {
        let ghost before = *self;
        let mut agenda: usize = 0;
        let mut scans: Vec<ActiveScan> = Vec::new();
        proof {
            reveal(CompiledEarley::worked);
        }
        while agenda < self.chart[column].items.len()
            invariant
                agenda <= self.items().len() <= self.limits.max_items_per_column,
                before.items().len() <= self.items().len(),
                *old(self) == before,
                self.wf(),
                column == self.chart@.len() - 1,
                self.same_frame(&before),
                self.current().position == before.current().position,
                self.counted(&before),
                self.leo_items == before.leo_items,
                self.current().keyed(),
                self.current().leo_by_postdot@.dom() == Set::<u32>::empty(),
                forall|k: int|
                    0 <= k < before.items().len() ==> #[trigger] self.items()[k]
                        == before.items()[k],
                self.compiled.worked(
                    self.leo_enabled,
                    self.prior(),
                    self.current(),
                    scans@,
                    before.items().len() as int,
                    agenda as int,
                ),
            decreases self.limits.max_items_per_column - agenda,
        {
            let item = self.chart[column].items[agenda];
            let ghost then = *self;
            match self.work(column, agenda, &mut scans, Ghost(before.items().len() as int)) {
                Ok(()) => {},
                Err(error) => {
                    proof {
                        assert(self.items().take(before.items().len() as int) =~= before.items()) by {
                            assert forall|k: int| 0 <= k < before.items().len() implies
                                self.items()[k] == before.items()[k] by {
                                assert(then.items()[k] == before.items()[k]);
                                assert(self.items()[k] == then.items()[k]);
                            }
                        }
                        assert(self.bursts(agenda as int, error));
                    }
                    return Err(error);
                },
            }
            assert(self.items()[agenda as int] == item);
            agenda += 1;
        }
        let sorted = sorted_scans(scans);
        let ghost middle = *self;
        proof {
            reveal(CompiledEarley::worked);
            let items = self.items();
            assert forall|m: int| 0 <= m < items.len() implies #[trigger] self.compiled.closed_at(
                self.leo_enabled,
                self.prior(),
                self.current().position,
                items,
                sorted@,
                m,
            ) by {
                assert(self.compiled.closed_at(
                    self.leo_enabled,
                    self.prior(),
                    self.current().position,
                    items,
                    scans@,
                    m,
                ));
            }
        }
        if self.leo_enabled {
            match self.finish_leo_column(column) {
                Ok(()) => {},
                Err(error) => {
                    proof {
                        assert(self.prior() =~= middle.prior());
                        assert(self.items().take(before.items().len() as int) =~= before.items());
                        assert forall|k: int|
                            before.items().len() <= k < self.items().len() implies
                            #[trigger] self.compiled.justified(
                            self.prior(),
                            self.current().position,
                            self.items(),
                            k,
                        ) by {
                            assert(middle.compiled.justified(
                                middle.prior(),
                                middle.current().position,
                                middle.items(),
                                k,
                            ));
                        }
                    }
                    return Err(error);
                },
            }
            assert(self.prior() =~= middle.prior());
        }
        Ok(sorted)
    }

    /// What was added before an item was one too many follows from what was there.
    proof fn lemma_burst_justified(
        &self,
        before: &Self,
        seeds: int,
        agenda: int,
        scans: Seq<ActiveScan>,
    )
        requires
            before.compiled.worked(
                before.leo_enabled,
                before.prior(),
                before.current(),
                scans,
                seeds,
                agenda,
            ),
            0 <= agenda < before.items().len(),
            self.compiled == before.compiled,
            self.prior() == before.prior(),
            self.current().position == before.current().position,
            before.items().len() <= self.items().len(),
            forall|k: int|
                0 <= k < before.items().len() ==> #[trigger] self.items()[k] == before.items()[k],
            forall|k: int|
                before.items().len() <= k < self.items().len() ==> self.compiled.follows(
                    self.prior(),
                    self.current().position,
                    self.items(),
                    agenda,
                    #[trigger] self.items()[k],
                ),
        ensures
            forall|k: int|
                seeds <= k < self.items().len() ==> #[trigger] self.compiled.justified(
                    self.prior(),
                    self.current().position,
                    self.items(),
                    k,
                ),
    {
        reveal(CompiledEarley::worked);
        assert forall|k: int| seeds <= k < self.items().len() implies #[trigger] self.compiled.justified(
            self.prior(),
            self.current().position,
            self.items(),
            k,
        ) by {
            if k < before.items().len() {
                assert(self.items()[k] == before.items()[k]);
                assert(before.compiled.justified(
                    before.prior(),
                    before.current().position,
                    before.items(),
                    k,
                ));
                let m = choose|m: int|
                    0 <= m < k && #[trigger] before.compiled.follows(
                        before.prior(),
                        before.current().position,
                        before.items(),
                        m,
                        before.items()[k],
                    );
                self.compiled.lemma_follows_grow(
                    self.prior(),
                    self.current().position,
                    before.items(),
                    self.items(),
                    m,
                    before.items()[k],
                );
            } else {
                assert(self.compiled.follows(
                    self.prior(),
                    self.current().position,
                    self.items(),
                    agenda,
                    self.items()[k],
                ));
            }
        }
    }

    /// Works off the item at `agenda`.
    fn work(
        &mut self,
        column: usize,
        agenda: usize,
        scans: &mut Vec<ActiveScan>,
        Ghost(seeds): Ghost<int>,
    ) -> (result: Result<(), RuntimeError>)
        requires
            old(self).wf(),
            column == old(self).chart@.len() - 1,
            old(self).current().keyed(),
            old(self).current().leo_by_postdot@.dom() == Set::<u32>::empty(),
            old(self).items().len() <= old(self).limits.max_items_per_column,
            agenda < old(self).items().len(),
            old(self).compiled.worked(
                old(self).leo_enabled,
                old(self).prior(),
                old(self).current(),
                old(scans)@,
                seeds,
                agenda as int,
            ),
        ensures
            final(self).wf(),
            final(self).same_frame(old(self)),
            final(self).current().position == old(self).current().position,
            final(self).counted(old(self)),
            final(self).leo_items == old(self).leo_items,
            result matches Err(e) ==> saturation_failure(e, old(self).limits) && final(self).overfull(
                e,
            ),
            result matches Err(e) ==> {
                &&& final(self).bursts(agenda as int, e)
                &&& agenda < old(self).items().len() <= final(self).items().len()
                &&& forall|k: int|
                    0 <= k < old(self).items().len() ==> #[trigger] final(self).items()[k]
                        == old(self).items()[k]
                &&& forall|k: int|
                    seeds <= k < final(self).items().len() ==> #[trigger] final(self).compiled.justified(
                        final(self).prior(),
                        final(self).current().position,
                        final(self).items(),
                        k,
                    )
            },
            result is Ok ==> {
                &&& final(self).current().keyed()
                &&& final(self).current().leo_by_postdot@.dom() == Set::<u32>::empty()
                &&& old(self).items().len() <= final(self).items().len()
                    <= old(self).limits.max_items_per_column
                &&& forall|k: int|
                    0 <= k < old(self).items().len() ==> #[trigger] final(self).items()[k]
                        == old(self).items()[k]
                &&& final(self).compiled.worked(
                    final(self).leo_enabled,
                    final(self).prior(),
                    final(self).current(),
                    final(scans)@,
                    seeds,
                    agenda + 1,
                )
            },
    {
        let ghost before = *self;
        let ghost before_scans = scans@;
        let item = self.chart[column].items[agenda];
        proof {
            reveal(CompiledEarley::worked);
            assert(self.compiled.column_ok(self.chart@[column as int], column as int));
            assert(self.compiled.item_ok(
                self.chart@[column as int].items@[agenda as int],
                column as int,
            ));
            self.compiled.lemma_item(item);
        }
        let dotted = match self.dotted(item) {
            Ok(dotted) => dotted,
            Err(error) => {
                return Err(error);
            },
        };
        match dotted.next {
            Some(Symbol::Nonterminal(nonterminal)) => {
                push_waiting(&mut self.chart[column].waiting_nonterminal, nonterminal, item);
                let ghost middle = *self;
                proof {
                    assert(self.prior() =~= before.prior());
                    self.compiled.lemma_waiting_push(
                        before.current().waiting_nonterminal@,
                        self.current().waiting_nonterminal@,
                        self.items(),
                        agenda as int,
                        nonterminal,
                    );
                    assert(self.compiled.column_ok(before.current(), column as int));
                    assert(self.compiled.column_ok(self.chart@[column as int], column as int)) by {
                        assert forall|a: u32, waiter: EarleyItem| #[trigger] waits(
                            self.current().waiting_nonterminal@,
                            a,
                            waiter,
                        ) implies self.compiled.item_ok(waiter, column as int)
                            && self.compiled.next(waiter) == Some(Symbol::Nonterminal(a)) by {
                            assert(waits(before.current().waiting_nonterminal@, a, waiter) || (a
                                == nonterminal && waiter == item));
                        }
                    }
                }
                match self.predict(column, item, nonterminal, Ghost(agenda as int)) {
                    Ok(()) => {},
                    Err(error) => {
                        proof {
                            assert(self.prior() =~= before.prior());
                            self.lemma_burst_justified(&before, seeds, agenda as int, before_scans);
                        }
                        return Err(error);
                    },
                }
                proof {
                    assert(self.prior() =~= before.prior());
                    self.compiled.lemma_lists_stay(
                        self.current().waiting_nonterminal@,
                        self.current().waiting_terminal@,
                        before.items(),
                        self.items(),
                        agenda as int,
                    );
                    self.compiled.lemma_lists_stay(
                        self.current().waiting_nonterminal@,
                        self.current().waiting_terminal@,
                        before.items(),
                        self.items(),
                        agenda + 1,
                    );
                    self.compiled.lemma_scans_stay(
                        scans@,
                        self.current().position,
                        before.items(),
                        self.items(),
                        agenda as int,
                    );
                    self.compiled.lemma_worked_grow(
                        self.leo_enabled,
                        self.prior(),
                        before.current(),
                        self.current(),
                        scans@,
                        scans@,
                        seeds,
                        agenda as int,
                    );
                }
            },
            Some(Symbol::Terminal(terminal)) => {
                push_waiting(&mut self.chart[column].waiting_terminal, terminal, item);
                let cursor = self.compiled.grammar.terminals[terminal as usize].start();
                scans.push(
                    ActiveScan { terminal, start: self.chart[column].position, cursor },
                );
                proof {
                    assert(self.prior() =~= before.prior());
                    let scan = ActiveScan { terminal, start: self.current().position, cursor };
                    assert(scan == self.compiled.new_scan(terminal, self.current().position));
                    assert forall|other: ActiveScan| #[trigger] scans@.contains(
                        other,
                    ) <==> before_scans.contains(other) || other == scan by {
                        lemma_push_contains(before_scans, scan, other);
                    }
                    assert(scans@.contains(scan));
                    self.compiled.lemma_scanning_push(
                        before.current().waiting_terminal@,
                        self.current().waiting_terminal@,
                        self.items(),
                        agenda as int,
                        terminal,
                    );
                    assert(self.compiled.column_ok(before.current(), column as int));
                    assert(self.compiled.column_ok(self.chart@[column as int], column as int)) by {
                        assert forall|t: u32, waiter: EarleyItem| #[trigger] waits(
                            self.current().waiting_terminal@,
                            t,
                            waiter,
                        ) implies self.compiled.item_ok(waiter, column as int)
                            && self.compiled.next(waiter) == Some(Symbol::Terminal(t)) by {
                            assert(waits(before.current().waiting_terminal@, t, waiter) || (t
                                == terminal && waiter == item));
                        }
                    }
                    self.compiled.lemma_lists_stay(
                        self.current().waiting_nonterminal@,
                        before.current().waiting_terminal@,
                        before.items(),
                        self.items(),
                        agenda as int,
                    );
                    assert(self.compiled.next(self.items()[agenda as int]) == Some(
                        Symbol::Terminal(terminal),
                    ));
                    assert(self.compiled.scans_are(
                        scans@,
                        self.current().position,
                        self.items(),
                        agenda + 1,
                    ));
                    self.compiled.lemma_worked_grow(
                        self.leo_enabled,
                        self.prior(),
                        before.current(),
                        self.current(),
                        before_scans,
                        scans@,
                        seeds,
                        agenda as int,
                    );
                }
            },
            None => {
                match self.complete(column, item, Ghost(agenda as int)) {
                    Ok(()) => {},
                    Err(error) => {
                        proof {
                            assert(self.prior() =~= before.prior());
                            self.lemma_burst_justified(&before, seeds, agenda as int, before_scans);
                        }
                        return Err(error);
                    },
                }
                proof {
                    assert(self.prior() =~= before.prior());
                    self.compiled.lemma_lists_stay(
                        self.current().waiting_nonterminal@,
                        self.current().waiting_terminal@,
                        before.items(),
                        self.items(),
                        agenda as int,
                    );
                    self.compiled.lemma_scans_stay(
                        scans@,
                        self.current().position,
                        before.items(),
                        self.items(),
                        agenda as int,
                    );
                    self.compiled.lemma_closed_grow(
                        self.leo_enabled,
                        self.prior(),
                        self.current().position,
                        self.items(),
                        self.items(),
                        Seq::empty(),
                        scans@,
                        agenda as int,
                    );
                    self.compiled.lemma_worked_grow(
                        self.leo_enabled,
                        self.prior(),
                        before.current(),
                        self.current(),
                        scans@,
                        scans@,
                        seeds,
                        agenda as int,
                    );
                }
            },
        }
        Ok(())
    }

    /// Brings in the productions of the nonterminal that `item` waits for, and moves the item if
    /// that nonterminal derives the empty string.
    fn predict(
        &mut self,
        column: usize,
        item: EarleyItem,
        nonterminal: u32,
        Ghost(m): Ghost<int>,
    ) -> (result: Result<(), RuntimeError>)
        requires
            old(self).wf(),
            column == old(self).chart@.len() - 1,
            old(self).current().keyed(),
            old(self).items().len() <= old(self).limits.max_items_per_column,
            0 <= m < old(self).items().len(),
            old(self).items()[m] == item,
            old(self).compiled.next(item) == Some(Symbol::Nonterminal(nonterminal)),
        ensures
            final(self).wf(),
            final(self).same_frame(old(self)),
            final(self).same_waiting(old(self)),
            final(self).leo_items == old(self).leo_items,
            result matches Err(e) ==> insertion_failure(e, old(self).limits) && final(self).overfull(e),
            result matches Err(e) ==> final(self).grew(old(self), m) && final(self).bursts(m, e),
            result is Ok ==> {
                &&& final(self).current().keyed()
                &&& final(self).grew(old(self), m)
                &&& forall|scans: Seq<ActiveScan>|
                    final(self).compiled.closed_at(
                        final(self).leo_enabled,
                        final(self).prior(),
                        final(self).current().position,
                        final(self).items(),
                        scans,
                        m,
                    )
            },
    {
        let ghost before = *self;
        proof {
            assert(self.compiled.column_ok(self.chart@[column as int], column as int));
            assert(self.compiled.item_ok(self.chart@[column as int].items@[m], column as int));
            self.compiled.lemma_item(item);
            self.compiled.lemma_starts(nonterminal);
        }
        let starts = self.compiled.starts_by_lhs[nonterminal as usize].clone();
        assert(starts@ =~= self.compiled.starts_by_lhs@[nonterminal as int]@);
        let position: u32 = self.chart[column].position;
        let mut index: usize = 0;
        while index < starts.len()
            invariant
                index <= starts@.len(),
                *old(self) == before,
                self.wf(),
                column == self.chart@.len() - 1,
                self.same_frame(&before),
                self.same_waiting(&before),
                self.leo_items == before.leo_items,
                self.current().keyed(),
                self.grew(&before, m),
                position == self.current().position,
                position <= column,
                before.items().len() <= before.limits.max_items_per_column,
                0 <= m < before.items().len(),
                before.items()[m] == item,
                before.compiled.next(item) == Some(Symbol::Nonterminal(nonterminal)),
                forall|k: int|
                    0 <= k < starts@.len() ==> self.compiled.is_start_id(
                        nonterminal,
                        #[trigger] starts@[k],
                    ),
                forall|k: int|
                    0 <= k < index ==> self.items().contains(
                        (EarleyItem { dotted: #[trigger] starts@[k], origin: position }),
                    ),
            decreases starts@.len() - index,
        {
            let ghost middle = *self;
            let dotted: u32 = starts[index];
            self.stats.predictions = self.stats.predictions.saturating_add(1);
            let start = EarleyItem { dotted, origin: position };
            proof {
                assert(self.compiled.is_start_id(nonterminal, starts@[index as int]));
                let p = choose|p: int|
                    #![trigger self.compiled.productions@[p]]
                    0 <= p < self.compiled.productions@.len() && self.compiled.productions@[p].lhs
                        == nonterminal && self.compiled.dotted_offsets@[p] == dotted;
                self.compiled.lemma_item_of(p, 0, position);
            }
            match self.insert_item(column, start) {
                Ok(()) => {},
                Err(error) => {
                    proof {
                        assert(self.prior() =~= middle.prior());
                        assert(self.items()[m] == item);
                        self.lemma_grew_more(&middle, &before, m, start);
                        assert(self.compiled.follows(
                            self.prior(),
                            self.current().position,
                            self.items(),
                            m,
                            start,
                        ));
                    }
                    return Err(error);
                },
            }
            proof {
                assert(self.prior() =~= middle.prior());
                assert(self.items()[m] == item);
                self.lemma_grew_more(&middle, &before, m, start);
            }
            index += 1;
        }
        if self.compiled.grammar.nullable[nonterminal as usize] {
            let ghost middle = *self;
            self.stats.nullable_advances = self.stats.nullable_advances.saturating_add(1);
            let advanced = match self.advance_item(item) {
                Ok(advanced) => advanced,
                Err(error) => {
                    return Err(error);
                },
            };
            match self.insert_item(column, advanced) {
                Ok(()) => {},
                Err(error) => {
                    proof {
                        assert(self.prior() =~= middle.prior());
                        assert(self.items()[m] == item);
                        self.lemma_grew_more(&middle, &before, m, advanced);
                        assert(self.compiled.follows(
                            self.prior(),
                            self.current().position,
                            self.items(),
                            m,
                            advanced,
                        ));
                    }
                    return Err(error);
                },
            }
            proof {
                assert(self.prior() =~= middle.prior());
                assert(self.items()[m] == item);
                self.lemma_grew_more(&middle, &before, m, advanced);
            }
        }
        proof {
            let g = self.compiled;
            assert(self.items()[m] == item);
            assert forall|p: int|
                0 <= p < g.productions@.len() && (#[trigger] g.productions@[p]).lhs
                    == nonterminal implies self.items().contains(g.predicted(p, position)) by {
                assert(starts@.contains(g.dotted_offsets@[p]));
                let k = choose|k: int| 0 <= k < starts@.len() && starts@[k] == g.dotted_offsets@[p];
                assert(self.items().contains(
                    (EarleyItem { dotted: starts@[k], origin: position }),
                ));
            }
        }
        Ok(())
    }

    /// Notes where completing `postdot`, for which only `waiter` waits, leads.
    fn note_leo(&mut self, column: usize, postdot: u32, waiter: EarleyItem) -> (result: Result<
        (),
        RuntimeError,
    >)
        requires
            old(self).wf(),
            column == old(self).chart@.len() - 1,
            old(self).compiled.leo_waiter(old(self).current(), postdot, waiter),
            old(self).compiled.leo_is(old(self).prior(), old(self).current()),
        ensures
            final(self).wf(),
            final(self).same_frame(old(self)),
            final(self).current().position == old(self).current().position,
            final(self).current().items == old(self).current().items,
            final(self).current().membership == old(self).current().membership,
            final(self).current().waiting_nonterminal == old(self).current().waiting_nonterminal,
            final(self).current().waiting_terminal == old(self).current().waiting_terminal,
            result is Ok <==> old(self).leo_items + 1 <= old(self).limits.max_leo_items,
            result matches Err(e) ==> *final(self) == *old(self) && e == old(self).leo_error(),
            result is Ok ==> {
                &&& final(self).total_items == old(self).total_items
                &&& final(self).leo_items == old(self).leo_items + 1
                &&& final(self).stats == with_candidates(old(self).stats, 1)
                &&& final(self).compiled.leo_is(final(self).prior(), final(self).current())
                &&& final(self).current().leo_by_postdot@
                    == old(self).current().leo_by_postdot@.insert(
                    postdot,
                    old(self).compiled.leo_target(old(self).prior(), waiter),
                )
            },
    {
        let ghost before = *self;
        proof {
            assert(self.compiled.column_ok(self.chart@[column as int], column as int));
            self.compiled.lemma_item(waiter);
            self.compiled.lemma_item(self.compiled.advanced(waiter));
        }
        let advanced = match self.advance_item(waiter) {
            Ok(advanced) => advanced,
            Err(error) => {
                return Err(error);
            },
        };
        let advanced_dotted = match self.dotted(advanced) {
            Ok(dotted) => dotted,
            Err(error) => {
                return Err(error);
            },
        };
        let origin: usize = advanced.origin as usize;
        let target = if origin < column {
            assert(self.compiled.column_ok(self.chart@[origin as int], origin as int));
            assert(self.prior()[origin as int] == self.chart@[origin as int]);
            match fx::map_get(&self.chart[origin].leo_by_postdot, advanced_dotted.lhs) {
                Some(target) => *target,
                None => advanced,
            }
        } else {
            advanced
        };
        let next_count: usize = match self.leo_items.checked_add(1) {
            Some(count) => count,
            None => {
                return Err(
                    RuntimeError::ResourceLimitExceeded {
                        resource: RuntimeResource::LeoItems,
                        observed: usize::MAX,
                        limit: self.limits.max_leo_items,
                    },
                );
            },
        };
        match enforce_runtime_limit(
            RuntimeResource::LeoItems,
            next_count,
            self.limits.max_leo_items,
        ) {
            Ok(()) => {},
            Err(error) => {
                return Err(error);
            },
        }
        fx::map_insert(&mut self.chart[column].leo_by_postdot, postdot, target);
        self.leo_items = next_count;
        self.stats.leo_candidates = self.stats.leo_candidates.saturating_add(1);
        proof {
            let g = self.compiled;
            assert(self.prior() =~= before.prior());
            assert(target == g.leo_target(self.prior(), waiter));
            assert forall|a: u32| #[trigger]
                self.current().leo_by_postdot@.dom().contains(a) implies exists|w: EarleyItem|
                g.leo_waiter(self.current(), a, w) && self.current().leo_by_postdot@[a]
                    == #[trigger] g.leo_target(self.prior(), w) by {
                if a == postdot {
                    assert(g.leo_waiter(self.current(), a, waiter));
                    assert(self.current().leo_by_postdot@[a] == g.leo_target(self.prior(), waiter));
                } else {
                    assert(before.current().leo_by_postdot@.dom().contains(a));
                    let w = choose|w: EarleyItem|
                        g.leo_waiter(before.current(), a, w) && before.current().leo_by_postdot@[a]
                            == #[trigger] g.leo_target(before.prior(), w);
                    assert(g.leo_waiter(self.current(), a, w));
                    assert(self.current().leo_by_postdot@[a] == g.leo_target(self.prior(), w));
                }
            }
        }
        Ok(())
    }

    /// Notes, for every nonterminal that only one item waits for, where completing it leads.
    fn finish_leo_column(&mut self, column: usize) -> (result: Result<(), RuntimeError>)
        requires
            old(self).wf(),
            column == old(self).chart@.len() - 1,
            old(self).current().leo_by_postdot@.dom() == Set::<u32>::empty(),
        ensures
            final(self).wf(),
            final(self).same_frame(old(self)),
            final(self).current().position == old(self).current().position,
            final(self).current().items == old(self).current().items,
            final(self).current().membership == old(self).current().membership,
            final(self).current().waiting_nonterminal == old(self).current().waiting_nonterminal,
            final(self).current().waiting_terminal == old(self).current().waiting_terminal,
            final(self).compiled.leo_is(final(self).prior(), final(self).current()),
            forall|a: u32| #[trigger]
                final(self).current().leo_by_postdot@.dom().contains(a)
                    ==> final(self).compiled.leo_due(final(self).current(), a),
            final(self).current().leo_by_postdot@.dom().finite(),
            final(self).total_items == old(self).total_items,
            final(self).leo_items == old(self).leo_items
                + final(self).current().leo_by_postdot@.dom().len(),
            final(self).stats == with_candidates(
                old(self).stats,
                final(self).current().leo_by_postdot@.dom().len(),
            ),
            result is Ok ==> {
                &&& forall|a: u32| #[trigger]
                    final(self).compiled.leo_due(final(self).current(), a)
                        ==> final(self).current().leo_by_postdot@.dom().contains(a)
                &&& final(self).current().leo_by_postdot@.dom().len() > 0 ==> final(self).leo_items
                    <= old(self).limits.max_leo_items
            },
            result matches Err(e) ==> {
                &&& e == final(self).leo_error()
                &&& final(self).leo_items + 1 > old(self).limits.max_leo_items
                &&& exists|a: u32| #[trigger]
                    final(self).compiled.leo_due(final(self).current(), a)
                        && !final(self).current().leo_by_postdot@.dom().contains(a)
            },
    {
        let postdots = fx::map_keys(&self.chart[column].waiting_nonterminal);
        let ghost before = *self;
        let mut index: usize = 0;
        while index < postdots.len()
            invariant
                index <= postdots@.len(),
                *old(self) == before,
                self.wf(),
                column == self.chart@.len() - 1,
                self.same_frame(&before),
                self.current().position == before.current().position,
                self.current().items == before.current().items,
                self.current().membership == before.current().membership,
                self.current().waiting_nonterminal == before.current().waiting_nonterminal,
                self.current().waiting_terminal == before.current().waiting_terminal,
                self.compiled.leo_is(self.prior(), self.current()),
                forall|a: u32| #[trigger]
                    self.current().leo_by_postdot@.dom().contains(a) <==> postdots@.take(
                        index as int,
                    ).contains(a) && self.compiled.leo_due(self.current(), a),
                self.current().leo_by_postdot@.dom().finite(),
                self.total_items == before.total_items,
                self.leo_items == before.leo_items + self.current().leo_by_postdot@.dom().len(),
                self.stats == with_candidates(
                    before.stats,
                    self.current().leo_by_postdot@.dom().len(),
                ),
                self.current().leo_by_postdot@.dom().len() > 0 ==> self.leo_items
                    <= self.limits.max_leo_items,
                postdots@.no_duplicates(),
                forall|key: u32|
                    postdots@.contains(key)
                        <==> before.current().waiting_nonterminal@.dom().contains(key),
            decreases postdots@.len() - index,
        {
            let postdot: u32 = postdots[index];
            let ghost sofar = postdots@.take(index as int);
            let ghost then = *self;
            index += 1;
            assert(postdots@.contains(postdot));
            proof {
                assert(postdots@.take(index as int) =~= sofar.push(postdot));
                assert forall|a: u32| #[trigger]
                    postdots@.take(index as int).contains(a) <==> a == postdot || sofar.contains(
                        a,
                    ) by {
                    lemma_push_contains(sofar, postdot, a);
                }
                if sofar.contains(postdot) {
                    let k = choose|k: int| 0 <= k < sofar.len() && sofar[k] == postdot;
                    assert(postdots@[k] == postdots@[index - 1]);
                }
                assert(!then.current().leo_by_postdot@.dom().contains(postdot));
            }
            let found = fx::map_get(&self.chart[column].waiting_nonterminal, postdot);
            let only: Option<EarleyItem> = match found {
                Some(waiters) => {
                    if waiters.len() == 1 {
                        Some(waiters[0])
                    } else {
                        None
                    }
                },
                None => None,
            };
            if let Some(waiter) = only {
                proof {
                    let list = self.current().waiting_nonterminal@[postdot]@;
                    assert(list.contains(list[0]));
                    assert(waits(self.current().waiting_nonterminal@, postdot, waiter));
                    assert(self.compiled.column_ok(self.chart@[column as int], column as int));
                    self.compiled.lemma_item(waiter);
                    self.compiled.lemma_item(self.compiled.advanced(waiter));
                }
                let waiter_dotted = match self.dotted(waiter) {
                    Ok(dotted) => dotted,
                    Err(error) => {
                        return Err(error);
                    },
                };
                let length: usize = self.compiled.productions[waiter_dotted.production as usize].rhs.len();
                if waiter_dotted.dot as usize == length - 1 {
                    match self.note_leo(column, postdot, waiter) {
                        Ok(()) => {},
                        Err(error) => {
                            assert(self.compiled.leo_due(self.current(), postdot));
                            return Err(error);
                        },
                    }
                    assert(self.current().leo_by_postdot@.dom() =~= then.current().leo_by_postdot@.dom().insert(
                        postdot,
                    ));
                }
            }
        }
        proof {
            assert(postdots@.take(index as int) =~= postdots@);
            assert forall|a: u32| #[trigger] self.compiled.leo_due(self.current(), a) implies
                self.current().leo_by_postdot@.dom().contains(a) by {
                assert(postdots@.contains(a));
            }
        }
        Ok(())
    }
}

impl CompiledEarley {
    /// The cursor of a scan after one more byte.
    pub open spec fn read_on(&self, scan: ActiveScan, byte: u8) -> Option<TerminalCursorState> {
        self.grammar.terminals@[scan.terminal as int].spec_advance(scan.cursor, byte)
    }

    /// How many of the first `n` scans a byte reads on.
    pub open spec fn read_count(&self, scans: Seq<ActiveScan>, n: nat, byte: u8) -> nat
        decreases n,
    {
        if n == 0 || n > scans.len() {
            0
        } else if self.read_on(scans[n - 1], byte) is Some {
            self.read_count(scans, (n - 1) as nat, byte) + 1
        } else {
            self.read_count(scans, (n - 1) as nat, byte)
        }
    }

    /// Whether `item` is one that waited for the terminal of `scan`, which `byte` completes.
    pub open spec fn scanned(
        &self,
        prior: Seq<ChartColumn>,
        scan: ActiveScan,
        byte: u8,
        item: EarleyItem,
    ) -> bool {
        &&& self.read_on(scan, byte) is Some
        &&& self.grammar.terminals@[scan.terminal as int].spec_accepting(
            self.read_on(scan, byte)->0,
        )
        &&& exists|waiter: EarleyItem| #[trigger]
            waits(prior[scan.start as int].waiting_terminal@, scan.terminal, waiter) && item
                == self.advanced(waiter)
    }

    /// Whether one of the first `count` scans gives `item` by `byte`.
    pub open spec fn scanned_by(
        &self,
        prior: Seq<ChartColumn>,
        scans: Seq<ActiveScan>,
        count: int,
        byte: u8,
        item: EarleyItem,
    ) -> bool {
        exists|i: int| 0 <= i < count && #[trigger] self.scanned(prior, scans[i], byte, item)
    }

    /// Whether `next` is `scan` after `byte`, and can be read on.
    pub open spec fn continues(&self, scan: ActiveScan, byte: u8, next: ActiveScan) -> bool {
        &&& self.read_on(scan, byte) is Some
        &&& self.grammar.terminals@[scan.terminal as int].spec_live(self.read_on(scan, byte)->0)
        &&& next == (ActiveScan { cursor: self.read_on(scan, byte)->0, ..scan })
    }

    /// Whether the items of a column are those that the first `count` scans complete by `byte`.
    #[verifier::opaque]
    pub open spec fn seeded(
        &self,
        prior: Seq<ChartColumn>,
        scans: Seq<ActiveScan>,
        count: int,
        byte: u8,
        items: Seq<EarleyItem>,
    ) -> bool {
        &&& forall|k: int|
            0 <= k < items.len() ==> self.scanned_by(
                prior,
                scans,
                count,
                byte,
                #[trigger] items[k],
            )
        &&& forall|i: int, item: EarleyItem|
            0 <= i < count && #[trigger] self.scanned(prior, scans[i], byte, item)
                ==> items.contains(item)
    }

    /// Whether `continuing` are the first `count` scans that can be read on after `byte`.
    #[verifier::opaque]
    pub open spec fn continued(
        &self,
        scans: Seq<ActiveScan>,
        count: int,
        byte: u8,
        continuing: Seq<ActiveScan>,
    ) -> bool {
        forall|next: ActiveScan| #[trigger]
            continuing.contains(next) <==> exists|i: int|
                0 <= i < count && #[trigger] self.continues(scans[i], byte, next)
    }
}

impl EarleyRecognizer {
    /// Whether an error says that the items that scans complete by a byte are too many, and they
    /// are: what is there is completed, each item once, and one more is too.
    pub open spec fn scan_bursts(
        &self,
        scans: Seq<ActiveScan>,
        byte: u8,
        e: RuntimeError,
    ) -> bool {
        &&& self.insertion_error() == Some(e)
        &&& self.items().no_duplicates()
        &&& forall|k: int|
            0 <= k < self.items().len() ==> self.compiled.scanned_by(
                self.prior(),
                scans,
                scans.len() as int,
                byte,
                #[trigger] self.items()[k],
            )
        &&& exists|extra: EarleyItem| #[trigger]
            self.compiled.scanned_by(self.prior(), scans, scans.len() as int, byte, extra)
                && !self.items().contains(extra)
    }

    proof fn lemma_scan_bursts(
        &self,
        then: Seq<EarleyItem>,
        scans: Seq<ActiveScan>,
        index: int,
        byte: u8,
        e: RuntimeError,
    )
        requires
            0 <= index < scans.len(),
            self.compiled.seeded(self.prior(), scans, index, byte, then),
            then.len() <= self.items().len(),
            forall|k: int| 0 <= k < then.len() ==> #[trigger] self.items()[k] == then[k],
            forall|k: int|
                then.len() <= k < self.items().len() ==> self.compiled.scanned(
                    self.prior(),
                    scans[index],
                    byte,
                    #[trigger] self.items()[k],
                ),
            exists|extra: EarleyItem| #[trigger]
                self.compiled.scanned(self.prior(), scans[index], byte, extra)
                    && !self.items().contains(extra),
            self.insertion_error() == Some(e),
            self.items().no_duplicates(),
        ensures
            self.scan_bursts(scans, byte, e),
    {
        reveal(CompiledEarley::seeded);
        assert forall|k: int| 0 <= k < self.items().len() implies self.compiled.scanned_by(
            self.prior(),
            scans,
            scans.len() as int,
            byte,
            #[trigger] self.items()[k],
        ) by {
            if k < then.len() {
                assert(self.items()[k] == then[k]);
                assert(self.compiled.scanned_by(self.prior(), scans, index, byte, then[k]));
                let i = choose|i: int|
                    0 <= i < index && #[trigger] self.compiled.scanned(
                        self.prior(),
                        scans[i],
                        byte,
                        then[k],
                    );
                assert(self.compiled.scanned(self.prior(), scans[i], byte, self.items()[k]));
            } else {
                assert(self.compiled.scanned(self.prior(), scans[index], byte, self.items()[k]));
            }
        }
        let extra = choose|extra: EarleyItem| #[trigger]
            self.compiled.scanned(self.prior(), scans[index], byte, extra)
                && !self.items().contains(extra);
        assert(self.compiled.scanned_by(self.prior(), scans, scans.len() as int, byte, extra));
    }

    /// Reads `byte` in every scan, and puts what that completes into the last column.
    fn scan_byte(&mut self, column: usize, byte: u8, scans: &Vec<ActiveScan>) -> (result: Result<
        Vec<ActiveScan>,
        RuntimeError,
    >)
        requires
            old(self).wf(),
            column == old(self).chart@.len() - 1,
            old(self).current().keyed(),
            old(self).items().len() == 0,
            forall|i: int|
                0 <= i < scans@.len() ==> old(self).compiled.scan_ok(
                    #[trigger] scans@[i],
                    column as int,
                ),
        ensures
            final(self).wf(),
            final(self).same_frame(old(self)),
            final(self).same_waiting(old(self)),
            final(self).tallied(old(self)),
            final(self).leo_items == old(self).leo_items,
            result matches Err(e) ==> insertion_failure(e, old(self).limits) && final(self).overfull(e),
            result matches Err(e) ==> final(self).scan_bursts(scans@, byte, e),
            result is Ok ==> final(self).stats.scans == more_of(
                old(self).stats.scans,
                final(self).compiled.read_count(scans@, scans@.len(), byte) as int,
            ),
            result matches Ok(continuing) ==> {
                &&& final(self).current().keyed()
                &&& final(self).items().len() <= final(self).limits.max_items_per_column
                &&& final(self).compiled.seeded(
                    final(self).prior(),
                    scans@,
                    scans@.len() as int,
                    byte,
                    final(self).items(),
                )
                &&& final(self).compiled.continued(
                    scans@,
                    scans@.len() as int,
                    byte,
                    continuing@,
                )
                &&& forall|i: int|
                    0 <= i < continuing@.len() ==> final(self).compiled.scan_ok(
                        #[trigger] continuing@[i],
                        column as int,
                    )
            },
    {
        let ghost before = *self;
        let mut continuing: Vec<ActiveScan> = Vec::new();
        let mut index: usize = 0;
        proof {
            reveal(CompiledEarley::seeded);
            reveal(CompiledEarley::continued);
        }
        while index < scans.len()
            invariant
                index <= scans@.len(),
                *old(self) == before,
                self.wf(),
                column == self.chart@.len() - 1,
                self.same_frame(&before),
                self.same_waiting(&before),
                self.current().keyed(),
                self.tallied(&before),
                before.items().len() <= self.items().len(),
                self.stats.scans == more_of(
                    before.stats.scans,
                    self.compiled.read_count(scans@, index as nat, byte) as int,
                ),
                self.leo_items == before.leo_items,
                self.items().len() <= self.limits.max_items_per_column,
                forall|i: int|
                    0 <= i < scans@.len() ==> self.compiled.scan_ok(
                        #[trigger] scans@[i],
                        column as int,
                    ),
                forall|i: int|
                    0 <= i < continuing@.len() ==> self.compiled.scan_ok(
                        #[trigger] continuing@[i],
                        column as int,
                    ),
                self.compiled.seeded(self.prior(), scans@, index as int, byte, self.items()),
                self.compiled.continued(scans@, index as int, byte, continuing@),
            decreases scans@.len() - index,
        {
            let scan = scans[index];
            let ghost middle = *self;
            let ghost then = continuing@;
            assert(self.compiled.scan_ok(scans@[index as int], column as int));
            let next = self.compiled.grammar.terminals[scan.terminal as usize].advance(
                scan.cursor,
                byte,
            );
            if let Some(cursor) = next {
                let accepting = self.compiled.grammar.terminals[scan.terminal as usize].is_accepting(
                    cursor,
                );
                let live = self.compiled.grammar.terminals[scan.terminal as usize].is_live(cursor);
                self.stats.scans = self.stats.scans.saturating_add(1);
                if accepting {
                    match self.insert_scanned(column, scan, byte) {
                        Ok(()) => {},
                        Err(error) => {
                            proof {
                                assert(self.prior() =~= middle.prior());
                                self.lemma_scan_bursts(
                                    middle.items(),
                                    scans@,
                                    index as int,
                                    byte,
                                    error,
                                );
                            }
                            return Err(error);
                        },
                    }
                    assert(self.prior() =~= middle.prior());
                }
                if live {
                    continuing.push(ActiveScan { cursor, ..scan });
                }
            }
            proof {
                self.compiled.lemma_seeded_step(
                    self.prior(),
                    scans@,
                    index as int,
                    byte,
                    middle.items(),
                    self.items(),
                );
                self.compiled.lemma_continued_step(
                    scans@,
                    index as int,
                    byte,
                    then,
                    continuing@,
                );
            }
            index += 1;
        }
        Ok(continuing)
    }

    /// Moves every item that waits for the terminal of `scan`, which `byte` completes.
    fn insert_scanned(&mut self, column: usize, scan: ActiveScan, byte: u8) -> (result: Result<
        (),
        RuntimeError,
    >)
        requires
            old(self).wf(),
            column == old(self).chart@.len() - 1,
            old(self).current().keyed(),
            old(self).items().len() <= old(self).limits.max_items_per_column,
            old(self).compiled.scan_ok(scan, column as int),
            old(self).compiled.read_on(scan, byte) is Some,
            old(self).compiled.grammar.terminals@[scan.terminal as int].spec_accepting(
                old(self).compiled.read_on(scan, byte)->0,
            ),
        ensures
            final(self).wf(),
            final(self).same_frame(old(self)),
            final(self).same_waiting(old(self)),
            final(self).counted(old(self)),
            old(self).items().len() <= final(self).items().len(),
            final(self).leo_items == old(self).leo_items,
            result matches Err(e) ==> insertion_failure(e, old(self).limits) && final(self).overfull(e),
            result matches Err(e) ==> {
                &&& final(self).insertion_error() == Some(e)
                &&& final(self).items().no_duplicates()
                &&& old(self).items().len() <= final(self).items().len()
                &&& forall|k: int|
                    0 <= k < old(self).items().len() ==> #[trigger] final(self).items()[k]
                        == old(self).items()[k]
                &&& forall|k: int|
                    old(self).items().len() <= k < final(self).items().len()
                        ==> final(self).compiled.scanned(
                        final(self).prior(),
                        scan,
                        byte,
                        #[trigger] final(self).items()[k],
                    )
                &&& exists|extra: EarleyItem| #[trigger]
                    final(self).compiled.scanned(final(self).prior(), scan, byte, extra)
                        && !final(self).items().contains(extra)
            },
            result is Ok ==> {
                &&& final(self).current().keyed()
                &&& final(self).items().len() <= final(self).limits.max_items_per_column
                &&& old(self).items().len() <= final(self).items().len()
                &&& forall|k: int|
                    0 <= k < old(self).items().len() ==> #[trigger] final(self).items()[k]
                        == old(self).items()[k]
                &&& forall|other: EarleyItem|
                    old(self).items().contains(other) ==> #[trigger] final(self).items().contains(
                        other,
                    )
                &&& forall|k: int|
                    old(self).items().len() <= k < final(self).items().len()
                        ==> final(self).compiled.scanned(
                        final(self).prior(),
                        scan,
                        byte,
                        #[trigger] final(self).items()[k],
                    )
                &&& forall|item: EarleyItem| #[trigger]
                    final(self).compiled.scanned(final(self).prior(), scan, byte, item)
                        ==> final(self).items().contains(item)
            },
    {
        let ghost before = *self;
        let start: usize = scan.start as usize;
        proof {
            assert(self.compiled.column_ok(self.chart@[start as int], start as int));
            assert(self.prior()[start as int] == self.chart@[start as int]);
        }
        let waiters = match fx::map_get(&self.chart[start].waiting_terminal, scan.terminal) {
            Some(list) => list.clone(),
            None => Vec::new(),
        };
        let ghost list = self.chart@[start as int].waiting_terminal@;
        assert(forall|waiter: EarleyItem|
            waiters@.contains(waiter) <==> #[trigger] waits(list, scan.terminal, waiter)) by {
            if list.dom().contains(scan.terminal) {
                assert(waiters@ =~= list[scan.terminal]@);
            }
        }
        let mut index: usize = 0;
        while index < waiters.len()
            invariant
                index <= waiters@.len(),
                *old(self) == before,
                self.wf(),
                before.wf(),
                column == self.chart@.len() - 1,
                self.same_frame(&before),
                self.same_waiting(&before),
                self.current().keyed(),
                self.counted(&before),
                before.items().len() <= self.items().len(),
                self.leo_items == before.leo_items,
                self.items().len() <= self.limits.max_items_per_column,
                start == scan.start,
                start < column,
                before.items().len() <= self.items().len(),
                forall|k: int|
                    0 <= k < before.items().len() ==> #[trigger] self.items()[k]
                        == before.items()[k],
                forall|other: EarleyItem|
                    before.items().contains(other) ==> #[trigger] self.items().contains(other),
                list == before.chart@[start as int].waiting_terminal@,
                self.compiled.read_on(scan, byte) is Some,
                self.compiled.grammar.terminals@[scan.terminal as int].spec_accepting(
                    self.compiled.read_on(scan, byte)->0,
                ),
                forall|waiter: EarleyItem|
                    waiters@.contains(waiter) <==> #[trigger] waits(list, scan.terminal, waiter),
                forall|i: int|
                    0 <= i < index ==> self.items().contains(
                        self.compiled.advanced(#[trigger] waiters@[i]),
                    ),
                forall|k: int|
                    before.items().len() <= k < self.items().len() ==> self.compiled.scanned(
                        before.prior(),
                        scan,
                        byte,
                        #[trigger] self.items()[k],
                    ),
            decreases waiters@.len() - index,
        {
            let waiter = waiters[index];
            let ghost middle = *self;
            proof {
                assert(waiters@.contains(waiter));
                assert(waits(list, scan.terminal, waiter));
                assert(before.compiled.column_ok(before.chart@[start as int], start as int));
                self.compiled.lemma_item(waiter);
                assert(before.prior()[start as int] == before.chart@[start as int]);
            }
            let advanced = match self.advance_item(waiter) {
                Ok(advanced) => advanced,
                Err(error) => {
                    return Err(error);
                },
            };
            match self.insert_item(column, advanced) {
                Ok(()) => {},
                Err(error) => {
                    proof {
                        assert(self.prior() =~= before.prior());
                        assert(self.compiled.scanned(before.prior(), scan, byte, advanced));
                    }
                    return Err(error);
                },
            }
            proof {
                assert(self.compiled.scanned(before.prior(), scan, byte, advanced));
                assert forall|k: int|
                    before.items().len() <= k < self.items().len() implies self.compiled.scanned(
                    before.prior(),
                    scan,
                    byte,
                    #[trigger] self.items()[k],
                ) by {
                    if k < middle.items().len() {
                        assert(self.items()[k] == middle.items()[k]);
                    }
                }
                assert forall|other: EarleyItem| before.items().contains(
                    other,
                ) implies #[trigger] self.items().contains(other) by {
                    assert(middle.items().contains(other));
                }
            }
            index += 1;
        }
        proof {
            assert(self.prior() =~= before.prior());
            assert forall|item: EarleyItem| #[trigger] self.compiled.scanned(
                self.prior(),
                scan,
                byte,
                item,
            ) implies self.items().contains(item) by {
                assert(self.prior()[start as int] == before.chart@[start as int]);
                let waiter = choose|waiter: EarleyItem| #[trigger]
                    waits(list, scan.terminal, waiter) && item == self.compiled.advanced(waiter);
                assert(waiters@.contains(waiter));
                let i = choose|i: int| 0 <= i < waiters@.len() && waiters@[i] == waiter;
                assert(self.items().contains(self.compiled.advanced(waiters@[i])));
            }
        }
        Ok(())
    }
}

impl CompiledEarley {
    proof fn lemma_seeded_step(
        &self,
        prior: Seq<ChartColumn>,
        scans: Seq<ActiveScan>,
        count: int,
        byte: u8,
        items: Seq<EarleyItem>,
        more: Seq<EarleyItem>,
    )
        requires
            0 <= count < scans.len(),
            self.seeded(prior, scans, count, byte, items),
            items.len() <= more.len(),
            forall|k: int| 0 <= k < items.len() ==> #[trigger] more[k] == items[k],
            forall|other: EarleyItem|
                items.contains(other) ==> #[trigger] more.contains(other),
            forall|k: int|
                items.len() <= k < more.len() ==> self.scanned(
                    prior,
                    scans[count],
                    byte,
                    #[trigger] more[k],
                ),
            forall|item: EarleyItem| #[trigger]
                self.scanned(prior, scans[count], byte, item) ==> more.contains(item),
        ensures
            self.seeded(prior, scans, count + 1, byte, more),
    {
        reveal(CompiledEarley::seeded);
        assert forall|k: int| 0 <= k < more.len() implies self.scanned_by(
            prior,
            scans,
            count + 1,
            byte,
            #[trigger] more[k],
        ) by {
            if k < items.len() {
                assert(more[k] == items[k]);
                assert(self.scanned_by(prior, scans, count, byte, items[k]));
                let i = choose|i: int|
                    0 <= i < count && #[trigger] self.scanned(prior, scans[i], byte, items[k]);
                assert(self.scanned(prior, scans[i], byte, more[k]));
            } else {
                assert(self.scanned(prior, scans[count], byte, more[k]));
            }
        }
        assert forall|i: int, item: EarleyItem|
            0 <= i < count + 1 && #[trigger] self.scanned(
                prior,
                scans[i],
                byte,
                item,
            ) implies more.contains(item) by {
            if i < count {
                assert(items.contains(item));
            }
        }
    }

    proof fn lemma_continued_step(
        &self,
        scans: Seq<ActiveScan>,
        count: int,
        byte: u8,
        continuing: Seq<ActiveScan>,
        more: Seq<ActiveScan>,
    )
        requires
            0 <= count < scans.len(),
            self.continued(scans, count, byte, continuing),
            ({
                let read = self.read_on(scans[count], byte);
                if read is Some && self.grammar.terminals@[scans[count].terminal as int].spec_live(
                    read->0,
                ) {
                    more == continuing.push(ActiveScan { cursor: read->0, ..scans[count] })
                } else {
                    more == continuing
                }
            }),
        ensures
            self.continued(scans, count + 1, byte, more),
    {
        reveal(CompiledEarley::continued);
        assert forall|next: ActiveScan| #[trigger]
            more.contains(next) <==> exists|i: int|
                0 <= i < count + 1 && #[trigger] self.continues(scans[i], byte, next) by {
            if more != continuing {
                lemma_push_contains(continuing, more.last(), next);
            }
            if more.contains(next) {
                if continuing.contains(next) {
                    let i = choose|i: int|
                        0 <= i < count && #[trigger] self.continues(scans[i], byte, next);
                    assert(self.continues(scans[i], byte, next));
                } else {
                    assert(self.continues(scans[count], byte, next));
                }
            }
            if exists|i: int|
                0 <= i < count + 1 && #[trigger] self.continues(scans[i], byte, next) {
                let i = choose|i: int|
                    0 <= i < count + 1 && #[trigger] self.continues(scans[i], byte, next);
                if i < count {
                    assert(continuing.contains(next));
                }
            }
        }
    }
}

impl CompiledEarley {
    /// Whether an error says why the first column was refused, and it is so: too many items that
    /// follow from the one that recognition starts with, or shortcuts, or too many scans.
    pub open spec fn start_refused(
        &self,
        first: &EarleyRecognizer,
        limits: RuntimeLimits,
        leo_enabled: bool,
        e: RuntimeError,
    ) -> bool {
        &&& *first.compiled == *self
        &&& first.limits == limits
        &&& first.leo_enabled == leo_enabled
        &&& first.chart@.len() == 1
        &&& first.total_items == first.items().len()
        &&& {
            ||| first.items().len() == 0 && first.insertion_error() == Some(e)
            ||| first.crammed(seq![self.predicted(self.root(), 0)], e)
            ||| exists|scans: Seq<ActiveScan>| #[trigger] first.crowds_first(scans, e)
        }
    }

    /// A recognizer at the start of the input. Checkpoints of recognizers with another generation
    /// do not fit it.
    pub fn recognizer(
        self: &Arc<Self>,
        limits: RuntimeLimits,
        leo_enabled: bool,
        generation: u64,
    ) -> (result: Result<EarleyRecognizer, RuntimeError>)
        requires
            self.wf(),
        ensures
            result matches Ok(recognizer) ==> {
                &&& recognizer.wf()
                &&& recognizer.compiled == *self
                &&& recognizer.limits == limits
                &&& recognizer.leo_enabled == leo_enabled
                &&& recognizer.generation == generation
                &&& recognizer.byte_position == 0
                &&& self.grammar.nullable_exact() ==> recognizer.recognizes(Seq::empty())
                &&& recognizer.chart@.len() == 1
                &&& recognizer.items().len() <= limits.max_items_per_column
                &&& recognizer.total_items == recognizer.items().len() <= limits.max_total_items
                &&& recognizer.leo_items == recognizer.current().leo_by_postdot@.dom().len()
                &&& recognizer.leo_items <= limits.max_leo_items
                &&& recognizer.active_scans@.len() <= limits.max_active_scans
                &&& scans_ascend(recognizer.active_scans@)
                &&& recognizer.current().keyed()
                &&& recognizer.stats.columns == 1
                &&& recognizer.stats.items_inserted == recognizer.items().len()
                &&& recognizer.stats.leo_candidates == recognizer.leo_items
                &&& recognizer.stats.scans == 0
                &&& recognizer.stats.max_column_items == recognizer.items().len()
                &&& recognizer.stats.max_active_scans == recognizer.active_scans@.len()
            },
            limits.max_chart_columns == 0 ==> result == Err::<EarleyRecognizer, _>(
                RuntimeError::ResourceLimitExceeded {
                    resource: RuntimeResource::ChartColumns,
                    observed: 1,
                    limit: 0,
                },
            ),
            limits.max_chart_columns > 0 ==> (result matches Err(e) ==> column_failure(e, limits)
                && exists|first: EarleyRecognizer| #[trigger]
                self.start_refused(&first, limits, leo_enabled, e)),
    {
        match enforce_runtime_limit(RuntimeResource::ChartColumns, 1, limits.max_chart_columns) {
            Ok(()) => {},
            Err(error) => {
                return Err(error);
            },
        }
        let mut chart: Vec<ChartColumn> = Vec::new();
        chart.push(ChartColumn::new(0));
        let mut recognizer = EarleyRecognizer {
            compiled: Arc::clone(self),
            limits,
            leo_enabled,
            generation,
            chart,
            active_scans: Vec::new(),
            byte_position: 0,
            total_items: 0,
            leo_items: 0,
            stats: EarleyStats::default(),
        };
        proof {
            self.lemma_item_of(self.root(), 0, 0);
        }
        let start: u32 = self.dotted_offsets[self.augmented_production as usize];
        let item = EarleyItem { dotted: start, origin: 0 };
        let ghost empty = recognizer;
        match recognizer.insert_item(0, item) {
            Ok(()) => {},
            Err(error) => {
                assert(self.start_refused(&recognizer, limits, leo_enabled, error));
                return Err(error);
            },
        }
        let ghost seeded = recognizer;
        assert(seeded.items() =~= seq![item]);
        let scans = match recognizer.saturate(0) {
            Ok(scans) => scans,
            Err(error) => {
                assert(self.start_refused(&recognizer, limits, leo_enabled, error));
                return Err(error);
            },
        };
        match enforce_runtime_limit(
            RuntimeResource::ActiveScans,
            scans.len(),
            recognizer.limits.max_active_scans,
        ) {
            Ok(()) => {},
            Err(error) => {
                assert(recognizer.crowds_first(scans@, error));
                assert(self.start_refused(&recognizer, limits, leo_enabled, error));
                return Err(error);
            },
        }
        let ghost created = scans@;
        proof {
            recognizer.lemma_created_ok(created, 1);
        }
        recognizer.active_scans = scans;
        recognizer.finish_column_stats(0);
        proof {
            let w = Seq::<u8>::empty();
            if self.grammar.nullable_exact() {
                assert(seeded.items() =~= seq![item]);
                assert(recognizer.items()[0] == item);
                assert(recognizer.items().contains(item));
                assert(item == self.predicted(self.root(), 0));
                self.lemma_first_column(recognizer.leo_enabled, recognizer.chart@, created);
                self.lemma_scans_first(recognizer.leo_enabled, recognizer.chart@, created);
            }
        }
        Ok(recognizer)
    }
}

impl EarleyRecognizer {
    /// Whether the recognizer is where it is after reading `h`: its chart is that of `h`, and its
    /// scans are those that `h` leaves open.
    pub open spec fn recognizes(&self, h: Seq<u8>) -> bool {
        &&& self.wf()
        &&& self.compiled.grammar.nullable_exact()
        &&& self.chart@.len() == h.len() + 1
        &&& self.byte_position == h.len()
        &&& forall|c: int|
            0 <= c <= h.len() ==> #[trigger] self.compiled.column_exact(self.chart@, c, h)
        &&& self.compiled.scans_exact(self.chart@, h, self.active_scans@)
        &&& !self.leo_enabled ==> forall|c: int|
            0 <= c <= h.len() ==> (#[trigger] self.chart@[c]).leo_by_postdot@.dom() == Set::<
                u32,
            >::empty()
    }

    /// Whether the input so far is recognized as a whole.
    pub open spec fn accepting(&self) -> bool {
        self.current().membership@.contains(
            item_key((EarleyItem { dotted: self.compiled.augmented_complete, origin: 0 })) as u64,
        )
    }

    /// Whether the input so far is recognized as a whole, or a terminal is still being read.
    pub open spec fn live(&self) -> bool {
        self.accepting() || self.active_scans@.len() > 0
    }

    /// Whether what was there before is still there, in front of what may have been added.
    pub open spec fn extends(&self, before: &Self) -> bool {
        &&& self.compiled == before.compiled
        &&& self.limits == before.limits
        &&& self.leo_enabled == before.leo_enabled
        &&& self.generation == before.generation
        &&& before.chart@.len() <= self.chart@.len()
        &&& self.chart@.take(before.chart@.len() as int) == before.chart@
    }

    /// Whether items are those that the scans complete by a byte.
    pub open spec fn seeds_next(&self, byte: u8, seeds: Seq<EarleyItem>) -> bool {
        self.compiled.seeded(
            self.chart@,
            self.active_scans@,
            self.active_scans@.len() as int,
            byte,
            seeds,
        )
    }

    /// Whether an error says that the scans behind a byte are too many, and they are: those that the
    /// byte continues and those that the items of the next column ask for, each once.
    pub open spec fn crowds_next(
        &self,
        after: &Self,
        byte: u8,
        seeds: Seq<EarleyItem>,
        continued: Seq<ActiveScan>,
        created: Seq<ActiveScan>,
        scans: Seq<ActiveScan>,
        e: RuntimeError,
    ) -> bool {
        &&& after.prior() == self.chart@
        &&& self.seeds_next(byte, seeds)
        &&& self.compiled.continued(
            self.active_scans@,
            self.active_scans@.len() as int,
            byte,
            continued,
        )
        &&& after.compiled.worked(
            after.leo_enabled,
            after.prior(),
            after.current(),
            created,
            seeds.len() as int,
            after.items().len() as int,
        )
        &&& scans_ascend(scans)
        &&& forall|scan: ActiveScan| #[trigger]
            scans.contains(scan) <==> continued.contains(scan) || created.contains(scan)
        &&& too_many_scans(scans.len(), self.limits, e)
    }

    /// Whether an error says why the next column was refused, and it is so: too many items that the
    /// byte completes, too many that follow from these or shortcuts, or too many scans.
    pub open spec fn next_refused(&self, after: &Self, byte: u8, e: RuntimeError) -> bool {
        ||| after.prior() == self.chart@ && after.scan_bursts(self.active_scans@, byte, e)
        ||| after.prior() == self.chart@ && exists|seeds: Seq<EarleyItem>| #[trigger]
            self.seeds_next(byte, seeds) && after.crammed(seeds, e)
        ||| exists|
            seeds: Seq<EarleyItem>,
            continued: Seq<ActiveScan>,
            created: Seq<ActiveScan>,
            scans: Seq<ActiveScan>,
        | #[trigger]
            self.crowds_next(after, byte, seeds, continued, created, scans, e)
    }

    /// Whether an error says that the scans of the first column are too many, and they are: those
    /// that its items ask for, each once.
    pub open spec fn crowds_first(&self, scans: Seq<ActiveScan>, e: RuntimeError) -> bool {
        &&& self.compiled.worked(
            self.leo_enabled,
            self.prior(),
            self.current(),
            scans,
            1,
            self.items().len() as int,
        )
        &&& scans_ascend(scans)
        &&& too_many_scans(scans.len(), self.limits, e)
    }

    /// Whether one more column keeps within the limits.
    pub open spec fn within(&self, before: &Self) -> bool {
        &&& self.items().len() <= self.limits.max_items_per_column
        &&& self.active_scans@.len() <= self.limits.max_active_scans
        &&& scans_ascend(self.active_scans@)
        &&& self.current().keyed()
        &&& self.total_items == before.total_items + self.items().len()
        &&& self.leo_items == before.leo_items + self.current().leo_by_postdot@.dom().len()
        &&& self.total_items <= self.limits.max_total_items || self.items().len() == 0
        &&& self.leo_items <= self.limits.max_leo_items || self.leo_items == before.leo_items
    }

    /// Whether a byte was read, and what is said of it is right.
    pub open spec fn took(&self, before: &Self, byte: u8, live: bool) -> bool {
        &&& self.within(before)
        &&& self.counts_byte(before, byte)
        &&& before.refusal() is None
        &&& live == self.live()
        &&& self.chart@.len() == before.chart@.len() + 1
        &&& self.byte_position == before.byte_position + 1
        &&& forall|h: Seq<u8>| #[trigger]
            before.recognizes(h) ==> self.recognizes(h.push(byte))
    }

    /// Whether the counts are those behind one more byte: of the columns, of the items and shortcuts
    /// of the last, of the terminals that the byte reads on, and the largest numbers so far.
    pub open spec fn counts_byte(&self, before: &Self, byte: u8) -> bool {
        &&& self.stats.columns == self.chart@.len()
        &&& self.stats.items_inserted == more_of(
            before.stats.items_inserted,
            self.items().len() as int,
        )
        &&& self.stats.leo_candidates == more_of(
            before.stats.leo_candidates,
            self.current().leo_by_postdot@.dom().len() as int,
        )
        &&& self.stats.scans == more_of(
            before.stats.scans,
            self.compiled.read_count(before.active_scans@, before.active_scans@.len(), byte) as int,
        )
        &&& self.stats.max_column_items == larger_of(
            before.stats.max_column_items,
            self.items().len() as int,
        )
        &&& self.stats.max_active_scans == larger_of(
            before.stats.max_active_scans,
            self.active_scans@.len() as int,
        )
    }

    /// The error that refuses another byte before anything changes, if there is one.
    pub open spec fn refusal(&self) -> Option<RuntimeError> {
        let next = self.byte_position + 1;
        if next > self.limits.max_input_bytes {
            Some(
                RuntimeError::ResourceLimitExceeded {
                    resource: RuntimeResource::InputBytes,
                    observed: next as usize,
                    limit: self.limits.max_input_bytes,
                },
            )
        } else if count::saturated(self.chart@.len() + 1) > self.limits.max_chart_columns {
            Some(
                RuntimeError::ResourceLimitExceeded {
                    resource: RuntimeResource::ChartColumns,
                    observed: count::saturated(self.chart@.len() + 1) as usize,
                    limit: self.limits.max_chart_columns,
                },
            )
        } else if next > u32::MAX {
            Some(
                RuntimeError::ResourceLimitExceeded {
                    resource: RuntimeResource::InputBytes,
                    observed: next as usize,
                    limit: u32::MAX as usize,
                },
            )
        } else {
            None
        }
    }

    proof fn lemma_created_ok(&self, created: Seq<ActiveScan>, columns: int)
        requires
            self.wf(),
            columns == self.chart@.len(),
            exists|seeds: int|
                self.compiled.worked(
                    self.leo_enabled,
                    self.prior(),
                    self.current(),
                    created,
                    seeds,
                    self.items().len() as int,
                ),
        ensures
            forall|i: int|
                0 <= i < created.len() ==> self.compiled.scan_ok(#[trigger] created[i], columns),
    {
        reveal(CompiledEarley::worked);
        let c = self.chart@.len() - 1;
        assert(self.compiled.column_ok(self.chart@[c], c));
        assert forall|i: int| 0 <= i < created.len() implies self.compiled.scan_ok(
            #[trigger] created[i],
            columns,
        ) by {
            let scan = created[i];
            assert(created.contains(scan));
            let w = choose|w: int|
                0 <= w < self.items().len() && self.compiled.next(#[trigger] self.items()[w])
                    == Some(Symbol::Terminal(scan.terminal));
            assert(self.compiled.item_ok(self.chart@[c].items@[w], c));
            self.compiled.lemma_item(self.items()[w]);
        }
    }

    /// Reads one byte, and says whether the input so far is recognized or can still become so.
    pub fn advance_byte(&mut self, byte: u8) -> (result: Result<bool, RuntimeError>)
        requires
            old(self).wf(),
        ensures
            final(self).wf(),
            final(self).extends(old(self)),
            old(self).refusal() matches Some(e) ==> result == Err::<bool, _>(e) && *final(self)
                == *old(self),
            old(self).refusal() is None ==> (result matches Err(e) ==> column_failure(
                e,
                old(self).limits,
            ) && old(self).next_refused(final(self), byte, e)),
            result matches Ok(live) ==> final(self).took(old(self), byte, live),
    {
        assert(self.chart@.take(self.chart@.len() as int) =~= self.chart@);
        assert(self.byte_position < self.chart.len());
        let next_position: usize = self.byte_position as usize + 1;
        match enforce_runtime_limit(
            RuntimeResource::InputBytes,
            next_position,
            self.limits.max_input_bytes,
        ) {
            Ok(()) => {},
            Err(error) => {
                return Err(error);
            },
        }
        match enforce_runtime_limit(
            RuntimeResource::ChartColumns,
            self.chart.len().saturating_add(1),
            self.limits.max_chart_columns,
        ) {
            Ok(()) => {},
            Err(error) => {
                return Err(error);
            },
        }
        if next_position > u32::MAX as usize {
            return Err(
                RuntimeError::ResourceLimitExceeded {
                    resource: RuntimeResource::InputBytes,
                    observed: next_position,
                    limit: u32::MAX as usize,
                },
            );
        }
        let position: u32 = next_position as u32;
        let ghost before = *self;
        let mut scans: Vec<ActiveScan> = Vec::new();
        std::mem::swap(&mut scans, &mut self.active_scans);
        self.chart.push(ChartColumn::new(position));
        let column: usize = self.chart.len() - 1;
        proof {
            assert(self.chart@.take(before.chart@.len() as int) =~= before.chart@);
            assert(self.prior() =~= before.chart@);
            assert forall|c: int| 0 <= c < self.chart@.len() implies self.compiled.column_ok(
                #[trigger] self.chart@[c],
                c,
            ) by {
                if c < column {
                    assert(self.chart@[c] == before.chart@[c]);
                }
            }
        }
        let ghost pushed = *self;
        let mut continuing = match self.scan_byte(column, byte, &scans) {
            Ok(continuing) => continuing,
            Err(error) => {
                assert(self.chart@.take(before.chart@.len() as int) =~= before.chart@);
                assert(self.prior() =~= before.chart@);
                return Err(error);
            },
        };
        let ghost seeded = *self;
        let ghost continued = continuing@;
        assert(self.prior() =~= before.chart@);
        let mut created = match self.saturate(column) {
            Ok(created) => created,
            Err(error) => {
                assert(self.chart@.take(before.chart@.len() as int) =~= before.chart@);
                assert(self.prior() =~= before.chart@);
                assert(before.seeds_next(byte, seeded.items()) && self.crammed(
                    seeded.items(),
                    error,
                ));
                return Err(error);
            },
        };
        let ghost new_scans = created@;
        proof {
            self.lemma_created_ok(new_scans, column + 1);
        }
        continuing.append(&mut created);
        let ghost all = continuing@;
        let sorted = sorted_scans(continuing);
        assert(self.chart@.take(before.chart@.len() as int) =~= before.chart@);
        match enforce_runtime_limit(
            RuntimeResource::ActiveScans,
            sorted.len(),
            self.limits.max_active_scans,
        ) {
            Ok(()) => {},
            Err(error) => {
                proof {
                    assert(all =~= continued + new_scans);
                    assert(self.prior() =~= before.chart@);
                    assert forall|scan: ActiveScan| #[trigger] sorted@.contains(
                        scan,
                    ) <==> continued.contains(scan) || new_scans.contains(scan) by {
                        lemma_concat_contains(continued, new_scans, scan);
                    }
                    assert(before.crowds_next(
                        &*self,
                        byte,
                        seeded.items(),
                        continued,
                        new_scans,
                        sorted@,
                        error,
                    ));
                }
                return Err(error);
            },
        }
        proof {
            assert(all =~= continued + new_scans);
            assert forall|i: int| 0 <= i < sorted@.len() implies self.compiled.scan_ok(
                #[trigger] sorted@[i],
                column + 1,
            ) by {
                assert(sorted@.contains(sorted@[i]));
                let k = choose|k: int| 0 <= k < all.len() && all[k] == sorted@[i];
                if k < continued.len() {
                    assert(self.compiled.scan_ok(continued[k], column as int));
                } else {
                    assert(self.compiled.scan_ok(new_scans[k - continued.len()], column + 1));
                }
            }
        }
        self.active_scans = sorted;
        self.byte_position = position;
        self.finish_column_stats(column);
        proof {
            assert(self.prior() =~= before.chart@);
            assert forall|h: Seq<u8>| #[trigger] before.recognizes(h) implies self.recognizes(
                h.push(byte),
            ) by {
                self.compiled.lemma_next_column(
                    self.leo_enabled,
                    before.chart@,
                    self.chart@,
                    scans@,
                    new_scans,
                    seeded.items(),
                    h,
                    byte,
                );
                assert forall|scan: ActiveScan| #[trigger] self.active_scans@.contains(
                    scan,
                ) <==> continued.contains(scan) || new_scans.contains(scan) by {
                    assert(sorted@.contains(scan) <==> all.contains(scan));
                    lemma_concat_contains(continued, new_scans, scan);
                }
                self.compiled.lemma_next_scans(
                    self.leo_enabled,
                    before.chart@,
                    self.chart@,
                    scans@,
                    continued,
                    new_scans,
                    self.active_scans@,
                    seeded.items().len() as int,
                    h,
                    byte,
                );
            }
        }
        Ok(self.is_live())
    }

    /// Brings the counts up to date with the last column.
    fn finish_column_stats(&mut self, column: usize)
        requires
            column < old(self).chart@.len(),
        ensures
            final(self).compiled == old(self).compiled,
            final(self).limits == old(self).limits,
            final(self).leo_enabled == old(self).leo_enabled,
            final(self).generation == old(self).generation,
            final(self).chart == old(self).chart,
            final(self).active_scans == old(self).active_scans,
            final(self).byte_position == old(self).byte_position,
            final(self).total_items == old(self).total_items,
            final(self).leo_items == old(self).leo_items,
            final(self).stats.columns == old(self).chart@.len(),
            final(self).stats.max_column_items == larger_of(
                old(self).stats.max_column_items,
                old(self).chart@[column as int].items@.len() as int,
            ),
            final(self).stats.max_active_scans == larger_of(
                old(self).stats.max_active_scans,
                old(self).active_scans@.len() as int,
            ),
            final(self).stats.items_inserted == old(self).stats.items_inserted,
            final(self).stats.leo_candidates == old(self).stats.leo_candidates,
            final(self).stats.scans == old(self).stats.scans,
    {
        self.stats.columns = usize_to_u64(self.chart.len());
        self.stats.max_column_items = count::larger(
            self.stats.max_column_items,
            usize_to_u64(self.chart[column].items.len()),
        );
        self.stats.max_active_scans = count::larger(
            self.stats.max_active_scans,
            usize_to_u64(self.active_scans.len()),
        );
        let item_bytes: usize = count::saturating_product(
            self.total_items,
            std::mem::size_of::<EarleyItem>(),
        );
        let column_bytes: usize = count::saturating_product(
            self.chart.len(),
            std::mem::size_of::<ChartColumn>(),
        );
        let scan_bytes: usize = count::saturating_product(
            count::vec_capacity(&self.active_scans),
            std::mem::size_of::<ActiveScan>(),
        );
        self.stats.estimated_bytes = usize_to_u64(
            item_bytes.saturating_add(column_bytes).saturating_add(scan_bytes),
        );
    }

    /// Whether the input so far is recognized as a whole.
    #[must_use]
    pub fn is_accepting(&self) -> (accepting: bool)
        requires
            self.wf(),
        ensures
            accepting == self.accepting(),
            forall|h: Seq<u8>| #[trigger]
                self.recognizes(h) ==> accepting == self.compiled.grammar.generates(h),
    {
        proof {
            assert forall|h: Seq<u8>| #[trigger] self.recognizes(h) implies self.accepting()
                == self.compiled.grammar.generates(h) by {
                law_accepting_is_generated(self, h);
            }
        }
        let key: u64 = pack(EarleyItem { dotted: self.compiled.augmented_complete, origin: 0 });
        fx::set_contains(&self.chart[self.chart.len() - 1].membership, key)
    }

    /// Whether the input so far is recognized as a whole, or a terminal is still being read.
    #[must_use]
    pub fn is_live(&self) -> (live: bool)
        requires
            self.wf(),
        ensures
            live == self.live(),
    {
        self.is_accepting() || self.active_scans.len() > 0
    }

    /// The present state.
    #[must_use]
    pub fn checkpoint(&self) -> (checkpoint: EarleyCheckpoint)
        ensures
            checkpoint.captures(self),
    {
        let active_scans = self.active_scans.clone();
        assert(active_scans@ =~= self.active_scans@);
        EarleyCheckpoint {
            generation: self.generation,
            column_count: self.chart.len(),
            active_scans,
            byte_position: self.byte_position,
            total_items: self.total_items,
            leo_items: self.leo_items,
            stats: self.stats,
        }
    }

    /// Goes back to an earlier state.
    pub fn restore(&mut self, checkpoint: &EarleyCheckpoint) -> (result: Result<(), RuntimeError>)
        requires
            old(self).wf(),
            checkpoint.fits(old(self)),
        ensures
            final(self).wf(),
            checkpoint.generation != old(self).generation ==> result == Err::<(), _>(
                RuntimeError::InvalidCheckpoint {
                    expected_generation: old(self).generation,
                    found_generation: checkpoint.generation,
                },
            ) && *final(self) == *old(self),
            checkpoint.generation == old(self).generation && !(0 < checkpoint.column_count
                <= old(self).chart@.len()) ==> result == Err::<(), _>(
                RuntimeError::InternalInvariant {
                    message: "Earley checkpoint column count is invalid",
                },
            ) && *final(self) == *old(self),
            checkpoint.generation == old(self).generation && 0 < checkpoint.column_count
                <= old(self).chart@.len() ==> result is Ok && checkpoint.captures(final(self))
                && old(self).extends(final(self)),
    {
        if checkpoint.generation != self.generation {
            return Err(
                RuntimeError::InvalidCheckpoint {
                    expected_generation: self.generation,
                    found_generation: checkpoint.generation,
                },
            );
        }
        if checkpoint.column_count == 0 || checkpoint.column_count > self.chart.len() {
            return Err(
                RuntimeError::InternalInvariant {
                    message: "Earley checkpoint column count is invalid",
                },
            );
        }
        self.chart.truncate(checkpoint.column_count);
        self.active_scans = checkpoint.active_scans.clone();
        assert(self.active_scans@ =~= checkpoint.active_scans@);
        self.byte_position = checkpoint.byte_position;
        self.total_items = checkpoint.total_items;
        self.leo_items = checkpoint.leo_items;
        self.stats = checkpoint.stats;
        Ok(())
    }

    /// The counts so far.
    #[must_use]
    pub fn stats(&self) -> (stats: &EarleyStats)
        ensures
            *stats == self.stats,
    {
        &self.stats
    }
}

impl EarleyCheckpoint {
    /// Whether the checkpoint is that of the recognizer's state.
    pub open spec fn captures(&self, recognizer: &EarleyRecognizer) -> bool {
        &&& self.generation == recognizer.generation
        &&& self.column_count == recognizer.chart@.len()
        &&& self.active_scans@ == recognizer.active_scans@
        &&& self.byte_position == recognizer.byte_position
        &&& self.total_items == recognizer.total_items
        &&& self.leo_items == recognizer.leo_items
        &&& self.stats == recognizer.stats
    }

    /// Whether the checkpoint, if it is one of this recognizer, is of a sound state.
    pub open spec fn fits(&self, recognizer: &EarleyRecognizer) -> bool {
        self.generation == recognizer.generation && 0 < self.column_count
            <= recognizer.chart@.len() ==> {
            &&& self.byte_position < self.column_count
            &&& forall|i: int|
                0 <= i < self.active_scans@.len() ==> recognizer.compiled.scan_ok(
                    #[trigger] self.active_scans@[i],
                    self.column_count as int,
                )
        }
    }
}

/// A recognizer that goes back to a checkpoint of a state that its chart extends is in that state
/// again: it recognizes what it recognized then.
pub proof fn law_restore_returns(
    then: EarleyRecognizer,
    now: EarleyRecognizer,
    checkpoint: EarleyCheckpoint,
    after: EarleyRecognizer,
    h: Seq<u8>,
)
    requires
        then.recognizes(h),
        checkpoint.captures(&then),
        now.extends(&then),
        now.extends(&after),
        after.wf(),
        checkpoint.captures(&after),
    ensures
        checkpoint.fits(&now),
        after.recognizes(h),
{
    assert(after.chart@ =~= now.chart@.take(then.chart@.len() as int));
}

/// A recognizer accepts exactly what its grammar generates.
pub proof fn law_accepting_is_generated(recognizer: &EarleyRecognizer, h: Seq<u8>)
    requires
        recognizer.wf(),
        recognizer.recognizes(h),
    ensures
        recognizer.accepting() == recognizer.compiled.grammar.generates(h),
{
    let compiled = recognizer.compiled;
    let done = EarleyItem { dotted: compiled.augmented_complete, origin: 0 };
    compiled.lemma_accepts(recognizer.chart@, h);
    compiled.lemma_exact_keyed(recognizer.chart@, h.len() as int, h);
    assert(recognizer.current().items@.contains(done)
        <==> recognizer.current().membership@.contains(item_key(done) as u64));
}

/// Shortcuts change nothing: recognizers of the same grammar that have read the same bytes accept
/// alike and are alike live, with shortcuts or without, and leave the same scans open.
pub proof fn law_leo_changes_nothing(one: &EarleyRecognizer, other: &EarleyRecognizer, h: Seq<u8>)
    requires
        one.compiled == other.compiled,
        one.recognizes(h),
        other.recognizes(h),
    ensures
        one.accepting() == other.accepting(),
        one.live() == other.live(),
        forall|scan: ActiveScan| #[trigger]
            one.active_scans@.contains(scan) <==> other.active_scans@.contains(scan),
{
    law_accepting_is_generated(one, h);
    law_accepting_is_generated(other, h);
    one.compiled.lemma_same_scans(
        one.chart@,
        other.chart@,
        h,
        one.active_scans@,
        other.active_scans@,
    );
    if one.active_scans@.len() > 0 {
        assert(one.active_scans@.contains(one.active_scans@[0]));
        assert(other.active_scans@.contains(one.active_scans@[0]));
    }
    if other.active_scans@.len() > 0 {
        assert(other.active_scans@.contains(other.active_scans@[0]));
        assert(one.active_scans@.contains(other.active_scans@[0]));
    }
}

/// With shortcuts or without, a byte is answered alike: recognizers of the same grammar that have
/// read the same bytes say the same of one more, and then accept alike and are alike live, and have
/// again read the same.
pub proof fn law_leo_answers_alike(
    one: &EarleyRecognizer,
    other: &EarleyRecognizer,
    one_after: &EarleyRecognizer,
    other_after: &EarleyRecognizer,
    h: Seq<u8>,
    byte: u8,
    answer: bool,
    other_answer: bool,
)
    requires
        one.compiled == other.compiled,
        one.recognizes(h),
        other.recognizes(h),
        one_after.extends(one),
        other_after.extends(other),
        one_after.took(one, byte, answer),
        other_after.took(other, byte, other_answer),
    ensures
        answer == other_answer,
        one_after.accepting() == other_after.accepting(),
        one_after.live() == other_after.live(),
        one_after.recognizes(h.push(byte)),
        other_after.recognizes(h.push(byte)),
{
    law_leo_changes_nothing(one_after, other_after, h.push(byte));
}

/// A recognizer from which something generated can still be reached is live.
pub proof fn law_viable_is_live(recognizer: &EarleyRecognizer, h: Seq<u8>, rest: Seq<u8>)
    requires
        recognizer.recognizes(h),
        recognizer.compiled.grammar.generates(h + rest),
    ensures
        recognizer.live(),
{
    let compiled = *recognizer.compiled;
    let w = h + rest;
    let chart = recognizer.chart@;
    let m = h.len() as int;
    if rest.len() == 0 {
        assert(w =~= h);
        let done = EarleyItem { dotted: compiled.augmented_complete, origin: 0 };
        compiled.lemma_accepts(chart, h);
        compiled.lemma_exact_keyed(chart, m, h);
        assert(recognizer.current().items@.contains(done)
            <==> recognizer.current().membership@.contains(item_key(done) as u64));
    } else {
        let root = compiled.root();
        let rules = compiled.rules();
        let lex = compiled.lex();
        let symbol = Symbol::Nonterminal(compiled.grammar.start);
        let end = w.len() as int;
        compiled.lemma_rules();
        assert(rules[root] == compiled.productions@[root].rule());
        derivation::lemma_yields_unused_rule(
            compiled.grammar.rules(),
            lex,
            Rule {
                lhs: compiled.grammar.nonterminals@.len() as u32,
                rhs: seq![symbol],
            },
            symbol,
            w,
            0,
            end,
        );
        let n = choose|n: nat| derivation::derives(rules, lex, n, symbol, w, 0, end);
        items::lemma_item_start(rules, lex, root, w);
        let open = items::lemma_item_open(rules, lex, root, n, w, m, 0, end, root, 0, 0);
        assert(w.take(open.c) =~= h.take(open.c));
        items::lemma_item_prefix(
            rules,
            lex,
            root,
            w,
            h,
            open.c,
            open.production,
            open.dot,
            open.origin,
        );
        compiled.lemma_open_scanned(chart, h, rest, recognizer.active_scans@, open);
    }
}

/// What a concatenation contains.
proof fn lemma_concat_contains<A>(left: Seq<A>, right: Seq<A>, item: A)
    ensures
        (left + right).contains(item) <==> left.contains(item) || right.contains(item),
{
    let both = left + right;
    if left.contains(item) {
        let i = choose|i: int| 0 <= i < left.len() && left[i] == item;
        assert(both[i] == item);
    }
    if right.contains(item) {
        let i = choose|i: int| 0 <= i < right.len() && right[i] == item;
        assert(both[left.len() + i] == item);
    }
    if both.contains(item) {
        let i = choose|i: int| 0 <= i < both.len() && both[i] == item;
        if i < left.len() {
            assert(left[i] == item);
        } else {
            assert(right[i - left.len()] == item);
        }
    }
}

/// The errors that another column can give.
pub open spec fn column_failure(e: RuntimeError, limits: RuntimeLimits) -> bool {
    saturation_failure(e, limits) || (e matches RuntimeError::ResourceLimitExceeded {
        resource,
        observed,
        limit,
    } && observed > limit && resource == RuntimeResource::ActiveScans && limit
        == limits.max_active_scans)
}

/// Whether an error says that so many scans are too many, and they are.
pub open spec fn too_many_scans(count: nat, limits: RuntimeLimits, e: RuntimeError) -> bool {
    e matches RuntimeError::ResourceLimitExceeded { resource, observed, limit } && resource
        == RuntimeResource::ActiveScans && observed == count && limit == limits.max_active_scans
        && count > limit
}

/// The errors that working off a column can give.
pub open spec fn saturation_failure(e: RuntimeError, limits: RuntimeLimits) -> bool {
    insertion_failure(e, limits) || (e matches RuntimeError::ResourceLimitExceeded {
        resource,
        observed,
        limit,
    } && observed >= limit && resource == RuntimeResource::LeoItems && limit
        == limits.max_leo_items)
}

/// The errors that adding an item can give.
pub open spec fn insertion_failure(e: RuntimeError, limits: RuntimeLimits) -> bool {
    e matches RuntimeError::ResourceLimitExceeded { resource, observed, limit } && observed >= limit
        && ((resource == RuntimeResource::ItemsPerColumn && limit == limits.max_items_per_column)
        || (resource == RuntimeResource::TotalItems && limit == limits.max_total_items))
}

} // verus!
