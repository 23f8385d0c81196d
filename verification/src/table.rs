//! Action and goto tables.

use vstd::prelude::*;

use crate::count;
use crate::error::{enforce_compile_limit, CompileError, CompileStage};
use crate::item_sets;
use crate::item_sets::{lookahead_before, LrGrammar, ParserProduction};
use crate::lr;
use crate::lr::{Action, LalrStateId, Lookahead, Lr1Item};
use crate::merge;
use crate::merge::Merged;
use crate::schema::{CompileLimits, Provenance};
use crate::sorting;
use crate::symbol::{NonterminalId, ProductionId, Symbol};

verus! {

/// How two actions conflict.
#[derive(Clone, Copy, Debug, PartialEq, Eq, Structural)]
pub enum ConflictKind {
    ShiftReduce,
    ReduceReduce,
    AcceptConflict,
}

/// Two actions for one lookahead.
#[derive(Debug, PartialEq, Eq)]
pub struct LalrConflict {
    pub kind: ConflictKind,
    pub state: LalrStateId,
    pub lookahead: Lookahead,
    pub first: Action,
    pub second: Action,
    pub productions: Vec<ProductionId>,
    pub provenance: Vec<Provenance>,
}

/// Whether two conflicts are the same.
pub open spec fn same_conflict(a: LalrConflict, b: LalrConflict) -> bool {
    &&& a.kind == b.kind
    &&& a.state == b.state
    &&& a.lookahead == b.lookahead
    &&& a.first == b.first
    &&& a.second == b.second
    &&& a.productions@ == b.productions@
    &&& a.provenance@ == b.provenance@
}

/// Whether two lists hold the same conflicts.
pub open spec fn same_conflicts(a: Seq<LalrConflict>, b: Seq<LalrConflict>) -> bool {
    &&& a.len() == b.len()
    &&& forall|i: int| 0 <= i < a.len() ==> same_conflict(#[trigger] a[i], b[i])
}

impl Clone for LalrConflict {
    fn clone(&self) -> (copy: Self)
        ensures
            same_conflict(*self, copy),
    {
        let productions = self.productions.clone();
        let provenance = self.provenance.clone();
        assert(productions@ =~= self.productions@);
        assert(provenance@ =~= self.provenance@);
        LalrConflict {
            kind: self.kind,
            state: self.state,
            lookahead: self.lookahead,
            first: self.first,
            second: self.second,
            productions,
            provenance,
        }
    }
}

/// Copies conflicts.
pub fn clone_conflicts(list: &Vec<LalrConflict>) -> (copies: Vec<LalrConflict>)
    ensures
        same_conflicts(list@, copies@),
{
    let mut copies: Vec<LalrConflict> = Vec::new();
    while copies.len() < list.len()
        invariant
            copies@.len() <= list@.len(),
            forall|i: int| 0 <= i < copies@.len() ==> same_conflict(#[trigger] list@[i], copies@[i]),
        decreases list@.len() - copies@.len(),
    {
        copies.push(list[copies.len()].clone());
    }
    copies
}

/// For each state, the actions by lookahead and the states that follow by nonterminal, each in
/// ascending order.
#[derive(Debug, PartialEq, Eq)]
pub struct LalrTable {
    pub actions: Vec<Vec<(Lookahead, Action)>>,
    pub gotos: Vec<Vec<(NonterminalId, LalrStateId)>>,
}

/// The action for a lookahead, if a row has one.
pub open spec fn action_at(row: Seq<(Lookahead, Action)>, lookahead: Lookahead) -> Option<Action>
    decreases row.len(),
{
    if row.len() == 0 {
        None
    } else if row[0].0 == lookahead {
        Some(row[0].1)
    } else {
        action_at(row.skip(1), lookahead)
    }
}

/// The state for a nonterminal, if a row has one.
pub open spec fn goto_at(
    row: Seq<(NonterminalId, LalrStateId)>,
    nonterminal: NonterminalId,
) -> Option<LalrStateId>
    decreases row.len(),
{
    if row.len() == 0 {
        None
    } else if row[0].0 == nonterminal {
        Some(row[0].1)
    } else {
        goto_at(row.skip(1), nonterminal)
    }
}

/// Whether the lookaheads of a row ascend, each once.
pub open spec fn actions_ascend(row: Seq<(Lookahead, Action)>) -> bool {
    forall|i: int, j: int|
        0 <= i < j < row.len() ==> item_sets::lookahead_rank(row[i].0)
            < item_sets::lookahead_rank(row[j].0)
}

/// Whether the nonterminals of a row ascend, each once.
pub open spec fn gotos_ascend(row: Seq<(NonterminalId, LalrStateId)>) -> bool {
    forall|i: int, j: int| 0 <= i < j < row.len() ==> row[i].0 < row[j].0
}

/// The action for a lookahead is that of the entry with it.
pub proof fn lemma_action_at(row: Seq<(Lookahead, Action)>, lookahead: Lookahead)
    ensures
        match action_at(row, lookahead) {
            Some(action) => row.contains((lookahead, action)),
            None => forall|x: int| 0 <= x < row.len() ==> (#[trigger] row[x]).0 != lookahead,
        },
    decreases row.len(),
{
    if row.len() > 0 {
        let rest = row.skip(1);
        lemma_action_at(rest, lookahead);
        if row[0].0 == lookahead {
            assert(row[0] == (lookahead, row[0].1));
        } else {
            match action_at(rest, lookahead) {
                Some(action) => {
                    let x = choose|x: int| 0 <= x < rest.len() && rest[x] == (lookahead, action);
                    assert(row[x + 1] == rest[x]);
                },
                None => {
                    assert forall|x: int| 0 <= x < row.len() implies (#[trigger] row[x]).0
                        != lookahead by {
                        if x > 0 {
                            assert(rest[x - 1] == row[x]);
                        }
                    }
                },
            }
        }
    }
}

/// In an ascending row, an entry with a lookahead is the action for it.
pub proof fn lemma_action_unique(row: Seq<(Lookahead, Action)>, x: int)
    requires
        actions_ascend(row),
        0 <= x < row.len(),
    ensures
        action_at(row, row[x].0) == Some(row[x].1),
{
    lemma_action_at(row, row[x].0);
    let action = action_at(row, row[x].0)->0;
    let y = choose|y: int| 0 <= y < row.len() && row[y] == (row[x].0, action);
    if x < y {
        assert(item_sets::lookahead_rank(row[x].0) < item_sets::lookahead_rank(row[y].0));
    } else if y < x {
        assert(item_sets::lookahead_rank(row[y].0) < item_sets::lookahead_rank(row[x].0));
    }
}

pub proof fn lemma_goto_at(row: Seq<(NonterminalId, LalrStateId)>, nonterminal: NonterminalId)
    ensures
        match goto_at(row, nonterminal) {
            Some(state) => row.contains((nonterminal, state)),
            None => forall|x: int| 0 <= x < row.len() ==> (#[trigger] row[x]).0 != nonterminal,
        },
    decreases row.len(),
{
    if row.len() > 0 {
        let rest = row.skip(1);
        lemma_goto_at(rest, nonterminal);
        if row[0].0 == nonterminal {
            assert(row[0] == (nonterminal, row[0].1));
        } else {
            match goto_at(rest, nonterminal) {
                Some(state) => {
                    let x = choose|x: int| 0 <= x < rest.len() && rest[x] == (nonterminal, state);
                    assert(row[x + 1] == rest[x]);
                },
                None => {
                    assert forall|x: int| 0 <= x < row.len() implies (#[trigger] row[x]).0
                        != nonterminal by {
                        if x > 0 {
                            assert(rest[x - 1] == row[x]);
                        }
                    }
                },
            }
        }
    }
}

pub proof fn lemma_goto_unique(row: Seq<(NonterminalId, LalrStateId)>, x: int)
    requires
        gotos_ascend(row),
        0 <= x < row.len(),
    ensures
        goto_at(row, row[x].0) == Some(row[x].1),
{
    lemma_goto_at(row, row[x].0);
    let state = goto_at(row, row[x].0)->0;
    let y = choose|y: int| 0 <= y < row.len() && row[y] == (row[x].0, state);
    if x < y {
        assert(row[x].0 < row[y].0);
    } else if y < x {
        assert(row[y].0 < row[x].0);
    }
}

/// The place of a lookahead in a row.
fn action_place(row: &Vec<(Lookahead, Action)>, lookahead: Lookahead) -> (place: usize)
    requires
        actions_ascend(row@),
    ensures
        place <= row@.len(),
        forall|i: int|
            0 <= i < place ==> item_sets::lookahead_rank((#[trigger] row@[i]).0)
                < item_sets::lookahead_rank(lookahead),
        forall|i: int|
            place <= i < row@.len() ==> item_sets::lookahead_rank((#[trigger] row@[i]).0)
                >= item_sets::lookahead_rank(lookahead),
{
    let mut low: usize = 0;
    let mut high: usize = row.len();
    while low < high
        invariant
            actions_ascend(row@),
            low <= high <= row@.len(),
            forall|i: int|
                0 <= i < low ==> item_sets::lookahead_rank((#[trigger] row@[i]).0)
                    < item_sets::lookahead_rank(lookahead),
            forall|i: int|
                high <= i < row@.len() ==> item_sets::lookahead_rank((#[trigger] row@[i]).0)
                    >= item_sets::lookahead_rank(lookahead),
        decreases high - low,
    {
        let middle: usize = low + (high - low) / 2;
        if lookahead_before(row[middle].0, lookahead) {
            assert forall|i: int| 0 <= i < middle + 1 implies item_sets::lookahead_rank(
                (#[trigger] row@[i]).0,
            ) < item_sets::lookahead_rank(lookahead) by {
                if i < middle {
                    assert(item_sets::lookahead_rank(row@[i].0) < item_sets::lookahead_rank(
                        row@[middle as int].0,
                    ));
                }
            }
            low = middle + 1;
        } else {
            assert forall|i: int| middle <= i < row@.len() implies item_sets::lookahead_rank(
                (#[trigger] row@[i]).0,
            ) >= item_sets::lookahead_rank(lookahead) by {
                if i > middle {
                    assert(item_sets::lookahead_rank(row@[middle as int].0)
                        < item_sets::lookahead_rank(row@[i].0));
                }
            }
            high = middle;
        }
    }
    low
}

/// The place of a nonterminal in a row.
fn goto_place(row: &Vec<(NonterminalId, LalrStateId)>, nonterminal: NonterminalId) -> (place: usize)
    requires
        gotos_ascend(row@),
    ensures
        place <= row@.len(),
        forall|i: int| 0 <= i < place ==> (#[trigger] row@[i]).0 < nonterminal,
        forall|i: int| place <= i < row@.len() ==> (#[trigger] row@[i]).0 >= nonterminal,
{
    let mut low: usize = 0;
    let mut high: usize = row.len();
    while low < high
        invariant
            gotos_ascend(row@),
            low <= high <= row@.len(),
            forall|i: int| 0 <= i < low ==> (#[trigger] row@[i]).0 < nonterminal,
            forall|i: int| high <= i < row@.len() ==> (#[trigger] row@[i]).0 >= nonterminal,
        decreases high - low,
    {
        let middle: usize = low + (high - low) / 2;
        if row[middle].0 < nonterminal {
            assert forall|i: int| 0 <= i < middle + 1 implies (#[trigger] row@[i]).0
                < nonterminal by {
                if i < middle {
                    assert(row@[i].0 < row@[middle as int].0);
                }
            }
            low = middle + 1;
        } else {
            assert forall|i: int| middle <= i < row@.len() implies (#[trigger] row@[i]).0
                >= nonterminal by {
                if i > middle {
                    assert(row@[middle as int].0 < row@[i].0);
                }
            }
            high = middle;
        }
    }
    low
}

impl LalrTable {
    /// The action of a state for a lookahead.
    pub open spec fn action(&self, state: u32, lookahead: Lookahead) -> Option<Action> {
        if state < self.actions@.len() {
            action_at(self.actions@[state as int]@, lookahead)
        } else {
            None
        }
    }

    /// The state that follows another on a nonterminal.
    pub open spec fn goto(&self, state: u32, nonterminal: u32) -> Option<u32> {
        if state < self.gotos@.len() {
            goto_at(self.gotos@[state as int]@, nonterminal)
        } else {
            None
        }
    }

    /// Whether the rows ascend.
    pub open spec fn wf(&self) -> bool {
        &&& forall|s: int|
            0 <= s < self.actions@.len() ==> actions_ascend((#[trigger] self.actions@[s])@)
        &&& forall|s: int|
            0 <= s < self.gotos@.len() ==> gotos_ascend((#[trigger] self.gotos@[s])@)
    }

    /// The action of a state for a lookahead.
    pub fn find_action(&self, state: LalrStateId, lookahead: Lookahead) -> (action: Option<Action>)
        requires
            self.wf(),
        ensures
            action == self.action(state, lookahead),
    {
        if state as usize >= self.actions.len() {
            return None;
        }
        let row = &self.actions[state as usize];
        assert(actions_ascend(row@));
        let place = action_place(row, lookahead);
        proof {
            lemma_action_at(row@, lookahead);
        }
        if place < row.len() && row[place].0 == lookahead {
            proof {
                lemma_action_unique(row@, place as int);
            }
            Some(row[place].1)
        } else {
            proof {
                if let Some(found) = action_at(row@, lookahead) {
                    let x = choose|x: int| 0 <= x < row@.len() && row@[x] == (lookahead, found);
                    if x > place {
                        assert(item_sets::lookahead_rank(row@[place as int].0)
                            < item_sets::lookahead_rank(row@[x].0));
                    }
                }
            }
            None
        }
    }

    /// The state that follows another on a nonterminal.
    pub fn find_goto(&self, state: LalrStateId, nonterminal: NonterminalId) -> (target: Option<
        LalrStateId,
    >)
        requires
            self.wf(),
        ensures
            target == self.goto(state, nonterminal),
    {
        if state as usize >= self.gotos.len() {
            return None;
        }
        let row = &self.gotos[state as usize];
        assert(gotos_ascend(row@));
        let place = goto_place(row, nonterminal);
        proof {
            lemma_goto_at(row@, nonterminal);
        }
        if place < row.len() && row[place].0 == nonterminal {
            proof {
                lemma_goto_unique(row@, place as int);
            }
            Some(row[place].1)
        } else {
            proof {
                if let Some(found) = goto_at(row@, nonterminal) {
                    let x = choose|x: int| 0 <= x < row@.len() && row@[x] == (nonterminal, found);
                    if x > place {
                        assert(row@[place as int].0 < row@[x].0);
                    }
                }
            }
            None
        }
    }
}

/// How two actions conflict.
pub open spec fn kind_of(first: Action, second: Action) -> ConflictKind {
    match (first, second) {
        (Action::Shift(_), Action::Reduce(_)) => ConflictKind::ShiftReduce,
        (Action::Reduce(_), Action::Shift(_)) => ConflictKind::ShiftReduce,
        (Action::Reduce(_), Action::Reduce(_)) => ConflictKind::ReduceReduce,
        _ => ConflictKind::AcceptConflict,
    }
}

/// Whether a conflict names the productions behind it, and where they come from: those that an
/// earlier set has, that of the item that clashes, and those that it reduces by.
pub open spec fn conflict_told(
    conflict: LalrConflict,
    productions: Seq<ParserProduction>,
    earlier: Set<u32>,
    source: u32,
) -> bool {
    &&& conflict.kind == kind_of(conflict.first, conflict.second)
    &&& conflict.first != conflict.second
    &&& sorting::ascending(conflict.productions@)
    &&& forall|p: u32| #[trigger]
        conflict.productions@.contains(p) <==> earlier.contains(p) || p == source || conflict.first
            == Action::Reduce(p) || conflict.second == Action::Reduce(p)
    &&& conflict.provenance@.len() == conflict.productions@.len()
    &&& forall|x: int|
        0 <= x < conflict.provenance@.len() ==> conflict.productions@[x] < productions.len()
            && #[trigger] conflict.provenance@[x] == productions[
        conflict.productions@[x] as int].provenance
}

/// The productions that are noted for the entry of a lookahead.
pub closed spec fn noted(
    row: Seq<(Lookahead, Action)>,
    sources: Seq<Vec<ProductionId>>,
    lookahead: Lookahead,
) -> Set<u32> {
    Set::new(
        |p: u32|
            exists|x: int|
                0 <= x < row.len() && (#[trigger] row[x]).0 == lookahead && sources[x]@.contains(p),
    )
}

/// Whether the productions noted for each entry of a row exist.
spec fn sources_in(
    row: Seq<(Lookahead, Action)>,
    sources: Seq<Vec<ProductionId>>,
    productions: Seq<ParserProduction>,
) -> bool {
    &&& sources.len() == row.len()
    &&& forall|x: int, y: int|
        0 <= x < sources.len() && 0 <= y < sources[x]@.len() ==> #[trigger] sources[x]@[y]
            < productions.len()
    &&& forall|x: int|
        0 <= x < row.len() ==> ((#[trigger] row[x]).1 matches Action::Reduce(p) ==> p
            < productions.len())
}

/// An entry that is put where it belongs is found, and every other stays.
proof fn lemma_action_insert(
    before: Seq<(Lookahead, Action)>,
    place: int,
    entry: (Lookahead, Action),
)
    requires
        actions_ascend(before),
        0 <= place <= before.len(),
        forall|i: int|
            0 <= i < place ==> item_sets::lookahead_rank((#[trigger] before[i]).0)
                < item_sets::lookahead_rank(entry.0),
        forall|i: int|
            place <= i < before.len() ==> item_sets::lookahead_rank((#[trigger] before[i]).0)
                > item_sets::lookahead_rank(entry.0),
    ensures
        actions_ascend(before.insert(place, entry)),
        forall|la: Lookahead| #[trigger]
            action_at(before.insert(place, entry), la) == (if la == entry.0 {
                Some(entry.1)
            } else {
                action_at(before, la)
            }),
{
    let after = before.insert(place, entry);
    assert forall|i: int, j: int| 0 <= i < j < after.len() implies item_sets::lookahead_rank(
        after[i].0,
    ) < item_sets::lookahead_rank(after[j].0) by {
        let x = if i < place {
            i
        } else {
            i - 1
        };
        let y = if j < place {
            j
        } else {
            j - 1
        };
        if i == place {
            assert(after[j] == before[y]);
        } else if j == place {
            assert(after[i] == before[i]);
        } else {
            assert(after[i] == before[x] && after[j] == before[y]);
        }
    }
    assert forall|la: Lookahead| #[trigger] action_at(after, la) == (if la == entry.0 {
        Some(entry.1)
    } else {
        action_at(before, la)
    }) by {
        lemma_action_at(after, la);
        lemma_action_at(before, la);
        if la == entry.0 {
            assert(after[place] == entry);
            lemma_action_unique(after, place);
        } else {
            if let Some(action) = action_at(before, la) {
                let x = choose|x: int| 0 <= x < before.len() && before[x] == (la, action);
                if x < place {
                    assert(after[x] == before[x]);
                    lemma_action_unique(after, x);
                } else {
                    assert(after[x + 1] == before[x]);
                    lemma_action_unique(after, x + 1);
                }
            }
            if let Some(action) = action_at(after, la) {
                let x = choose|x: int| 0 <= x < after.len() && after[x] == (la, action);
                if x < place {
                    assert(after[x] == before[x]);
                    lemma_action_unique(before, x);
                } else {
                    assert(after[x] == before[x - 1]);
                    lemma_action_unique(before, x - 1);
                }
            }
        }
    }
}

/// Whether a list holds a number.
fn holds_number(list: &Vec<u32>, number: u32) -> (found: bool)
    ensures
        found == list@.contains(number),
{
    let mut index: usize = 0;
    while index < list.len()
        invariant
            index <= list@.len(),
            forall|x: int| 0 <= x < index ==> list@[x] != number,
        decreases list@.len() - index,
    {
        if list[index] == number {
            assert(list@[index as int] == number);
            return true;
        }
        index += 1;
    }
    false
}

/// Tells of two actions for one lookahead.
fn tell_conflict(
    state: LalrStateId,
    lookahead: Lookahead,
    existing: Action,
    action: Action,
    source: ProductionId,
    sources: &Vec<ProductionId>,
    productions: &Vec<ParserProduction>,
) -> (conflict: LalrConflict)
    requires
        existing != action,
        source < productions@.len(),
        forall|y: int| 0 <= y < sources@.len() ==> #[trigger] sources@[y] < productions@.len(),
        existing matches Action::Reduce(p) ==> p < productions@.len(),
        action matches Action::Reduce(p) ==> p < productions@.len(),
    ensures
        conflict.state == state,
        conflict.lookahead == lookahead,
        conflict.first == existing,
        conflict.second == action,
        conflict_told(conflict, productions@, sources@.to_set(), source),
{
    let kind = match (existing, action) {
        (Action::Shift(_), Action::Reduce(_)) => ConflictKind::ShiftReduce,
        (Action::Reduce(_), Action::Shift(_)) => ConflictKind::ShiftReduce,
        (Action::Reduce(_), Action::Reduce(_)) => ConflictKind::ReduceReduce,
        _ => ConflictKind::AcceptConflict,
    };
    let mut involved = sources.clone();
    assert(involved@ =~= sources@);
    involved.push(source);
    let ghost at_source = sources@.len() as int;
    match existing {
        Action::Reduce(production) => {
            involved.push(production);
        },
        _ => {},
    }
    let ghost so_far = involved@;
    match action {
        Action::Reduce(production) => {
            involved.push(production);
        },
        _ => {},
    }
    let ghost all = involved@;
    assert(all[at_source] == source);
    assert forall|y: int| 0 <= y < sources@.len() implies all.contains(
        #[trigger] sources@[y],
    ) by {
        assert(all[y] == sources@[y]);
    }
    assert(existing matches Action::Reduce(p) ==> all[at_source + 1] == p);
    assert(action matches Action::Reduce(p) ==> all[all.len() - 1] == p);
    assert forall|x: int| 0 <= x < all.len() implies #[trigger] all[x] < productions@.len() by {
        if x < sources@.len() {
            assert(all[x] == sources@[x]);
        }
    }
    let unique = sorting::sorted_unique(involved);
    assert(unique@.contains(source)) by {
        assert(all.contains(source));
    }
    let mut provenance: Vec<Provenance> = Vec::new();
    while provenance.len() < unique.len()
        invariant
            provenance@.len() <= unique@.len(),
            forall|x: u32| #[trigger] unique@.contains(x) <==> all.contains(x),
            forall|x: int| 0 <= x < all.len() ==> #[trigger] all[x] < productions@.len(),
            forall|x: int|
                0 <= x < provenance@.len() ==> unique@[x] < productions@.len()
                    && #[trigger] provenance@[x] == productions@[unique@[x] as int].provenance,
        decreases unique@.len() - provenance@.len(),
    {
        let id = unique[provenance.len()];
        assert(unique@.contains(id));
        assert(all.contains(id));
        let y = Ghost(choose|y: int| 0 <= y < all.len() && all[y] == id);
        assert(all[y@] < productions@.len());
        provenance.push(productions[id as usize].provenance.clone());
    }
    assert forall|p: u32| #[trigger] unique@.contains(p) <==> sources@.to_set().contains(p) || p
        == source || existing == Action::Reduce(p) || action == Action::Reduce(p) by {
        assert(unique@.contains(p) <==> all.contains(p));
        if all.contains(p) {
            let y = choose|y: int| 0 <= y < all.len() && all[y] == p;
            if y < sources@.len() {
                assert(sources@[y] == p);
            }
        }
        if sources@.contains(p) {
            let y = choose|y: int| 0 <= y < sources@.len() && sources@[y] == p;
            assert(all.contains(sources@[y]));
        }
    }
    LalrConflict {
        kind,
        state,
        lookahead,
        first: existing,
        second: action,
        productions: unique,
        provenance,
    }
}

/// The error of too many conflicts or entries.
pub open spec fn over_table(observed: usize, limit: usize) -> CompileError {
    CompileError::ResourceLimitExceeded { stage: CompileStage::LalrTable, observed, limit }
}

/// What is noted for the lookahead of an entry is what is noted for the entry.
proof fn lemma_noted(row: Seq<(Lookahead, Action)>, sources: Seq<Vec<ProductionId>>, x: int)
    requires
        actions_ascend(row),
        0 <= x < row.len(),
    ensures
        noted(row, sources, row[x].0) == sources[x]@.to_set(),
{
    assert forall|p: u32| #[trigger] noted(row, sources, row[x].0).contains(p) <==> sources[
        x
    ]@.to_set().contains(p) by {
        if noted(row, sources, row[x].0).contains(p) {
            let y = choose|y: int|
                0 <= y < row.len() && (#[trigger] row[y]).0 == row[x].0 && sources[y]@.contains(p);
            if y < x {
                assert(item_sets::lookahead_rank(row[y].0) < item_sets::lookahead_rank(row[x].0));
            } else if x < y {
                assert(item_sets::lookahead_rank(row[x].0) < item_sets::lookahead_rank(row[y].0));
            }
        }
    }
    assert(noted(row, sources, row[x].0) =~= sources[x]@.to_set());
}

/// Puts an action into a row. One that differs from what the row has for the lookahead is a
/// conflict, and the row keeps what it has.
fn insert_action(
    row: &mut Vec<(Lookahead, Action)>,
    state: LalrStateId,
    lookahead: Lookahead,
    action: Action,
    source: ProductionId,
    productions: &Vec<ParserProduction>,
    sources: &mut Vec<Vec<ProductionId>>,
    conflicts: &mut Vec<LalrConflict>,
    limits: &CompileLimits,
) -> (result: Result<(), CompileError>)
    requires
        actions_ascend(old(row)@),
        sources_in(old(row)@, old(sources)@, productions@),
        source < productions@.len(),
        action matches Action::Reduce(p) ==> p < productions@.len(),
    ensures
        match result {
            Ok(_) => {
                &&& actions_ascend(final(row)@)
                &&& sources_in(final(row)@, final(sources)@, productions@)
                &&& forall|la: Lookahead| #[trigger]
                    action_at(final(row)@, la) == (if la == lookahead && action_at(
                        old(row)@,
                        la,
                    ) is None {
                        Some(action)
                    } else {
                        action_at(old(row)@, la)
                    })
                &&& if action_at(old(row)@, lookahead) is None || action_at(
                    old(row)@,
                    lookahead,
                ) == Some(action) {
                    final(conflicts)@ == old(conflicts)@
                } else {
                    &&& final(conflicts)@ == old(conflicts)@.push(final(conflicts)@.last())
                    &&& final(conflicts)@.len() == old(conflicts)@.len() + 1
                    &&& final(conflicts)@.last().state == state
                    &&& final(conflicts)@.last().lookahead == lookahead
                    &&& Some(final(conflicts)@.last().first) == action_at(old(row)@, lookahead)
                    &&& final(conflicts)@.last().second == action
                    &&& conflict_told(
                        final(conflicts)@.last(),
                        productions@,
                        noted(old(row)@, old(sources)@, lookahead),
                        source,
                    )
                    &&& final(conflicts)@.len() <= limits.max_reported_conflicts
                }
                &&& forall|la: Lookahead, p: u32| #[trigger]
                    noted(final(row)@, final(sources)@, la).contains(p) <==> noted(
                        old(row)@,
                        old(sources)@,
                        la,
                    ).contains(p) || (la == lookahead && p == source && (action_at(old(row)@, la)
                        is None || action_at(old(row)@, la) == Some(action)))
            },
            Err(error) => {
                &&& error == over_table(
                    count::saturated(old(conflicts)@.len() + 1) as usize,
                    limits.max_reported_conflicts,
                )
                &&& final(conflicts)@ == old(conflicts)@
                &&& count::saturated(old(conflicts)@.len() + 1) > limits.max_reported_conflicts
                &&& action_at(old(row)@, lookahead) is Some
                &&& action_at(old(row)@, lookahead) != Some(action)
            },
        },
{
    let ghost before = row@;
    let ghost sources_before = sources@;
    let place = action_place(row, lookahead);
    proof {
        lemma_action_at(before, lookahead);
    }
    if place >= row.len() || row[place].0 != lookahead {
        assert forall|i: int| place <= i < before.len() implies item_sets::lookahead_rank(
            (#[trigger] before[i]).0,
        ) > item_sets::lookahead_rank(lookahead) by {
            if item_sets::lookahead_rank(before[i].0) == item_sets::lookahead_rank(lookahead) {
                assert(before[i].0 == lookahead);
                if i > place {
                    assert(item_sets::lookahead_rank(before[place as int].0)
                        < item_sets::lookahead_rank(before[i].0));
                }
            }
        }
        proof {
            lemma_action_insert(before, place as int, (lookahead, action));
            assert(action_at(before, lookahead) is None) by {
                if let Some(found) = action_at(before, lookahead) {
                    let x = choose|x: int|
                        0 <= x < before.len() && before[x] == (lookahead, found);
                    assert(before[x].0 == lookahead);
                }
            }
        }
        row.insert(place, (lookahead, action));
        let mut list: Vec<ProductionId> = Vec::new();
        list.push(source);
        let ghost added = list;
        sources.insert(place, list);
        proof {
            let p = place as int;
            assert(row@ == before.insert(p, (lookahead, action)));
            assert(sources@ == sources_before.insert(p, added));
            assert forall|x: int, y: int|
                0 <= x < sources@.len() && 0 <= y < sources@[x]@.len() implies
                #[trigger] sources@[x]@[y] < productions@.len() by {
                if x < p {
                    assert(sources@[x] == sources_before[x]);
                } else if x > p {
                    assert(sources@[x] == sources_before[x - 1]);
                }
            }
            assert forall|x: int| 0 <= x < row@.len() implies ((
            #[trigger] row@[x]).1 matches Action::Reduce(q) ==> q < productions@.len()) by {
                if x < p {
                    assert(row@[x] == before[x]);
                } else if x > p {
                    assert(row@[x] == before[x - 1]);
                }
            }
            assert forall|la: Lookahead, q: u32| #[trigger]
                noted(row@, sources@, la).contains(q) <==> noted(
                    before,
                    sources_before,
                    la,
                ).contains(q) || (la == lookahead && q == source) by {
                if noted(row@, sources@, la).contains(q) {
                    let x = choose|x: int|
                        0 <= x < row@.len() && (#[trigger] row@[x]).0 == la
                            && sources@[x]@.contains(q);
                    if x < p {
                        assert(before[x] == row@[x]);
                        assert(sources_before[x] == sources@[x]);
                    } else if x > p {
                        assert(before[x - 1] == row@[x]);
                        assert(sources_before[x - 1] == sources@[x]);
                    } else {
                        assert(added@[0] == source);
                    }
                }
                if noted(before, sources_before, la).contains(q) {
                    let x = choose|x: int|
                        0 <= x < before.len() && (#[trigger] before[x]).0 == la
                            && sources_before[x]@.contains(q);
                    if x < p {
                        assert(row@[x] == before[x]);
                        assert(sources@[x] == sources_before[x]);
                    } else {
                        assert(row@[x + 1] == before[x]);
                        assert(sources@[x + 1] == sources_before[x]);
                    }
                }
                if la == lookahead && q == source {
                    assert(row@[p].0 == la);
                    assert(sources@[p]@[0] == q);
                }
            }
        }
        return Ok(());
    }
    let existing = row[place].1;
    proof {
        lemma_action_unique(before, place as int);
        assert(before[place as int].1 == existing);
        lemma_noted(before, sources_before, place as int);
    }
    if existing == action {
        if !holds_number(&sources[place], source) {
            sources[place].push(source);
            proof {
                let p = place as int;
                assert forall|x: int, y: int|
                    0 <= x < sources@.len() && 0 <= y < sources@[x]@.len() implies
                    #[trigger] sources@[x]@[y] < productions@.len() by {
                    if x != p {
                        assert(sources@[x] == sources_before[x]);
                    } else if y < sources_before[p]@.len() {
                        assert(sources@[p]@[y] == sources_before[p]@[y]);
                    }
                }
            }
        }
        proof {
            let p = place as int;
            lemma_noted(row@, sources@, p);
            assert forall|la: Lookahead, q: u32| #[trigger]
                noted(row@, sources@, la).contains(q) <==> noted(
                    before,
                    sources_before,
                    la,
                ).contains(q) || (la == lookahead && q == source) by {
                if la == lookahead {
                    crate::earley::lemma_push_contains(sources_before[p]@, source, q);
                } else {
                    if noted(row@, sources@, la).contains(q) {
                        let x = choose|x: int|
                            0 <= x < row@.len() && (#[trigger] row@[x]).0 == la
                                && sources@[x]@.contains(q);
                        assert(sources@[x] == sources_before[x]);
                        assert(before[x].0 == la);
                    }
                    if noted(before, sources_before, la).contains(q) {
                        let x = choose|x: int|
                            0 <= x < before.len() && (#[trigger] before[x]).0 == la
                                && sources_before[x]@.contains(q);
                        assert(sources@[x] == sources_before[x]);
                        assert(row@[x].0 == la);
                    }
                }
            }
        }
        return Ok(());
    }
    match enforce_compile_limit(
        CompileStage::LalrTable,
        conflicts.len().saturating_add(1),
        limits.max_reported_conflicts,
    ) {
        Ok(()) => {},
        Err(error) => {
            return Err(error);
        },
    }
    let conflict = tell_conflict(
        state,
        lookahead,
        existing,
        action,
        source,
        &sources[place],
        productions,
    );
    conflicts.push(conflict);
    assert(conflicts@.len() == conflicts.len());
    Ok(())
}

/// The action that an item calls for, and the lookahead for it.
pub open spec fn wanted(
    grammar: &LrGrammar,
    edges: Seq<(Symbol, u32)>,
    item: Lr1Item,
) -> Option<(Lookahead, Action)> {
    match lr::after_dot(grammar.rules(), item) {
        Some(Symbol::Terminal(t)) => Some(
            (
                Lookahead::Terminal(t),
                Action::Shift(merge::row_target(edges, Symbol::Terminal(t))->0),
            ),
        ),
        Some(Symbol::Nonterminal(_)) => None,
        None => if item.production == grammar.productions@.len() - 1 && item.lookahead
            == Lookahead::Eof {
            Some((Lookahead::Eof, Action::Accept))
        } else {
            Some((item.lookahead, Action::Reduce(item.production)))
        },
    }
}

/// Whether an item of a state calls for an action.
pub open spec fn called_for(
    grammar: &LrGrammar,
    merged: &Merged,
    s: int,
    lookahead: Lookahead,
    action: Action,
) -> bool {
    exists|x: int|
        0 <= x < merged.states@[s]@.len() && #[trigger] wanted(
            grammar,
            merged.edges@[s]@,
            merged.states@[s]@[x],
        ) == Some((lookahead, action))
}

/// The action that the first item to call for one on a lookahead calls for.
pub open spec fn first_action(
    grammar: &LrGrammar,
    edges: Seq<(Symbol, u32)>,
    items: Seq<Lr1Item>,
    lookahead: Lookahead,
) -> Option<Action>
    decreases items.len(),
{
    if items.len() == 0 {
        None
    } else {
        match first_action(grammar, edges, items.drop_last(), lookahead) {
            Some(action) => Some(action),
            None => match wanted(grammar, edges, items.last()) {
                Some((called, action)) => if called == lookahead {
                    Some(action)
                } else {
                    None
                },
                None => None,
            },
        }
    }
}

/// Whether the last item calls for another action than an item before it, on the same lookahead.
pub open spec fn last_clashes(
    grammar: &LrGrammar,
    edges: Seq<(Symbol, u32)>,
    items: Seq<Lr1Item>,
) -> bool {
    wanted(grammar, edges, items.last()) matches Some((lookahead, action)) && (first_action(
        grammar,
        edges,
        items.drop_last(),
        lookahead,
    ) matches Some(first) && first != action)
}

/// The items that call for another action than an item before them, on the same lookahead.
pub open spec fn clashing(
    grammar: &LrGrammar,
    edges: Seq<(Symbol, u32)>,
    items: Seq<Lr1Item>,
    s: int,
) -> Seq<(int, int)>
    decreases items.len(),
{
    if items.len() == 0 {
        Seq::empty()
    } else if last_clashes(grammar, edges, items) {
        clashing(grammar, edges, items.drop_last(), s).push((s, items.len() - 1))
    } else {
        clashing(grammar, edges, items.drop_last(), s)
    }
}

/// The items of the first `count` states that call for another action than an item before them, on
/// the same lookahead.
pub open spec fn all_clashing(grammar: &LrGrammar, merged: &Merged, count: int) -> Seq<(int, int)>
    decreases count,
{
    if count <= 0 {
        Seq::empty()
    } else {
        all_clashing(grammar, merged, count - 1) + clashing(
            grammar,
            merged.edges@[count - 1]@,
            merged.states@[count - 1]@,
            count - 1,
        )
    }
}

/// The productions of the items before the `x`th that call for an action on a lookahead.
pub open spec fn behind(
    grammar: &LrGrammar,
    edges: Seq<(Symbol, u32)>,
    items: Seq<Lr1Item>,
    x: int,
    lookahead: Lookahead,
    action: Action,
) -> Set<u32> {
    Set::new(
        |p: u32|
            exists|y: int|
                0 <= y < x && (#[trigger] items[y]).production == p && wanted(
                    grammar,
                    edges,
                    items[y],
                ) == Some((lookahead, action)),
    )
}

/// Whether a conflict tells of the `x`th item of a state: of the action that it calls for, the one
/// that an item before it calls for, and the productions behind both.
pub open spec fn conflict_exact(
    grammar: &LrGrammar,
    merged: &Merged,
    conflict: LalrConflict,
    s: int,
    x: int,
) -> bool {
    let edges = merged.edges@[s]@;
    let items = merged.states@[s]@;
    &&& conflict.state == s
    &&& wanted(grammar, edges, items[x]) == Some((conflict.lookahead, conflict.second))
    &&& first_action(grammar, edges, items.take(x), conflict.lookahead) == Some(conflict.first)
    &&& conflict_told(
        conflict,
        grammar.productions@,
        behind(grammar, edges, items, x, conflict.lookahead, conflict.first),
        items[x].production,
    )
}

/// Whether conflicts tell of the listed items, one each.
#[verifier::opaque]
pub open spec fn conflicts_are(
    grammar: &LrGrammar,
    merged: &Merged,
    conflicts: Seq<LalrConflict>,
    listed: Seq<(int, int)>,
) -> bool {
    &&& conflicts.len() == listed.len()
    &&& forall|c: int|
        0 <= c < conflicts.len() ==> conflict_exact(
            grammar,
            merged,
            #[trigger] conflicts[c],
            listed[c].0,
            listed[c].1,
        )
}

/// Whether a row has the first action that the first `done` items call for on each lookahead.
spec fn row_filled(
    grammar: &LrGrammar,
    merged: &Merged,
    s: int,
    row: Seq<(Lookahead, Action)>,
    done: int,
) -> bool {
    &&& actions_ascend(row)
    &&& forall|la: Lookahead| #[trigger]
        action_at(row, la) == first_action(
            grammar,
            merged.edges@[s]@,
            merged.states@[s]@.take(done),
            la,
        )
}

/// A first action is one that an item calls for.
proof fn lemma_first_called(
    grammar: &LrGrammar,
    merged: &Merged,
    s: int,
    done: int,
    lookahead: Lookahead,
)
    requires
        0 <= done <= merged.states@[s]@.len(),
        first_action(
            grammar,
            merged.edges@[s]@,
            merged.states@[s]@.take(done),
            lookahead,
        ) is Some,
    ensures
        called_for(
            grammar,
            merged,
            s,
            lookahead,
            first_action(
                grammar,
                merged.edges@[s]@,
                merged.states@[s]@.take(done),
                lookahead,
            )->0,
        ),
    decreases done,
{
    let items = merged.states@[s]@;
    if done > 0 {
        assert(items.take(done).drop_last() =~= items.take(done - 1));
        if first_action(grammar, merged.edges@[s]@, items.take(done - 1), lookahead) is Some {
            lemma_first_called(grammar, merged, s, done - 1, lookahead);
        } else {
            assert(wanted(grammar, merged.edges@[s]@, items[done - 1]) is Some);
        }
    }
}

/// Where no item clashes, every item's action is the first.
proof fn lemma_no_clash(
    grammar: &LrGrammar,
    edges: Seq<(Symbol, u32)>,
    items: Seq<Lr1Item>,
    s: int,
    x: int,
)
    requires
        clashing(grammar, edges, items, s).len() == 0,
        0 <= x < items.len(),
        wanted(grammar, edges, items[x]) is Some,
    ensures
        wanted(grammar, edges, items[x]) matches Some(pair) ==> first_action(
            grammar,
            edges,
            items,
            pair.0,
        ) == Some(pair.1),
    decreases items.len(),
{
    if x < items.len() - 1 {
        assert(items.drop_last()[x] == items[x]);
        lemma_no_clash(grammar, edges, items.drop_last(), s, x);
    }
}

/// Where no item of any state clashes, none of a state does.
proof fn lemma_no_clashes(grammar: &LrGrammar, merged: &Merged, count: int, s: int)
    requires
        0 <= s < count,
        all_clashing(grammar, merged, count).len() == 0,
    ensures
        clashing(grammar, merged.edges@[s]@, merged.states@[s]@, s).len() == 0,
    decreases count,
{
    if s < count - 1 {
        lemma_no_clashes(grammar, merged, count - 1, s);
    }
}

/// There are no fewer clashes in more items.
proof fn lemma_clashing_grows(
    grammar: &LrGrammar,
    edges: Seq<(Symbol, u32)>,
    items: Seq<Lr1Item>,
    s: int,
    count: int,
)
    requires
        0 <= count <= items.len(),
    ensures
        clashing(grammar, edges, items.take(count), s).len() <= clashing(
            grammar,
            edges,
            items,
            s,
        ).len(),
    decreases items.len() - count,
{
    if count < items.len() {
        assert(items.take(count + 1).drop_last() =~= items.take(count));
        lemma_clashing_grows(grammar, edges, items, s, count + 1);
    } else {
        assert(items.take(count) =~= items);
    }
}

/// There are no fewer clashes in more states.
proof fn lemma_all_clashing_grows(grammar: &LrGrammar, merged: &Merged, less: int, more: int)
    requires
        less <= more,
    ensures
        all_clashing(grammar, merged, less).len() <= all_clashing(grammar, merged, more).len(),
    decreases more - less,
{
    if less < more {
        lemma_all_clashing_grows(grammar, merged, less, more - 1);
    }
}

/// The actions of a state.
fn fill_row(
    grammar: &LrGrammar,
    merged: &Merged,
    state: usize,
    conflicts: &mut Vec<LalrConflict>,
    limits: &CompileLimits,
) -> (result: Result<Vec<(Lookahead, Action)>, CompileError>)
    requires
        grammar.wf(),
        state < merged.states@.len() == merged.edges@.len(),
        state <= u32::MAX,
        grammar.items_in(merged.states@[state as int]@),
        forall|x: int, t: u32|
            0 <= x < merged.states@[state as int]@.len() && #[trigger] lr::after_dot(
                grammar.rules(),
                merged.states@[state as int]@[x],
            ) == Some(Symbol::Terminal(t)) ==> #[trigger] merge::row_target(
                merged.edges@[state as int]@,
                Symbol::Terminal(t),
            ) is Some,
        conflicts_are(
            grammar,
            merged,
            old(conflicts)@,
            all_clashing(grammar, merged, state as int),
        ),
        old(conflicts)@.len() <= limits.max_reported_conflicts,
    ensures
        match result {
            Ok(row) => {
                &&& row_filled(
                    grammar,
                    merged,
                    state as int,
                    row@,
                    merged.states@[state as int]@.len() as int,
                )
                &&& conflicts_are(
                    grammar,
                    merged,
                    final(conflicts)@,
                    all_clashing(grammar, merged, state + 1),
                )
                &&& final(conflicts)@.len() <= limits.max_reported_conflicts
            },
            Err(error) => {
                &&& error == over_table(
                    count::saturated((limits.max_reported_conflicts + 1) as nat) as usize,
                    limits.max_reported_conflicts,
                )
                &&& all_clashing(grammar, merged, state + 1).len() > limits.max_reported_conflicts
            },
        },
{
    let items = &merged.states[state];
    let edges = &merged.edges[state];
    let augmented: usize = grammar.productions.len() - 1;
    let mut row: Vec<(Lookahead, Action)> = Vec::new();
    let mut sources: Vec<Vec<ProductionId>> = Vec::new();
    let mut index: usize = 0;
    let ghost prior = all_clashing(grammar, merged, state as int);
    proof {
        assert(items@.take(0) =~= Seq::<Lr1Item>::empty());
        assert(prior + clashing(grammar, edges@, items@.take(0), state as int) =~= prior);
        assert forall|la: Lookahead, p: u32| #[trigger]
            noted(row@, sources@, la).contains(p) <==> first_action(
                grammar,
                edges@,
                items@.take(0),
                la,
            ) is Some && behind(
                grammar,
                edges@,
                items@,
                0,
                la,
                first_action(grammar, edges@, items@.take(0), la)->0,
            ).contains(p) by {}
    }
    while index < items.len()
        invariant
            grammar.wf(),
            state < merged.states@.len() == merged.edges@.len(),
            state <= u32::MAX,
            *items == merged.states@[state as int],
            *edges == merged.edges@[state as int],
            augmented == grammar.productions@.len() - 1,
            grammar.items_in(items@),
            forall|x: int, t: u32|
                0 <= x < merged.states@[state as int]@.len() && #[trigger] lr::after_dot(
                    grammar.rules(),
                    merged.states@[state as int]@[x],
                ) == Some(Symbol::Terminal(t)) ==> #[trigger] merge::row_target(
                    merged.edges@[state as int]@,
                    Symbol::Terminal(t),
                ) is Some,
            index <= items@.len(),
            sources_in(row@, sources@, grammar.productions@),
            row_filled(grammar, merged, state as int, row@, index as int),
            prior == all_clashing(grammar, merged, state as int),
            conflicts_are(
                grammar,
                merged,
                conflicts@,
                prior + clashing(grammar, edges@, items@.take(index as int), state as int),
            ),
            conflicts@.len() <= limits.max_reported_conflicts,
            forall|la: Lookahead, p: u32| #[trigger]
                noted(row@, sources@, la).contains(p) <==> first_action(
                    grammar,
                    edges@,
                    items@.take(index as int),
                    la,
                ) is Some && behind(
                    grammar,
                    edges@,
                    items@,
                    index as int,
                    la,
                    first_action(grammar, edges@, items@.take(index as int), la)->0,
                ).contains(p),
        decreases items@.len() - index,
    {
        let item = items[index];
        let ghost before = row@;
        let ghost conflicts_before = conflicts@;
        let ghost sources_before = sources@;
        proof {
            assert(items@.take(index + 1).drop_last() =~= items@.take(index as int));
            assert(items@.take(index + 1).last() == items@[index as int]);
            assert forall|la: Lookahead| #[trigger] action_at(before, la) == first_action(
                grammar,
                edges@,
                items@.take(index as int),
                la,
            ) by {}
        }
        let call = match grammar.symbol_after_dot(item) {
            Some(Symbol::Terminal(terminal)) => {
                assert(lr::after_dot(
                    grammar.rules(),
                    merged.states@[state as int]@[index as int],
                ) == Some(Symbol::Terminal(terminal)));
                assert(merge::row_target(
                    merged.edges@[state as int]@,
                    Symbol::Terminal(terminal),
                ) is Some);
                match merge::find_target(edges, Symbol::Terminal(terminal)) {
                    Some(target) => Some((Lookahead::Terminal(terminal), Action::Shift(target))),
                    None => None,
                }
            },
            Some(Symbol::Nonterminal(_)) => None,
            None => {
                let ended = match item.lookahead {
                    Lookahead::Eof => true,
                    Lookahead::Terminal(_) => false,
                };
                if item.production as usize == augmented && ended {
                    Some((Lookahead::Eof, Action::Accept))
                } else {
                    Some((item.lookahead, Action::Reduce(item.production)))
                }
            },
        };
        assert(call == wanted(grammar, edges@, item));
        match call {
            Some((lookahead, action)) => {
                match insert_action(
                    &mut row,
                    state as u32,
                    lookahead,
                    action,
                    item.production,
                    &grammar.productions,
                    &mut sources,
                    conflicts,
                    limits,
                ) {
                    Ok(()) => {},
                    Err(error) => {
                        proof {
                            reveal(conflicts_are);
                            assert(last_clashes(grammar, edges@, items@.take(index + 1)));
                            lemma_clashing_grows(
                                grammar,
                                edges@,
                                items@,
                                state as int,
                                index + 1,
                            );
                        }
                        return Err(error);
                    },
                }
                proof {
                    let step = items@.take(index + 1);
                    let clash = last_clashes(grammar, edges@, step);
                    if clash {
                        lemma_conflict_step(
                            grammar,
                            merged,
                            state as int,
                            index as int,
                            conflicts_before,
                            conflicts@,
                            noted(before, sources_before, lookahead),
                        );
                    }
                    assert forall|la: Lookahead, p: u32| #[trigger]
                        noted(row@, sources@, la).contains(p) <==> first_action(
                            grammar,
                            edges@,
                            step,
                            la,
                        ) is Some && behind(
                            grammar,
                            edges@,
                            items@,
                            index + 1,
                            la,
                            first_action(grammar, edges@, step, la)->0,
                        ).contains(p) by {
                        let f0 = first_action(grammar, edges@, items@.take(index as int), la);
                        let f1 = first_action(grammar, edges@, step, la);
                        assert(action_at(before, la) == f0);
                        assert(noted(before, sources_before, la).contains(p) <==> f0 is Some
                            && behind(grammar, edges@, items@, index as int, la, f0->0).contains(
                            p,
                        ));
                        if f1 is Some {
                            lemma_behind_step(
                                grammar,
                                edges@,
                                items@,
                                index as int,
                                la,
                                f1->0,
                                p,
                            );
                            if f0 is None {
                                lemma_none_behind(grammar, edges@, items@, index as int, la, f1->0, p);
                            }
                        }
                    }
                }
            },
            None => {
                proof {
                    assert forall|la: Lookahead, p: u32| #[trigger]
                        noted(row@, sources@, la).contains(p) <==> first_action(
                            grammar,
                            edges@,
                            items@.take(index + 1),
                            la,
                        ) is Some && behind(
                            grammar,
                            edges@,
                            items@,
                            index + 1,
                            la,
                            first_action(grammar, edges@, items@.take(index + 1), la)->0,
                        ).contains(p) by {
                        lemma_behind_step(
                            grammar,
                            edges@,
                            items@,
                            index as int,
                            la,
                            first_action(grammar, edges@, items@.take(index + 1), la)->0,
                            p,
                        );
                    }
                }
            },
        }
        index += 1;
    }
    assert(items@.take(index as int) =~= items@);
    Ok(row)
}

/// One more item that clashes has its conflict.
proof fn lemma_conflict_step(
    grammar: &LrGrammar,
    merged: &Merged,
    s: int,
    x: int,
    before: Seq<LalrConflict>,
    after: Seq<LalrConflict>,
    earlier: Set<u32>,
)
    requires
        0 <= x < merged.states@[s]@.len(),
        conflicts_are(
            grammar,
            merged,
            before,
            all_clashing(grammar, merged, s) + clashing(
                grammar,
                merged.edges@[s]@,
                merged.states@[s]@.take(x),
                s,
            ),
        ),
        last_clashes(grammar, merged.edges@[s]@, merged.states@[s]@.take(x + 1)),
        after.len() == before.len() + 1,
        after == before.push(after.last()),
        after.last().state == s,
        wanted(grammar, merged.edges@[s]@, merged.states@[s]@[x]) == Some(
            (after.last().lookahead, after.last().second),
        ),
        first_action(
            grammar,
            merged.edges@[s]@,
            merged.states@[s]@.take(x),
            after.last().lookahead,
        ) == Some(after.last().first),
        conflict_told(
            after.last(),
            grammar.productions@,
            earlier,
            merged.states@[s]@[x].production,
        ),
        forall|p: u32| #[trigger]
            earlier.contains(p) <==> behind(
                grammar,
                merged.edges@[s]@,
                merged.states@[s]@,
                x,
                after.last().lookahead,
                after.last().first,
            ).contains(p),
    ensures
        conflicts_are(
            grammar,
            merged,
            after,
            all_clashing(grammar, merged, s) + clashing(
                grammar,
                merged.edges@[s]@,
                merged.states@[s]@.take(x + 1),
                s,
            ),
        ),
{
    reveal(conflicts_are);
    let edges = merged.edges@[s]@;
    let items = merged.states@[s]@;
    assert(items.take(x + 1).drop_last() =~= items.take(x));
    let prior = all_clashing(grammar, merged, s);
    let fewer = prior + clashing(grammar, edges, items.take(x), s);
    let more = prior + clashing(grammar, edges, items.take(x + 1), s);
    assert(more =~= fewer.push((s, x)));
    assert(earlier =~= behind(
        grammar,
        edges,
        items,
        x,
        after.last().lookahead,
        after.last().first,
    ));
    assert forall|c: int| 0 <= c < after.len() implies conflict_exact(
        grammar,
        merged,
        #[trigger] after[c],
        more[c].0,
        more[c].1,
    ) by {
        if c < before.len() {
            assert(after[c] == before[c]);
            assert(more[c] == fewer[c]);
        } else {
            assert(more[c] == (s, x));
        }
    }
}

/// One more item is behind an action if it calls for it.
proof fn lemma_behind_step(
    grammar: &LrGrammar,
    edges: Seq<(Symbol, u32)>,
    items: Seq<Lr1Item>,
    x: int,
    lookahead: Lookahead,
    action: Action,
    p: u32,
)
    requires
        0 <= x < items.len(),
    ensures
        behind(grammar, edges, items, x + 1, lookahead, action).contains(p) <==> behind(
            grammar,
            edges,
            items,
            x,
            lookahead,
            action,
        ).contains(p) || (items[x].production == p && wanted(grammar, edges, items[x]) == Some(
            (lookahead, action),
        )),
{
    if behind(grammar, edges, items, x + 1, lookahead, action).contains(p) {
        let y = choose|y: int|
            0 <= y < x + 1 && (#[trigger] items[y]).production == p && wanted(
                grammar,
                edges,
                items[y],
            ) == Some((lookahead, action));
        assert(items[y].production == p);
    }
    if behind(grammar, edges, items, x, lookahead, action).contains(p) {
        let y = choose|y: int|
            0 <= y < x && (#[trigger] items[y]).production == p && wanted(
                grammar,
                edges,
                items[y],
            ) == Some((lookahead, action));
        assert(items[y].production == p);
    }
}

/// Where no item calls for an action on a lookahead, none is behind one.
proof fn lemma_none_behind(
    grammar: &LrGrammar,
    edges: Seq<(Symbol, u32)>,
    items: Seq<Lr1Item>,
    x: int,
    lookahead: Lookahead,
    action: Action,
    p: u32,
)
    requires
        0 <= x <= items.len(),
        first_action(grammar, edges, items.take(x), lookahead) is None,
    ensures
        !behind(grammar, edges, items, x, lookahead, action).contains(p),
    decreases x,
{
    if x > 0 {
        assert(items.take(x).drop_last() =~= items.take(x - 1));
        lemma_none_behind(grammar, edges, items, x - 1, lookahead, action, p);
        lemma_behind_step(grammar, edges, items, x - 1, lookahead, action, p);
    }
}

/// An entry that is put where it belongs is found, and every other stays.
proof fn lemma_goto_insert(
    before: Seq<(NonterminalId, LalrStateId)>,
    place: int,
    entry: (NonterminalId, LalrStateId),
)
    requires
        gotos_ascend(before),
        0 <= place <= before.len(),
        forall|i: int| 0 <= i < place ==> (#[trigger] before[i]).0 < entry.0,
        forall|i: int| place <= i < before.len() ==> (#[trigger] before[i]).0 > entry.0,
    ensures
        gotos_ascend(before.insert(place, entry)),
        forall|a: u32| #[trigger]
            goto_at(before.insert(place, entry), a) == (if a == entry.0 {
                Some(entry.1)
            } else {
                goto_at(before, a)
            }),
{
    let after = before.insert(place, entry);
    assert forall|i: int, j: int| 0 <= i < j < after.len() implies after[i].0 < after[j].0 by {
        let x = if i < place {
            i
        } else {
            i - 1
        };
        let y = if j < place {
            j
        } else {
            j - 1
        };
        if i == place {
            assert(after[j] == before[y]);
        } else if j == place {
            assert(after[i] == before[i]);
        } else {
            assert(after[i] == before[x] && after[j] == before[y]);
        }
    }
    assert forall|a: u32| #[trigger] goto_at(after, a) == (if a == entry.0 {
        Some(entry.1)
    } else {
        goto_at(before, a)
    }) by {
        lemma_goto_at(after, a);
        lemma_goto_at(before, a);
        if a == entry.0 {
            assert(after[place] == entry);
            lemma_goto_unique(after, place);
        } else {
            if let Some(state) = goto_at(before, a) {
                let x = choose|x: int| 0 <= x < before.len() && before[x] == (a, state);
                if x < place {
                    assert(after[x] == before[x]);
                    lemma_goto_unique(after, x);
                } else {
                    assert(after[x + 1] == before[x]);
                    lemma_goto_unique(after, x + 1);
                }
            }
            if let Some(state) = goto_at(after, a) {
                let x = choose|x: int| 0 <= x < after.len() && after[x] == (a, state);
                if x < place {
                    assert(after[x] == before[x]);
                    lemma_goto_unique(before, x);
                } else {
                    assert(after[x] == before[x - 1]);
                    lemma_goto_unique(before, x - 1);
                }
            }
        }
    }
}

/// The states that follow a state, by nonterminal.
fn goto_row(edges: &Vec<(Symbol, u32)>) -> (row: Vec<(NonterminalId, LalrStateId)>)
    ensures
        gotos_ascend(row@),
        forall|a: u32| #[trigger]
            goto_at(row@, a) == merge::row_target(edges@, Symbol::Nonterminal(a)),
{
    let mut row: Vec<(NonterminalId, LalrStateId)> = Vec::new();
    let mut index: usize = 0;
    assert(edges@.take(0) =~= Seq::empty());
    while index < edges.len()
        invariant
            index <= edges@.len(),
            gotos_ascend(row@),
            forall|a: u32| #[trigger]
                goto_at(row@, a) == merge::row_target(
                    edges@.take(index as int),
                    Symbol::Nonterminal(a),
                ),
        decreases edges@.len() - index,
    {
        let (symbol, target) = edges[index];
        let ghost before = row@;
        let ghost taken = edges@.take(index as int);
        assert(edges@.take(index + 1) =~= taken.push((symbol, target)));
        match symbol {
            Symbol::Nonterminal(nonterminal) => {
                let place = goto_place(&row, nonterminal);
                proof {
                    lemma_goto_at(before, nonterminal);
                }
                if place >= row.len() || row[place].0 != nonterminal {
                    proof {
                        assert forall|i: int| place <= i < before.len() implies (
                        #[trigger] before[i]).0 > nonterminal by {
                            if i > place {
                                assert(before[place as int].0 < before[i].0);
                            }
                        }
                        lemma_goto_insert(before, place as int, (nonterminal, target));
                        assert(goto_at(before, nonterminal) is None) by {
                            if let Some(found) = goto_at(before, nonterminal) {
                                let x = choose|x: int|
                                    0 <= x < before.len() && before[x] == (nonterminal, found);
                                assert(before[x].0 == nonterminal);
                            }
                        }
                    }
                    row.insert(place, (nonterminal, target));
                } else {
                    proof {
                        lemma_goto_unique(before, place as int);
                    }
                }
            },
            Symbol::Terminal(_) => {},
        }
        proof {
            assert forall|a: u32| #[trigger] goto_at(row@, a) == merge::row_target(
                edges@.take(index + 1),
                Symbol::Nonterminal(a),
            ) by {
                merge::lemma_row_push(taken, (symbol, target), Symbol::Nonterminal(a));
                assert(goto_at(before, a) == merge::row_target(taken, Symbol::Nonterminal(a)));
            }
        }
        index += 1;
    }
    assert(edges@.take(index as int) =~= edges@);
    row
}

/// How many entries there are in all rows.
pub open spec fn entries<T>(rows: Seq<Vec<T>>) -> nat
    decreases rows.len(),
{
    if rows.len() == 0 {
        0
    } else {
        entries(rows.drop_last()) + rows.last()@.len()
    }
}

/// How many entries there are in all rows, or the largest number that can be told.
pub fn count_entries<T>(rows: &Vec<Vec<T>>) -> (total: usize)
    ensures
        total == count::saturated(entries(rows@)),
{
    let mut total: usize = 0;
    let mut index: usize = 0;
    assert(rows@.take(0) =~= Seq::empty());
    while index < rows.len()
        invariant
            index <= rows@.len(),
            total == count::saturated(entries(rows@.take(index as int))),
        decreases rows@.len() - index,
    {
        assert(rows@.take(index + 1).drop_last() =~= rows@.take(index as int));
        assert(rows@.take(index + 1).last() == rows@[index as int]);
        total = total.saturating_add(rows[index].len());
        index += 1;
    }
    assert(rows@.take(index as int) =~= rows@);
    total
}

/// Whether a table has for each state the actions that its items call for, but for conflicts, and
/// the states that follow it.
pub open spec fn table_exact(
    grammar: &LrGrammar,
    merged: &Merged,
    table: &LalrTable,
    conflicts: Seq<LalrConflict>,
) -> bool {
    &&& table.wf()
    &&& table.actions@.len() == merged.states@.len()
    &&& table.gotos@.len() == merged.states@.len()
    &&& forall|s: u32, la: Lookahead|
        s < merged.states@.len() ==> #[trigger] table.action(s, la) == first_action(
            grammar,
            merged.edges@[s as int]@,
            merged.states@[s as int]@,
            la,
        )
    &&& forall|s: u32, la: Lookahead| #[trigger]
        table.action(s, la) is Some ==> called_for(
            grammar,
            merged,
            s as int,
            la,
            table.action(s, la)->0,
        )
    &&& conflicts.len() == 0 ==> forall|s: u32, x: int|
        #![trigger merged.states@[s as int]@[x]]
        s < merged.states@.len() && 0 <= x < merged.states@[s as int]@.len() ==> (wanted(
            grammar,
            merged.edges@[s as int]@,
            merged.states@[s as int]@[x],
        ) matches Some(pair) ==> table.action(s, pair.0) == Some(pair.1))
    &&& forall|s: u32, a: u32|
        s < merged.states@.len() ==> #[trigger] table.goto(s, a) == merge::row_target(
            merged.edges@[s as int]@,
            Symbol::Nonterminal(a),
        )
    &&& conflicts_are(
        grammar,
        merged,
        conflicts,
        all_clashing(grammar, merged, merged.states@.len() as int),
    )
}

/// Whether tables and conflicts keep within the limits.
pub open spec fn table_within(
    table: &LalrTable,
    conflicts: Seq<LalrConflict>,
    limits: &CompileLimits,
) -> bool {
    &&& conflicts.len() <= limits.max_reported_conflicts
    &&& count::saturated(entries(table.actions@)) <= limits.max_action_entries
    &&& count::saturated(entries(table.gotos@)) <= limits.max_goto_entries
}

/// Whether an error says that tables of merged states have too many entries, and they have.
pub open spec fn many_entries(
    error: CompileError,
    grammar: &LrGrammar,
    merged: &Merged,
    limits: &CompileLimits,
    table: LalrTable,
    conflicts: Seq<LalrConflict>,
) -> bool {
    let actions = count::saturated(entries(table.actions@));
    let gotos = count::saturated(entries(table.gotos@));
    &&& table_exact(grammar, merged, &table, conflicts)
    &&& conflicts.len() <= limits.max_reported_conflicts
    &&& if actions > limits.max_action_entries {
        error == over_table(actions as usize, limits.max_action_entries)
    } else {
        gotos > limits.max_goto_entries && error == over_table(
            gotos as usize,
            limits.max_goto_entries,
        )
    }
}

/// Whether an error says that there are too many conflicts or entries, and there are.
pub open spec fn table_error(
    error: CompileError,
    grammar: &LrGrammar,
    merged: &Merged,
    limits: &CompileLimits,
) -> bool {
    ||| all_clashing(grammar, merged, merged.states@.len() as int).len()
        > limits.max_reported_conflicts && error == over_table(
        count::saturated((limits.max_reported_conflicts + 1) as nat) as usize,
        limits.max_reported_conflicts,
    )
    ||| exists|table: LalrTable, conflicts: Seq<LalrConflict>| #[trigger]
        many_entries(error, grammar, merged, limits, table, conflicts)
}

/// Whether the states name productions and positions in them, and every terminal behind a dot
/// leads somewhere.
pub open spec fn states_lead(grammar: &LrGrammar, merged: &Merged) -> bool {
    &&& merged.states@.len() == merged.edges@.len()
    &&& merged.states@.len() <= u32::MAX + 1
    &&& forall|s: int|
        0 <= s < merged.states@.len() ==> grammar.items_in((#[trigger] merged.states@[s])@)
    &&& forall|s: int, x: int, t: u32|
        0 <= s < merged.states@.len() && 0 <= x < merged.states@[s]@.len()
            && #[trigger] lr::after_dot(grammar.rules(), merged.states@[s]@[x]) == Some(
            Symbol::Terminal(t),
        ) ==> #[trigger] merge::row_target(merged.edges@[s]@, Symbol::Terminal(t)) is Some
}

/// The tables of merged states, and their conflicts.
pub fn build_table(grammar: &LrGrammar, merged: &Merged, limits: &CompileLimits) -> (result: Result<
    (LalrTable, Vec<LalrConflict>),
    CompileError,
>)
    requires
        grammar.wf(),
        states_lead(grammar, merged),
    ensures
        match result {
            Ok(built) => table_exact(grammar, merged, &built.0, built.1@) && table_within(
                &built.0,
                built.1@,
                limits,
            ),
            Err(error) => table_error(error, grammar, merged, limits),
        },
{
    let mut actions: Vec<Vec<(Lookahead, Action)>> = Vec::new();
    let mut gotos: Vec<Vec<(NonterminalId, LalrStateId)>> = Vec::new();
    let mut conflicts: Vec<LalrConflict> = Vec::new();
    proof {
        reveal(conflicts_are);
    }
    while actions.len() < merged.states.len()
        invariant
            grammar.wf(),
            states_lead(grammar, merged),
            actions@.len() == gotos@.len() <= merged.states@.len(),
            forall|s: int|
                0 <= s < actions@.len() ==> row_filled(
                    grammar,
                    merged,
                    s,
                    (#[trigger] actions@[s])@,
                    merged.states@[s]@.len() as int,
                ),
            forall|s: int|
                0 <= s < gotos@.len() ==> gotos_ascend((#[trigger] gotos@[s])@) && forall|a: u32|
                 #[trigger] goto_at(gotos@[s]@, a) == merge::row_target(
                    merged.edges@[s]@,
                    Symbol::Nonterminal(a),
                ),
            conflicts_are(
                grammar,
                merged,
                conflicts@,
                all_clashing(grammar, merged, actions@.len() as int),
            ),
            conflicts@.len() <= limits.max_reported_conflicts,
        decreases merged.states@.len() - actions@.len(),
    {
        let state: usize = actions.len();
        let ghost before = actions@;
        assert(grammar.items_in(merged.states@[state as int]@));
        match fill_row(grammar, merged, state, &mut conflicts, limits) {
            Ok(row) => {
                actions.push(row);
            },
            Err(error) => {
                proof {
                    lemma_all_clashing_grows(
                        grammar,
                        merged,
                        state + 1,
                        merged.states@.len() as int,
                    );
                }
                return Err(error);
            },
        }
        let row = goto_row(&merged.edges[state]);
        gotos.push(row);
        assert forall|s: int| 0 <= s < actions@.len() implies row_filled(
            grammar,
            merged,
            s,
            (#[trigger] actions@[s])@,
            merged.states@[s]@.len() as int,
        ) by {
            if s < before.len() {
                assert(actions@[s] == before[s]);
                assert(row_filled(
                    grammar,
                    merged,
                    s,
                    before[s]@,
                    merged.states@[s]@.len() as int,
                ));
            }
        }
    }
    let table = LalrTable { actions, gotos };
    proof {
        assert forall|s: u32, la: Lookahead| s < merged.states@.len() implies #[trigger] table.action(
            s,
            la,
        ) == first_action(
            grammar,
            merged.edges@[s as int]@,
            merged.states@[s as int]@,
            la,
        ) by {
            let items = merged.states@[s as int]@;
            assert(items.take(items.len() as int) =~= items);
            assert(row_filled(
                grammar,
                merged,
                s as int,
                table.actions@[s as int]@,
                items.len() as int,
            ));
        }
        assert forall|s: u32, la: Lookahead| #[trigger]
            table.action(s, la) is Some implies called_for(
            grammar,
            merged,
            s as int,
            la,
            table.action(s, la)->0,
        ) by {
            let items = merged.states@[s as int]@;
            assert(items.take(items.len() as int) =~= items);
            lemma_first_called(grammar, merged, s as int, items.len() as int, la);
        }
        if conflicts@.len() == 0 {
            assert forall|s: u32, x: int|
                #![trigger merged.states@[s as int]@[x]]
                s < merged.states@.len() && 0 <= x < merged.states@[s as int]@.len() implies (
            wanted(
                grammar,
                merged.edges@[s as int]@,
                merged.states@[s as int]@[x],
            ) matches Some(pair) ==> table.action(s, pair.0) == Some(pair.1)) by {
                reveal(conflicts_are);
                lemma_no_clashes(grammar, merged, merged.states@.len() as int, s as int);
                if wanted(
                    grammar,
                    merged.edges@[s as int]@,
                    merged.states@[s as int]@[x],
                ) is Some {
                    lemma_no_clash(
                        grammar,
                        merged.edges@[s as int]@,
                        merged.states@[s as int]@,
                        s as int,
                        x,
                    );
                }
            }
        }
    }
    match enforce_compile_limit(
        CompileStage::LalrTable,
        count_entries(&table.actions),
        limits.max_action_entries,
    ) {
        Ok(()) => {},
        Err(error) => {
            assert(many_entries(error, grammar, merged, limits, table, conflicts@));
            return Err(error);
        },
    }
    match enforce_compile_limit(
        CompileStage::LalrTable,
        count_entries(&table.gotos),
        limits.max_goto_entries,
    ) {
        Ok(()) => {},
        Err(error) => {
            assert(many_entries(error, grammar, merged, limits, table, conflicts@));
            return Err(error);
        },
    }
    Ok((table, conflicts))
}

} // verus!
