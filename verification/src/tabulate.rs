//! Turning the automata of patterns into byte tables with exact liveness.

use regex_automata::dfa::dense::DFA;
use rustc_hash::FxHashMap;
use vstd::prelude::*;

use crate::automaton;
use crate::automaton::{CompiledByteDfa, DEAD_DFA_STATE};
use crate::count;
use crate::dense;
use crate::error::{CompileError, CompileStage};
use crate::fx;
use crate::lexical;
use crate::regular;
use crate::regular::RegularExpression;
use crate::render;
use crate::schema::{CompileLimits, SchemaPointer};
use crate::syntax;

verus! {

/// Whether a table entry stands for the state that follows `from` on `byte`.
pub open spec fn entry(
    target: u32,
    ids: Seq<u32>,
    dfa: DFA<Vec<u32>>,
    from: u32,
    byte: u8,
) -> bool {
    let next = dense::dense_next(dfa, from, byte);
    if dense::dense_over(dfa, next) {
        target == DEAD_DFA_STATE
    } else {
        target < ids.len() && ids[target as int] == next
    }
}

/// Whether the first `entries` entries of a table stand for what follows the listed states.
pub open spec fn entries_right(
    transitions: Seq<u32>,
    ids: Seq<u32>,
    dfa: DFA<Vec<u32>>,
) -> bool {
    forall|s: int, b: int|
        #![trigger transitions[s * 256 + b]]
        0 <= s && 0 <= b < 256 && s * 256 + b < transitions.len() ==> entry(
            transitions[s * 256 + b],
            ids,
            dfa,
            ids[s],
            b as u8,
        )
}

/// Whether the table numbers the listed states by their places.
pub open spec fn numbers(index: Map<u32, u32>, ids: Seq<u32>) -> bool {
    &&& forall|k: int|
        0 <= k < ids.len() ==> index.dom().contains(#[trigger] ids[k]) && index[ids[k]] == k
    &&& forall|key: u32| #[trigger]
        index.dom().contains(key) ==> index[key] < ids.len() && ids[index[key] as int] == key
}

/// Whether a state is reached from `start` by some byte string.
pub open spec fn reaches(dfa: DFA<Vec<u32>>, start: u32, state: u32) -> bool {
    exists|w: Seq<u8>| #[trigger] dense::dense_run(dfa, start, w) == Some(state)
}

/// The states that are reached from `start`.
pub open spec fn found(dfa: DFA<Vec<u32>>, start: u32) -> Set<u32> {
    Set::new(|state: u32| reaches(dfa, start, state))
}

/// What follows a reached state, and is not over, is reached.
proof fn lemma_reaches_next(dfa: DFA<Vec<u32>>, start: u32, state: u32, byte: u8)
    requires
        reaches(dfa, start, state),
        !dense::dense_over(dfa, dense::dense_next(dfa, state, byte)),
    ensures
        reaches(dfa, start, dense::dense_next(dfa, state, byte)),
{
    let w = choose|w: Seq<u8>| #[trigger] dense::dense_run(dfa, start, w) == Some(state);
    let longer = w.push(byte);
    assert(longer.drop_last() =~= w);
    assert(dense::dense_run(dfa, start, longer) == Some(dense::dense_next(dfa, state, byte)));
}

/// As many states are reached as are listed, if each of these is reached and none twice.
proof fn lemma_found_many(dfa: DFA<Vec<u32>>, start: u32, ids: Seq<u32>)
    requires
        ids.no_duplicates(),
        forall|k: int| 0 <= k < ids.len() ==> reaches(dfa, start, #[trigger] ids[k]),
    ensures
        found(dfa, start).finite(),
        ids.len() <= found(dfa, start).len(),
        (forall|state: u32| reaches(dfa, start, state) ==> #[trigger] ids.contains(state))
            ==> ids.len() == found(dfa, start).len(),
{
    broadcast use vstd::set_lib::full_set_properties;

    let all = found(dfa, start);
    assert(Set::<u32>::full().finite());
    vstd::set_lib::lemma_len_subset(all, Set::<u32>::full());
    ids.unique_seq_to_set();
    assert forall|state: u32| ids.to_set().contains(state) implies all.contains(state) by {
        let k = choose|k: int| 0 <= k < ids.len() && ids[k] == state;
    }
    vstd::set_lib::lemma_len_subset(ids.to_set(), all);
    if forall|state: u32| reaches(dfa, start, state) ==> #[trigger] ids.contains(state) {
        assert(ids.to_set() =~= all);
    }
}

/// The first states and the table of an automaton, as far as it has been walked.
#[derive(Debug)]
struct Walk {
    ids: Vec<u32>,
    index: FxHashMap<u32, u32>,
    transitions: Vec<u32>,
    accepting: Vec<bool>,
}

impl Walk {
    spec fn wf(&self, dfa: DFA<Vec<u32>>, start: u32) -> bool {
        &&& 0 < self.ids@.len() < u32::MAX
        &&& self.ids@[0] == start
        &&& numbers(self.index@, self.ids@)
        &&& forall|k: int|
            0 <= k < self.ids@.len() ==> dense::dense_states(dfa).contains(#[trigger] self.ids@[k])
                && reaches(dfa, start, self.ids@[k])
        &&& self.accepting@.len() <= self.ids@.len()
        &&& self.transitions@.len() <= self.ids@.len() * 256
        &&& forall|k: int|
            0 <= k < self.accepting@.len() ==> #[trigger] self.accepting@[k]
                == dense::dense_final(dfa, self.ids@[k])
        &&& entries_right(self.transitions@, self.ids@, dfa)
    }
}

/// How many states a table can have.
pub open spec fn room(max_states: usize) -> nat {
    if max_states < 0xFFFF_FFFE {
        max_states as nat
    } else {
        0xFFFF_FFFE
    }
}

/// Adds the entry for one byte from the state at `from`. The count of states that would have been
/// needed comes back where there is no room.
fn walk_byte(
    walk: &mut Walk,
    dfa: &DFA<Vec<u32>>,
    Ghost(start): Ghost<u32>,
    from: usize,
    byte: u8,
    max_states: usize,
) -> (result: Result<(), usize>)
    requires
        old(walk).wf(*dfa, start),
        from < old(walk).ids@.len() <= room(max_states),
        old(walk).transitions@.len() == from * 256 + byte,
    ensures
        result is Ok ==> final(walk).wf(*dfa, start),
        result is Ok ==> final(walk).transitions@.len() == old(walk).transitions@.len() + 1,
        final(walk).accepting@ == old(walk).accepting@,
        final(walk).ids@.len() >= old(walk).ids@.len(),
        result is Ok ==> final(walk).ids@.len() <= room(max_states),
        result matches Err(observed) ==> observed == room(max_states) + 1 && room(max_states) < found(
            *dfa,
            start,
        ).len(),
{
    let state: u32 = walk.ids[from];
    let next: u32 = dense::next_state(dfa, state, byte);
    let ghost before = *walk;
    let target: u32 = if dense::is_over(dfa, next) {
        DEAD_DFA_STATE
    } else {
        proof {
            lemma_reaches_next(*dfa, start, state, byte);
        }
        match fx::map_get(&walk.index, next) {
            Some(place) => *place,
            None => {
                let place: usize = walk.ids.len();
                if place >= max_states || place >= 0xFFFF_FFFE {
                    proof {
                        let more = walk.ids@.push(next);
                        assert forall|i: int, j: int|
                            0 <= i < more.len() && 0 <= j < more.len() && i != j implies more[i]
                            != more[j] by {
                            if i < place {
                                assert(walk.index@[walk.ids@[i]] == i);
                            }
                            if j < place {
                                assert(walk.index@[walk.ids@[j]] == j);
                            }
                        }
                        lemma_found_many(*dfa, start, more);
                    }
                    return Err(place.saturating_add(1));
                }
                fx::map_insert(&mut walk.index, next, place as u32);
                walk.ids.push(next);
                assert(walk.ids@[place as int] == next);
                place as u32
            },
        }
    };
    walk.transitions.push(target);
    proof {
        let ids = walk.ids@;
        assert forall|s: int, b: int|
            #![trigger walk.transitions@[s * 256 + b]]
            0 <= s && 0 <= b < 256 && s * 256 + b < walk.transitions@.len() implies entry(
            walk.transitions@[s * 256 + b],
            ids,
            *dfa,
            ids[s],
            b as u8,
        ) by {
            if s * 256 + b < before.transitions@.len() {
                assert(walk.transitions@[s * 256 + b] == before.transitions@[s * 256 + b]);
                assert(entry(
                    before.transitions@[s * 256 + b],
                    before.ids@,
                    *dfa,
                    before.ids@[s],
                    b as u8,
                ));
                assert(s < before.ids@.len());
            } else {
                assert(s == from && b == byte);
            }
        }
    }
    Ok(())
}

/// Walks a dense automaton from its start state. The states are numbered in the order in which they
/// are found.
fn walk_all(dfa: &DFA<Vec<u32>>, start: u32, max_states: usize) -> (result: Result<Walk, usize>)
    requires
        dense::dense_states(*dfa).contains(start),
    ensures
        result matches Ok(walk) ==> walk.wf(*dfa, start) && walk.accepting@.len()
            == walk.ids@.len() && walk.transitions@.len() == walk.ids@.len() * 256
            && walk.ids@.len() == found(*dfa, start).len(),
        result is Ok <==> found(*dfa, start).len() <= room(max_states),
        result matches Err(observed) ==> observed == room(max_states) + 1,
{
    proof {
        assert(dense::dense_run(*dfa, start, Seq::<u8>::empty()) == Some(start));
        lemma_found_many(*dfa, start, seq![start]);
    }
    if max_states == 0 {
        return Err(1);
    }
    let mut ids: Vec<u32> = Vec::new();
    ids.push(start);
    let mut index: FxHashMap<u32, u32> = fx::map_new();
    fx::map_insert(&mut index, start, 0);
    let mut walk = Walk { ids, index, transitions: Vec::new(), accepting: Vec::new() };
    let mut from: usize = 0;
    while from < walk.ids.len()
        invariant
            walk.wf(*dfa, start),
            from <= walk.ids@.len() <= room(max_states),
            walk.accepting@.len() == from,
            walk.transitions@.len() == from * 256,
        decreases u32::MAX - from,
    {
        let accepting = dense::is_final(dfa, walk.ids[from]);
        walk.accepting.push(accepting);
        let mut byte: usize = 0;
        while byte < 256
            invariant
                walk.wf(*dfa, start),
                from < walk.ids@.len() <= room(max_states),
                walk.accepting@.len() == from + 1,
                walk.transitions@.len() == from * 256 + byte,
                byte <= 256,
            decreases 256 - byte,
        {
            walk_byte(&mut walk, dfa, Ghost(start), from, byte as u8, max_states)?;
            byte += 1;
        }
        from += 1;
    }
    proof {
        lemma_complete(&walk, *dfa, start);
    }
    Ok(walk)
}

/// A run of an automaton stays among the listed states where their entries are right.
proof fn lemma_listed(walk: &Walk, dfa: DFA<Vec<u32>>, start: u32, w: Seq<u8>)
    requires
        walk.wf(dfa, start),
        walk.transitions@.len() == walk.ids@.len() * 256,
    ensures
        dense::dense_run(dfa, start, w) matches Some(state) ==> walk.ids@.contains(state),
    decreases w.len(),
{
    if w.len() == 0 {
        assert(walk.ids@[0] == start);
    } else if let Some(before) = dense::dense_run(dfa, start, w.drop_last()) {
        lemma_listed(walk, dfa, start, w.drop_last());
        let s = choose|s: int| 0 <= s < walk.ids@.len() && walk.ids@[s] == before;
        let b = w.last() as int;
        assert(entry(walk.transitions@[s * 256 + b], walk.ids@, dfa, walk.ids@[s], b as u8));
    }
}

/// A walk that is done lists just the states that are reached.
proof fn lemma_complete(walk: &Walk, dfa: DFA<Vec<u32>>, start: u32)
    requires
        walk.wf(dfa, start),
        walk.transitions@.len() == walk.ids@.len() * 256,
    ensures
        walk.ids@.len() == found(dfa, start).len(),
{
    let ids = walk.ids@;
    assert forall|i: int, j: int| 0 <= i < ids.len() && 0 <= j < ids.len() && i != j implies ids[i]
        != ids[j] by {
        assert(walk.index@[ids[i]] == i);
        assert(walk.index@[ids[j]] == j);
    }
    assert forall|state: u32| reaches(dfa, start, state) implies #[trigger] ids.contains(state) by {
        let w = choose|w: Seq<u8>| #[trigger] dense::dense_run(dfa, start, w) == Some(state);
        lemma_listed(walk, dfa, start, w);
    }
    lemma_found_many(dfa, start, ids);
}

impl CompiledByteDfa {
    /// Whether `marks` marks some state that follows `state`.
    pub open spec fn steps_into(&self, marks: Seq<bool>, state: int) -> bool {
        exists|b: u8|
            #![trigger self.step(state as u32, b)]
            self.step(state as u32, b) < self.states() && marks[self.step(
                state as u32,
                b,
            ) as int]
    }

    /// Whether a state is marked from which some byte leads to a marked state.
    fn leads_into(&self, marks: &Vec<bool>, state: usize) -> (found: bool)
        requires
            self.shaped(),
            marks@.len() == self.states(),
            state < self.states(),
        ensures
            found == self.steps_into(marks@, state as int),
    {
        let mut byte: usize = 0;
        while byte < 256
            invariant
                self.shaped(),
                marks@.len() == self.states(),
                state < self.states(),
                byte <= 256,
                forall|b: u8|
                    #![trigger self.step(state as u32, b)]
                    b < byte ==> !(self.step(state as u32, b) < self.states() && marks@[self.step(
                        state as u32,
                        b,
                    ) as int]),
            decreases 256 - byte,
        {
            let length: usize = self.transitions.len();
            assert(state as int * 256 + (byte as int) < length);
            let target: u32 = self.transitions[state * 256 + byte];
            assert(target == self.step(state as u32, byte as u8));
            if (target as usize) < marks.len() && marks[target as usize] {
                return true;
            }
            byte += 1;
        }
        false
    }

    /// Marks the states from which an accepting state can be reached.
    fn find_live(&self) -> (live: Vec<bool>)
        requires
            self.shaped(),
        ensures
            live@.len() == self.states(),
            forall|s: int| 0 <= s < self.states() ==> #[trigger] live@[s] == self.live_at(s as u32),
    {
        let mut live: Vec<bool> = self.accepting.clone();
        assert(live@ =~= self.accepting@);
        proof {
            assert forall|s: int| 0 <= s < self.states() && #[trigger] live@[s] implies self.live_at(
                s as u32,
            ) by {
                assert(self.accepts_at(self.run(s as u32, Seq::<u8>::empty())));
            }
        }
        let mut changed = true;
        while changed
            invariant
                self.shaped(),
                live@.len() == self.states(),
                forall|s: int| 0 <= s < self.states() && #[trigger] live@[s] ==> self.live_at(s as u32),
                forall|s: int| 0 <= s < self.states() && #[trigger] self.accepting@[s] ==> live@[s],
                !changed ==> forall|s: int|
                    0 <= s < self.states() && #[trigger] self.steps_into(live@, s) ==> live@[s],
            decreases
                    self.states() - count::count_true(live@),
                    if changed {
                        1nat
                    } else {
                        0nat
                    },
        {
            changed = false;
            let ghost start = live@;
            proof {
                count::lemma_count_bound(live@);
            }
            let mut index: usize = live.len();
            while index > 0
                invariant
                    self.shaped(),
                    index <= live@.len() == self.states(),
                    forall|s: int|
                        0 <= s < self.states() && #[trigger] live@[s] ==> self.live_at(s as u32),
                    forall|s: int|
                        0 <= s < self.states() && #[trigger] self.accepting@[s] ==> live@[s],
                    !changed ==> live@ == start && forall|s: int|
                        index <= s < self.states() && #[trigger] self.steps_into(live@, s)
                            ==> live@[s],
                    changed ==> count::count_true(live@) > count::count_true(start),
                decreases index,
            {
                index -= 1;
                if !live[index] && self.leads_into(&live, index) {
                    proof {
                        count::lemma_count_set(live@, index as int);
                        let b = choose|b: u8|
                            #![trigger self.step(index as u32, b)]
                            self.step(index as u32, b) < self.states() && live@[self.step(
                                index as u32,
                                b,
                            ) as int];
                        let next = self.step(index as u32, b);
                        assert(live@[next as int]);
                        self.lemma_live_step(index as u32, b);
                    }
                    live.set(index, true);
                    changed = true;
                }
            }
            proof {
                count::lemma_count_bound(live@);
            }
        }
        proof {
            assert forall|s: int| 0 <= s < self.states() implies #[trigger] live@[s] == self.live_at(
                s as u32,
            ) by {
                if self.live_at(s as u32) {
                    let w = choose|w: Seq<u8>| self.accepts_at(#[trigger] self.run(s as u32, w));
                    self.lemma_marked(live@, s, w);
                }
            }
        }
        live
    }

    /// A state from which some byte leads to a live state is live.
    proof fn lemma_live_step(&self, state: u32, byte: u8)
        requires
            self.live_at(self.step(state, byte)),
        ensures
            self.live_at(state),
            self.extendable_at(state),
    {
        let next = self.step(state, byte);
        let w = choose|w: Seq<u8>| self.accepts_at(#[trigger] self.run(next, w));
        let first = seq![byte];
        assert(first.drop_last() =~= Seq::<u8>::empty());
        assert(self.run(state, first.drop_last()) == state);
        assert(self.run(state, first) == next);
        self.lemma_run_concat(state, first, w);
        assert(self.accepts_at(self.run(state, first + w)));
    }

    /// The first byte of a string that is accepted leads to a live state.
    proof fn lemma_first_step(&self, state: u32, w: Seq<u8>)
        requires
            self.shaped(),
            state < self.states(),
            w.len() > 0,
            self.accepts_at(self.run(state, w)),
        ensures
            self.step(state, w[0]) < self.states(),
            self.accepts_at(self.run(self.step(state, w[0]), w.skip(1))),
    {
        let first = seq![w[0]];
        assert(first.drop_last() =~= Seq::<u8>::empty());
        assert(self.run(state, first.drop_last()) == state);
        assert(self.run(state, first) == self.step(state, w[0]));
        assert(first + w.skip(1) =~= w);
        self.lemma_run_concat(state, first, w.skip(1));
        if self.step(state, w[0]) >= self.states() {
            self.lemma_outside_run(self.step(state, w[0]), w.skip(1));
        }
    }

    /// Marks that hold of the accepting states, and of what leads to a mark, hold of every live
    /// state.
    proof fn lemma_marked(&self, marks: Seq<bool>, s: int, w: Seq<u8>)
        requires
            self.shaped(),
            marks.len() == self.states(),
            0 <= s < self.states(),
            forall|s: int| 0 <= s < self.states() && #[trigger] self.accepting@[s] ==> marks[s],
            forall|s: int|
                0 <= s < self.states() && #[trigger] self.steps_into(marks, s) ==> marks[s],
            self.accepts_at(self.run(s as u32, w)),
        ensures
            marks[s],
        decreases w.len(),
    {
        if w.len() == 0 {
            assert(self.accepting@[s]);
        } else {
            self.lemma_first_step(s as u32, w);
            let next = self.step(s as u32, w[0]);
            self.lemma_marked(marks, next as int, w.skip(1));
            assert(marks[self.step(s as u32, w[0]) as int]);
            assert(self.steps_into(marks, s));
        }
    }

    /// Marks the states from which an accepting state can be reached by at least one byte.
    fn find_extendable(&self, live: &Vec<bool>) -> (extendable: Vec<bool>)
        requires
            self.shaped(),
            live@.len() == self.states(),
            forall|s: int| 0 <= s < self.states() ==> #[trigger] live@[s] == self.live_at(s as u32),
        ensures
            extendable@.len() == self.states(),
            forall|s: int|
                0 <= s < self.states() ==> #[trigger] extendable@[s] == self.extendable_at(s as u32),
    {
        let mut extendable: Vec<bool> = Vec::new();
        let states: usize = self.accepting.len();
        while extendable.len() < states
            invariant
                self.shaped(),
                states == self.states(),
                live@.len() == self.states(),
                extendable@.len() <= states,
                forall|s: int|
                    0 <= s < self.states() ==> #[trigger] live@[s] == self.live_at(s as u32),
                forall|s: int|
                    0 <= s < extendable@.len() ==> #[trigger] extendable@[s] == self.extendable_at(
                        s as u32,
                    ),
            decreases states - extendable@.len(),
        {
            let state: usize = extendable.len();
            let found = self.leads_into(live, state);
            proof {
                if found {
                    let b = choose|b: u8|
                        #![trigger self.step(state as u32, b)]
                        self.step(state as u32, b) < self.states() && live@[self.step(
                            state as u32,
                            b,
                        ) as int];
                    assert(live@[self.step(state as u32, b) as int]);
                    self.lemma_live_step(state as u32, b);
                }
                if self.extendable_at(state as u32) {
                    let w = choose|w: Seq<u8>|
                        w.len() > 0 && self.accepts_at(#[trigger] self.run(state as u32, w));
                    self.lemma_first_step(state as u32, w);
                    let next = self.step(state as u32, w[0]);
                    assert(self.live_at(next));
                    assert(live@[next as int]);
                    assert(self.steps_into(live@, state as int));
                }
            }
            extendable.push(found);
        }
        extendable
    }

    /// Automata with the same tables run alike.
    proof fn lemma_same_run(&self, other: &Self, state: u32, w: Seq<u8>)
        requires
            self.transitions@ == other.transitions@,
            self.accepting@ == other.accepting@,
        ensures
            self.run(state, w) == other.run(state, w),
        decreases w.len(),
    {
        if w.len() > 0 {
            self.lemma_same_run(other, state, w.drop_last());
        }
    }

    /// An automaton from its table: the marks of the live states are worked out.
    fn complete(
        transitions: Vec<u32>,
        accepting: Vec<bool>,
        nfa_states: usize,
        nfa_transitions: usize,
    ) -> (dfa: Self)
        requires
            0 < accepting@.len() <= u32::MAX,
            transitions@.len() == accepting@.len() * 256,
            forall|i: int|
                0 <= i < transitions@.len() ==> (#[trigger] transitions@[i] < accepting@.len()
                    || transitions@[i] == DEAD_DFA_STATE),
        ensures
            dfa.wf(),
            dfa.transitions@ == transitions@,
            dfa.accepting@ == accepting@,
            dfa.nfa_states == nfa_states,
            dfa.nfa_transitions == nfa_transitions,
    {
        let bare = CompiledByteDfa {
            transitions,
            accepting,
            live: Vec::new(),
            extendable: Vec::new(),
            nfa_states,
            nfa_transitions,
        };
        let live = bare.find_live();
        let extendable = bare.find_extendable(&live);
        let ghost plain = bare;
        let CompiledByteDfa { transitions, accepting, .. } = bare;
        let dfa = CompiledByteDfa {
            transitions,
            accepting,
            live,
            extendable,
            nfa_states,
            nfa_transitions,
        };
        proof {
            assert forall|state: u32| #[trigger] plain.live_at(state) == dfa.live_at(state) by {
                if plain.live_at(state) {
                    let w = choose|w: Seq<u8>| plain.accepts_at(#[trigger] plain.run(state, w));
                    plain.lemma_same_run(&dfa, state, w);
                    assert(dfa.accepts_at(dfa.run(state, w)));
                }
                if dfa.live_at(state) {
                    let w = choose|w: Seq<u8>| dfa.accepts_at(#[trigger] dfa.run(state, w));
                    plain.lemma_same_run(&dfa, state, w);
                    assert(plain.accepts_at(plain.run(state, w)));
                }
            }
            assert forall|state: u32| #[trigger]
                plain.extendable_at(state) == dfa.extendable_at(state) by {
                if plain.extendable_at(state) {
                    let w = choose|w: Seq<u8>|
                        w.len() > 0 && plain.accepts_at(#[trigger] plain.run(state, w));
                    plain.lemma_same_run(&dfa, state, w);
                    assert(dfa.accepts_at(dfa.run(state, w)));
                }
                if dfa.extendable_at(state) {
                    let w = choose|w: Seq<u8>|
                        w.len() > 0 && dfa.accepts_at(#[trigger] dfa.run(state, w));
                    plain.lemma_same_run(&dfa, state, w);
                    assert(plain.accepts_at(plain.run(state, w)));
                }
            }
            assert forall|s: int| 0 <= s < dfa.states() implies #[trigger] dfa.live@[s]
                == dfa.live_at(s as u32) by {
                assert(plain.live_at(s as u32) == dfa.live_at(s as u32));
            }
            assert forall|s: int| 0 <= s < dfa.states() implies #[trigger] dfa.extendable@[s]
                == dfa.extendable_at(s as u32) by {
                assert(plain.extendable_at(s as u32) == dfa.extendable_at(s as u32));
            }
        }
        dfa
    }

    /// The size of the tables in bytes.
    pub open spec fn spec_memory_bytes(&self) -> nat {
        count::saturated(self.transitions@.len() * 4 + self.states() * 3)
    }

    /// The size of the tables in bytes.
    pub fn memory_bytes(&self) -> (bytes: usize)
        requires
            self.wf(),
        ensures
            bytes == self.spec_memory_bytes(),
    {
        let entries: usize = self.transitions.len();
        let states: usize = self.accepting.len();
        count::saturating_product(entries, 4).saturating_add(count::saturating_product(states, 3))
    }
}

/// A run of the table is a run of the automaton that it was made from.
proof fn lemma_mirror(
    table: &CompiledByteDfa,
    ids: Seq<u32>,
    dfa: DFA<Vec<u32>>,
    start: u32,
    w: Seq<u8>,
)
    requires
        table.shaped(),
        ids.len() == table.states(),
        ids[0] == start,
        entries_right(table.transitions@, ids, dfa),
    ensures
        match dense::dense_run(dfa, start, w) {
            Some(state) => table.run(0, w) < table.states() && ids[table.run(0, w) as int] == state,
            None => table.run(0, w) == DEAD_DFA_STATE,
        },
    decreases w.len(),
{
    if w.len() > 0 {
        lemma_mirror(table, ids, dfa, start, w.drop_last());
        let before = table.run(0, w.drop_last());
        let b = w.last() as int;
        if before < table.states() {
            let place = before as int * 256 + b;
            assert(0 <= place < table.transitions@.len());
            assert(entry(table.transitions@[before as int * 256 + b], ids, dfa, ids[before as int], b as u8));
        }
    }
}

/// The sum of a sequence.
pub open spec fn total(list: Seq<usize>) -> nat
    decreases list.len(),
{
    if list.len() == 0 {
        0
    } else {
        total(list.drop_last()) + list.last() as nat
    }
}

/// A part of a sequence sums to no more than all of it.
proof fn lemma_total_part(list: Seq<usize>, n: int)
    requires
        0 <= n <= list.len(),
    ensures
        total(list.take(n)) <= total(list),
    decreases list.len() - n,
{
    if n < list.len() {
        assert(list.take(n + 1).drop_last() =~= list.take(n));
        lemma_total_part(list, n + 1);
    } else {
        assert(list.take(n) =~= list);
    }
}

/// The sum of a list, or the largest machine integer.
fn sum(list: &Vec<usize>) -> (sum: Option<usize>)
    ensures
        sum matches Some(s) ==> s == total(list@),
        sum is None ==> total(list@) > usize::MAX,
{
    let mut sum: usize = 0;
    let mut index: usize = 0;
    while index < list.len()
        invariant
            index <= list@.len(),
            sum == total(list@.take(index as int)),
        decreases list@.len() - index,
    {
        proof {
            assert(list@.take(index + 1).drop_last() =~= list@.take(index as int));
            lemma_total_part(list@, index + 1);
        }
        match sum.checked_add(list[index]) {
            Some(more) => {
                sum = more;
            },
            None => {
                return None;
            },
        }
        index += 1;
    }
    assert(list@.take(index as int) =~= list@);
    Some(sum)
}

/// What an expression matches, read as the text of a pattern.
pub open spec fn pattern_language(e: RegularExpression, w: Seq<u8>) -> bool {
    match regular::spec_pattern(e) {
        Some(pattern) => dense::matches(pattern, w),
        None => false,
    }
}

/// The error on which the nondeterministic automaton of an expression is refused, if it is.
pub open spec fn nfa_refused(
    e: RegularExpression,
    limits: CompileLimits,
    error: CompileError,
    pointer: SchemaPointer,
) -> bool {
    match regular::spec_pattern(e) {
        Some(pattern) => {
            let degrees = dense::nfa_degrees(pattern);
            if !dense::readable(pattern) {
                error matches CompileError::AutomatonBuild { pointer: at, message } && at == pointer
                    && dense::nfa_trouble(pattern) == Some(message@)
            } else if degrees.len() > limits.max_nfa_states {
                error == (CompileError::ResourceLimitExceeded {
                    stage: CompileStage::NfaConstruction,
                    observed: degrees.len() as usize,
                    limit: limits.max_nfa_states,
                })
            } else if total(degrees) > limits.max_nfa_transitions {
                error == (CompileError::ResourceLimitExceeded {
                    stage: CompileStage::NfaConstruction,
                    observed: count::saturated(total(degrees)) as usize,
                    limit: limits.max_nfa_transitions,
                })
            } else {
                false
            }
        },
        None => false,
    }
}

/// Whether the nondeterministic automaton of an expression can be made within the limits.
pub open spec fn nfa_fits(e: RegularExpression, limits: CompileLimits) -> bool {
    match regular::spec_pattern(e) {
        Some(pattern) => dense::readable(pattern) && dense::nfa_degrees(pattern).len()
            <= limits.max_nfa_states && total(dense::nfa_degrees(pattern))
            <= limits.max_nfa_transitions,
        None => true,
    }
}

/// The size of the table of so many states in bytes.
pub open spec fn table_bytes(states: nat) -> nat {
    count::saturated(states * 256 * 4 + states * 3)
}

/// Whether a table holds the states of an automaton that are reached from its start state, which
/// comes first, and what follows them.
pub open spec fn mirrors(table: &CompiledByteDfa, dfa: DFA<Vec<u32>>, start: u32) -> bool {
    exists|ids: Seq<u32>| #[trigger]
        entries_right(table.transitions@, ids, dfa) && ids.len() == table.states() && ids[0]
            == start && forall|k: int|
            0 <= k < ids.len() ==> #[trigger] table.accepting@[k] == dense::dense_final(dfa, ids[k])
}

/// Whether a result is what becomes of a dense automaton: its table, if it has a start state and
/// the states that are reached, and their table, keep within the limits.
pub open spec fn tabulated(
    dfa: DFA<Vec<u32>>,
    nfa_states: int,
    nfa_transitions: int,
    limits: CompileLimits,
    pointer: SchemaPointer,
    result: Result<CompiledByteDfa, CompileError>,
) -> bool {
    match dense::dense_start(dfa) {
        None => result matches Err(CompileError::AutomatonBuild { pointer: at, message }) && at
            == pointer && message@ == "the automaton has no anchored start state"@,
        Some(start) => {
            let states = found(dfa, start).len();
            if states > room(limits.max_dfa_states) {
                result == Err::<CompiledByteDfa, CompileError>(
                    CompileError::ResourceLimitExceeded {
                        stage: CompileStage::DfaDeterminization,
                        observed: (room(limits.max_dfa_states) + 1) as usize,
                        limit: limits.max_dfa_states,
                    },
                )
            } else if table_bytes(states) > limits.max_dfa_bytes {
                result == Err::<CompiledByteDfa, CompileError>(
                    CompileError::ResourceLimitExceeded {
                        stage: CompileStage::DfaDeterminization,
                        observed: table_bytes(states) as usize,
                        limit: limits.max_dfa_bytes,
                    },
                )
            } else {
                result matches Ok(table) && {
                    &&& table.wf()
                    &&& table.states() == states
                    &&& table.nfa_states == nfa_states
                    &&& table.nfa_transitions == nfa_transitions
                    &&& mirrors(&table, dfa, start)
                    &&& forall|w: Seq<u8>| #[trigger]
                        table.accepts(w) <==> dense::dense_accepts(dfa, w)
                }
            }
        },
    }
}

/// Whether a result is what becomes of an outcome of determinising the automaton of a pattern.
pub open spec fn finished(
    pattern: Seq<char>,
    limits: CompileLimits,
    pointer: SchemaPointer,
    outcome: Result<DFA<Vec<u32>>, Option<Seq<char>>>,
    result: Result<CompiledByteDfa, CompileError>,
) -> bool {
    match outcome {
        Ok(dfa) => tabulated(
            dfa,
            dense::nfa_degrees(pattern).len() as int,
            total(dense::nfa_degrees(pattern)) as int,
            limits,
            pointer,
            result,
        ),
        Err(Some(text)) => result matches Err(CompileError::AutomatonBuild { pointer: at, message })
            && at == pointer && message@ == text,
        Err(None) => result == Err::<CompiledByteDfa, CompileError>(
            CompileError::ResourceLimitExceeded {
                stage: CompileStage::DfaDeterminization,
                observed: count::saturated((limits.max_dfa_bytes + 1) as nat) as usize,
                limit: limits.max_dfa_bytes,
            },
        ),
    }
}

/// Whether a result is what an expression comes to whose nondeterministic automaton fits: that of
/// some outcome of determinising it within the limit of bytes.
pub open spec fn determined(
    e: RegularExpression,
    limits: CompileLimits,
    pointer: SchemaPointer,
    result: Result<CompiledByteDfa, CompileError>,
) -> bool {
    regular::spec_pattern(e) matches Some(pattern) && exists|
        outcome: Result<DFA<Vec<u32>>, Option<Seq<char>>>,
    | #[trigger]
        dense::determinizes(pattern, limits.max_dfa_bytes, outcome) && finished(
            pattern,
            limits,
            pointer,
            outcome,
            result,
        )
}

/// Whether an error says why an expression has no automaton: its nondeterministic automaton is
/// refused, or what was made of it is.
pub open spec fn automaton_refused(
    e: RegularExpression,
    limits: CompileLimits,
    error: CompileError,
    pointer: SchemaPointer,
) -> bool {
    if nfa_fits(e, limits) {
        determined(e, limits, pointer, Err(error))
    } else {
        nfa_refused(e, limits, error, pointer)
    }
}

/// Makes the table of a dense automaton: its states in the order in which they are found from the
/// start state, within the limits.
pub fn tabulate(
    dfa: &DFA<Vec<u32>>,
    nfa_states: usize,
    nfa_transitions: usize,
    limits: &CompileLimits,
    pointer: &SchemaPointer,
) -> (result: Result<CompiledByteDfa, CompileError>)
    ensures
        tabulated(
            *dfa,
            nfa_states as int,
            nfa_transitions as int,
            *limits,
            *pointer,
            result,
        ),
{
    let start: u32 = match dense::start_state(dfa) {
        Some(start) => start,
        None => {
            return Err(
                CompileError::AutomatonBuild {
                    pointer: pointer.clone(),
                    message: "the automaton has no anchored start state".to_owned(),
                },
            );
        },
    };
    let walk = match walk_all(dfa, start, limits.max_dfa_states) {
        Ok(walk) => walk,
        Err(observed) => {
            return Err(
                CompileError::ResourceLimitExceeded {
                    stage: CompileStage::DfaDeterminization,
                    observed,
                    limit: limits.max_dfa_states,
                },
            );
        },
    };
    let Walk { ids, transitions, accepting, .. } = walk;
    proof {
        assert forall|i: int| 0 <= i < transitions@.len() implies (#[trigger] transitions@[i]
            < accepting@.len() || transitions@[i] == DEAD_DFA_STATE) by {
            let s = i / 256;
            let b = i % 256;
            assert(i == s * 256 + b);
            assert(entry(transitions@[s * 256 + b], ids@, *dfa, ids@[s], b as u8));
        }
    }
    let table = CompiledByteDfa::complete(transitions, accepting, nfa_states, nfa_transitions);
    let bytes: usize = table.memory_bytes();
    if bytes > limits.max_dfa_bytes {
        return Err(
            CompileError::ResourceLimitExceeded {
                stage: CompileStage::DfaDeterminization,
                observed: bytes,
                limit: limits.max_dfa_bytes,
            },
        );
    }
    proof {
        assert(entries_right(table.transitions@, ids@, *dfa));
        assert(mirrors(&table, *dfa, start));
        assert forall|w: Seq<u8>| #[trigger] table.accepts(w) <==> dense::dense_accepts(
            *dfa,
            w,
        ) by {
            lemma_mirror(&table, ids@, *dfa, start, w);
        }
    }
    Ok(table)
}

/// A table of an automaton that obeys the text of an expression accepts what the expression denotes.
proof fn lemma_table_means(
    e: RegularExpression,
    pattern: Seq<char>,
    dfa: DFA<Vec<u32>>,
    table: &CompiledByteDfa,
)
    requires
        regular::spec_pattern(e) == Some(pattern),
        dense::obeys(dfa, pattern),
        forall|w: Seq<u8>|
            dense::pattern_matches(pattern, w) <==> #[trigger] dense::dense_accepts(dfa, w),
        forall|w: Seq<u8>| #[trigger] table.accepts(w) <==> dense::dense_accepts(dfa, w),
    ensures
        forall|w: Seq<u8>| #[trigger] table.accepts(w) <==> dense::matches(pattern, w),
        forall|w: Seq<u8>| dense::plain_word(pattern, w) ==> #[trigger] table.accepts(w),
        dense::plain(e) ==> forall|w: Seq<u8>| #[trigger]
            table.accepts(w) <==> regular::denotes(
                e,
                dense::pattern_lex(),
                false,
                w,
                0,
                w.len() as int,
            ),
{
    assert forall|w: Seq<u8>| #[trigger] table.accepts(w) <==> dense::matches(pattern, w) by {
        if dense::plain_pattern(pattern) {
            let tree = lexical::lemma_plain_tree(pattern);
            assert(syntax::reads(tree, w) <==> dense::matches(pattern, w));
        }
    }
    assert forall|w: Seq<u8>| dense::plain_word(pattern, w) implies #[trigger] table.accepts(w) by {
        lexical::lemma_known_word(pattern, w);
    }
    if dense::solid(e) {
        render::law_obeying_automaton_composes(dfa, pattern);
    }
}

impl CompiledByteDfa {
    /// The automaton that accepts nothing.
    fn nothing() -> (dfa: Self)
        ensures
            dfa.wf(),
            dfa.states() == 1,
            forall|w: Seq<u8>| !dfa.accepts(w),
            dfa.nfa_states == 0,
            dfa.nfa_transitions == 0,
    {
        let mut transitions: Vec<u32> = Vec::new();
        while transitions.len() < 256
            invariant
                transitions@.len() <= 256,
                forall|i: int|
                    0 <= i < transitions@.len() ==> #[trigger] transitions@[i] == DEAD_DFA_STATE,
            decreases 256 - transitions@.len(),
        {
            transitions.push(DEAD_DFA_STATE);
        }
        let mut accepting: Vec<bool> = Vec::new();
        accepting.push(false);
        let dfa = CompiledByteDfa::complete(transitions, accepting, 0, 0);
        proof {
            assert forall|w: Seq<u8>| !dfa.accepts(w) by {
                if dfa.accepts(w) {
                    assert(dfa.run(0, w) == 0);
                }
            }
        }
        dfa
    }

    /// Compiles an expression into a byte automaton with its tables. The automaton accepts what the
    /// text of the expression matches.
    pub fn compile(
        expression: &RegularExpression,
        limits: &CompileLimits,
        pointer: &SchemaPointer,
    ) -> (result: Result<Self, CompileError>)
        ensures
            regular::spec_pattern(*expression) is None ==> result is Ok,
            !nfa_fits(*expression, *limits) ==> result is Err,
            nfa_fits(*expression, *limits) && regular::spec_pattern(*expression) is Some
                ==> determined(*expression, *limits, *pointer, result),
            result matches Err(error) ==> automaton_refused(*expression, *limits, error, *pointer),
            result matches Ok(dfa) ==> {
                &&& dfa.wf()
                &&& dfa.states() <= limits.max_dfa_states || regular::spec_pattern(*expression) is None
                &&& forall|w: Seq<u8>| #[trigger] dfa.accepts(w) <==> pattern_language(*expression, w)
                &&& dense::plain(*expression) ==> forall|w: Seq<u8>| #[trigger]
                    dfa.accepts(w) <==> regular::denotes(
                        *expression,
                        dense::pattern_lex(),
                        false,
                        w,
                        0,
                        w.len() as int,
                    )
            },
            result matches Ok(dfa) ==> (regular::spec_pattern(*expression) matches Some(pattern)
                ==> forall|w: Seq<u8>| #[trigger]
                dfa.accepts(w) <==> dense::pattern_matches(pattern, w)),
            result matches Ok(dfa) ==> (regular::spec_pattern(*expression) matches Some(pattern)
                ==> forall|w: Seq<u8>|
                dense::plain_word(pattern, w) ==> #[trigger] dfa.accepts(w)),
            result matches Ok(dfa) ==> (regular::spec_pattern(*expression) matches Some(pattern)
                ==> dfa.nfa_states == dense::nfa_degrees(pattern).len() && dfa.nfa_transitions == total(
                dense::nfa_degrees(pattern),
            )),
    {
        let pattern: String = match expression.pattern() {
            Some(pattern) => pattern,
            None => {
                let dfa = CompiledByteDfa::nothing();
                proof {
                    if dense::solid(*expression) {
                        dense::lemma_solid_pattern(*expression);
                    }
                }
                return Ok(dfa);
            },
        };
        let nfa = match dense::build_nfa(pattern.as_str()) {
            Ok(nfa) => nfa,
            Err(message) => {
                return Err(CompileError::AutomatonBuild { pointer: pointer.clone(), message });
            },
        };
        let degrees: Vec<usize> = dense::state_degrees(&nfa);
        let nfa_states: usize = degrees.len();
        if nfa_states > limits.max_nfa_states {
            return Err(
                CompileError::ResourceLimitExceeded {
                    stage: CompileStage::NfaConstruction,
                    observed: nfa_states,
                    limit: limits.max_nfa_states,
                },
            );
        }
        let nfa_transitions: usize = match sum(&degrees) {
            Some(sum) => sum,
            None => {
                return Err(
                    CompileError::ResourceLimitExceeded {
                        stage: CompileStage::NfaConstruction,
                        observed: usize::MAX,
                        limit: limits.max_nfa_transitions,
                    },
                );
            },
        };
        if nfa_transitions > limits.max_nfa_transitions {
            return Err(
                CompileError::ResourceLimitExceeded {
                    stage: CompileStage::NfaConstruction,
                    observed: nfa_transitions,
                    limit: limits.max_nfa_transitions,
                },
            );
        }
        let outcome = dense::determinize(&nfa, limits.max_dfa_bytes);
        let ghost plain = dense::outcome(outcome);
        let result = match outcome {
            Ok(dfa) => tabulate(&dfa, nfa_states, nfa_transitions, limits, pointer),
            Err(Some(message)) => Err(
                CompileError::AutomatonBuild { pointer: pointer.clone(), message },
            ),
            Err(None) => Err(
                CompileError::ResourceLimitExceeded {
                    stage: CompileStage::DfaDeterminization,
                    observed: limits.max_dfa_bytes.saturating_add(1),
                    limit: limits.max_dfa_bytes,
                },
            ),
        };
        assert(dense::determinizes(pattern@, limits.max_dfa_bytes, plain));
        assert(finished(pattern@, *limits, *pointer, plain, result));
        assert(result matches Err(error) ==> result == Err::<CompiledByteDfa, CompileError>(error));
        proof {
            if let Ok(dfa) = plain {
                if let Ok(table) = &result {
                    lemma_table_means(*expression, pattern@, dfa, table);
                }
            }
        }
        result
    }
}

} // verus!
