//! Deterministic automata over bytes.

use vstd::prelude::*;

verus! {

/// The sink state, from which nothing is accepted.
pub const DEAD_DFA_STATE: u32 = 0xFFFF_FFFF;

/// A deterministic byte automaton: state 0 is the start, and every state knows whether an
/// accepting state can still be reached from it.
#[derive(Clone, Debug, PartialEq, Eq)]
pub struct CompiledByteDfa {
    pub transitions: Vec<u32>,
    pub accepting: Vec<bool>,
    pub live: Vec<bool>,
    pub extendable: Vec<bool>,
    pub nfa_states: usize,
    pub nfa_transitions: usize,
}

impl CompiledByteDfa {
    /// The number of states.
    pub open spec fn states(&self) -> nat {
        self.accepting@.len()
    }

    /// The state that follows `state` on `byte`.
    pub open spec fn step(&self, state: u32, byte: u8) -> u32 {
        if state < self.states() {
            self.transitions@[state as int * 256 + byte as int]
        } else {
            DEAD_DFA_STATE
        }
    }

    /// The state after reading `w` from `state`.
    pub open spec fn run(&self, state: u32, w: Seq<u8>) -> u32
        decreases w.len(),
    {
        if w.len() == 0 {
            state
        } else {
            self.step(self.run(state, w.drop_last()), w.last())
        }
    }

    /// Whether `state` accepts.
    pub open spec fn accepts_at(&self, state: u32) -> bool {
        state < self.states() && self.accepting@[state as int]
    }

    /// The language of the automaton.
    pub open spec fn accepts(&self, w: Seq<u8>) -> bool {
        self.accepts_at(self.run(0, w))
    }

    /// Whether some string leads from `state` to an accepting state.
    pub open spec fn live_at(&self, state: u32) -> bool {
        exists|w: Seq<u8>| self.accepts_at(#[trigger] self.run(state, w))
    }

    /// Whether some string that is not empty leads from `state` to an accepting state.
    pub open spec fn extendable_at(&self, state: u32) -> bool {
        exists|w: Seq<u8>| w.len() > 0 && self.accepts_at(#[trigger] self.run(state, w))
    }

    /// The shape of the tables.
    pub open spec fn shaped(&self) -> bool {
        &&& 0 < self.states() <= u32::MAX
        &&& self.transitions@.len() == self.states() * 256
        &&& forall|i: int|
            0 <= i < self.transitions@.len() ==> (#[trigger] self.transitions@[i] < self.states()
                || self.transitions@[i] == DEAD_DFA_STATE)
    }

    /// What holds of every automaton that was compiled.
    pub open spec fn wf(&self) -> bool {
        &&& self.shaped()
        &&& self.live@.len() == self.states()
        &&& self.extendable@.len() == self.states()
        &&& forall|s: int|
            0 <= s < self.states() ==> #[trigger] self.live@[s] == self.live_at(s as u32)
        &&& forall|s: int|
            0 <= s < self.states() ==> #[trigger] self.extendable@[s] == self.extendable_at(
                s as u32,
            )
    }

    /// The state that recognition starts in.
    pub fn start_state(&self) -> (state: u32)
        ensures
            state == 0,
    {
        0
    }

    /// The state that follows `state` on `byte`.
    pub fn next_state(&self, state: u32, byte: u8) -> (next: u32)
        requires
            self.wf(),
        ensures
            next == self.step(state, byte),
            next < self.states() || next == DEAD_DFA_STATE,
    {
        if (state as usize) < self.accepting.len() {
            assert(state as int * 256 + (byte as int) < self.transitions.len());
            let index: usize = state as usize * 256 + byte as usize;
            self.transitions[index]
        } else {
            DEAD_DFA_STATE
        }
    }

    /// Whether `state` is outside the automaton.
    pub fn is_dead(&self, state: u32) -> (dead: bool)
        ensures
            dead == (state >= self.states()),
    {
        state as usize >= self.accepting.len()
    }

    /// Whether `state` accepts.
    pub fn is_accepting(&self, state: u32) -> (accepting: bool)
        ensures
            accepting == self.accepts_at(state),
    {
        (state as usize) < self.accepting.len() && self.accepting[state as usize]
    }

    /// Whether an accepting state can be reached from `state`, itself counted.
    pub fn is_live(&self, state: u32) -> (live: bool)
        requires
            self.wf(),
        ensures
            live == self.live_at(state),
    {
        proof {
            if state >= self.states() {
                self.lemma_outside(state);
            }
        }
        (state as usize) < self.live.len() && self.live[state as usize]
    }

    /// Whether an accepting state can be reached from `state` by reading at least one byte.
    pub fn can_extend(&self, state: u32) -> (extendable: bool)
        requires
            self.wf(),
        ensures
            extendable == self.extendable_at(state),
    {
        proof {
            if state >= self.states() {
                self.lemma_outside(state);
            }
        }
        (state as usize) < self.extendable.len() && self.extendable[state as usize]
    }

    /// The number of states.
    pub fn state_count(&self) -> (count: usize)
        ensures
            count == self.states(),
    {
        self.accepting.len()
    }

    /// The number of states of the nondeterministic automaton that this one came from.
    pub fn nfa_state_count(&self) -> (count: usize)
        ensures
            count == self.nfa_states,
    {
        self.nfa_states
    }

    /// The number of transitions of the nondeterministic automaton that this one came from.
    pub fn nfa_transition_count(&self) -> (count: usize)
        ensures
            count == self.nfa_transitions,
    {
        self.nfa_transitions
    }

    /// Outside the automaton every byte leads outside again, and nothing is accepted.
    pub proof fn lemma_outside(&self, state: u32)
        requires
            state >= self.states(),
            self.states() <= u32::MAX,
        ensures
            !self.live_at(state),
            !self.extendable_at(state),
            forall|w: Seq<u8>| #[trigger] self.run(state, w) >= self.states(),
    {
        assert forall|w: Seq<u8>| #[trigger] self.run(state, w) >= self.states() by {
            self.lemma_outside_run(state, w);
        }
    }

    /// A run that starts outside the automaton stays outside.
    pub proof fn lemma_outside_run(&self, state: u32, w: Seq<u8>)
        requires
            state >= self.states(),
            self.states() <= u32::MAX,
        ensures
            self.run(state, w) >= self.states(),
        decreases w.len(),
    {
        if w.len() > 0 {
            self.lemma_outside_run(state, w.drop_last());
        }
    }

    /// Reading two strings one after the other is reading them together.
    pub proof fn lemma_run_concat(&self, state: u32, u: Seq<u8>, v: Seq<u8>)
        ensures
            self.run(self.run(state, u), v) == self.run(state, u + v),
        decreases v.len(),
    {
        if v.len() == 0 {
            assert(u + v =~= u);
        } else {
            self.lemma_run_concat(state, u, v.drop_last());
            assert((u + v).drop_last() =~= u + v.drop_last());
            assert((u + v).last() == v.last());
        }
    }

}

} // verus!
