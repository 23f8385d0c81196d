//! One interface to the three recognizers: automaton, tables, and chart.

use std::sync::Arc;

use vstd::prelude::*;

use crate::automaton::CompiledByteDfa;
use crate::count;
use crate::earley;
use crate::earley::{EarleyCheckpoint, EarleyRecognizer, EarleyStats};
use crate::error::{RuntimeError, RuntimeResource};
use crate::lalr_recognizer;
use crate::lalr_recognizer::{LalrCheckpoint, LalrRecognizer, LalrRuntimeStats};
use crate::schema::RuntimeLimits;
use crate::viability;

verus! {

/// What became of bytes that were offered.
#[derive(Clone, Copy, Debug, PartialEq, Eq, Structural)]
pub enum Advance {
    Rejected,
    Live,
    Accepting,
}

/// What a recognizer has counted.
#[derive(Clone, Debug, PartialEq, Eq)]
pub enum RecognizerStats {
    Dfa { bytes: u64 },
    Lalr(LalrRuntimeStats),
    Earley(EarleyStats),
}

/// A state of an automaton to come back to.
#[derive(Clone, Copy, Debug, PartialEq, Eq, Structural)]
pub struct DfaCheckpoint {
    pub generation: u64,
    pub state: u32,
    pub position: u32,
}

/// A state to come back to.
#[derive(Debug, PartialEq, Eq)]
pub enum RecognizerCheckpoint {
    Dfa(DfaCheckpoint),
    Lalr(LalrCheckpoint),
    Earley(EarleyCheckpoint),
}

/// A recognizer that runs an automaton.
#[derive(Debug, PartialEq, Eq)]
pub struct DfaRecognizer {
    pub dfa: Arc<CompiledByteDfa>,
    pub state: u32,
    pub position: u32,
    pub generation: u64,
    pub limits: RuntimeLimits,
}

impl DfaRecognizer {
    /// Whether the input so far is `h`.
    pub open spec fn recognizes(&self, h: Seq<u8>) -> bool {
        &&& self.dfa.wf()
        &&& self.state == self.dfa.run(0, h)
        &&& self.state < self.dfa.states()
        &&& self.position == h.len()
    }

    /// What holds of every recognizer.
    pub open spec fn wf(&self) -> bool {
        exists|h: Seq<u8>| self.recognizes(h)
    }

    /// Whether an error says that one more byte is too many, and it is: over the limit, or over what
    /// can be counted.
    pub open spec fn refuses(&self, error: RuntimeError) -> bool {
        let next = count::saturated((self.position + 1) as nat);
        if next > self.limits.max_input_bytes {
            error == (RuntimeError::ResourceLimitExceeded {
                resource: RuntimeResource::InputBytes,
                observed: next as usize,
                limit: self.limits.max_input_bytes,
            })
        } else {
            self.position == u32::MAX && (error matches RuntimeError::ResourceLimitExceeded {
                resource,
                observed,
                limit,
            } && resource == RuntimeResource::InputBytes && observed > limit)
        }
    }

    /// Reads a byte, unless nothing that is accepted goes on with it.
    fn advance_byte(&mut self, byte: u8) -> (result: Result<bool, RuntimeError>)
        requires
            old(self).wf(),
        ensures
            final(self).wf(),
            final(self).dfa == old(self).dfa,
            final(self).limits == old(self).limits,
            final(self).generation == old(self).generation,
            match result {
                Ok(true) => {
                    &&& forall|h: Seq<u8>| #[trigger]
                        old(self).recognizes(h) ==> final(self).recognizes(h.push(byte))
                    &&& final(self).dfa.live_at(final(self).state)
                },
                Ok(false) => {
                    &&& *final(self) == *old(self)
                    &&& forall|h: Seq<u8>, rest: Seq<u8>|
                        old(self).recognizes(h) ==> !#[trigger] old(self).dfa.accepts(
                            #[trigger] h.push(byte) + rest,
                        )
                },
                Err(error) => *final(self) == *old(self) && old(self).refuses(error),
            },
            old(self).limits.max_input_bytes < count::saturated((old(self).position + 1) as nat)
                ==> result is Err,
    {
        let ghost h0 = choose|h: Seq<u8>| self.recognizes(h);
        let next_position: usize = (self.position as usize).saturating_add(1);
        if next_position > self.limits.max_input_bytes {
            return Err(
                RuntimeError::ResourceLimitExceeded {
                    resource: RuntimeResource::InputBytes,
                    observed: next_position,
                    limit: self.limits.max_input_bytes,
                },
            );
        }
        let next: u32 = self.dfa.next_state(self.state, byte);
        proof {
            assert forall|h: Seq<u8>| #[trigger] self.recognizes(h) implies next == self.dfa.run(
                0,
                h.push(byte),
            ) by {
                assert(h.push(byte).drop_last() =~= h);
            }
        }
        if self.dfa.is_dead(next) || !self.dfa.is_live(next) {
            proof {
                if next >= self.dfa.states() {
                    self.dfa.lemma_outside(next);
                }
                assert forall|h: Seq<u8>, rest: Seq<u8>|
                    self.recognizes(h) implies !#[trigger] self.dfa.accepts(
                    #[trigger] h.push(byte) + rest,
                ) by {
                    self.dfa.lemma_run_concat(0, h.push(byte), rest);
                    assert(next == self.dfa.run(0, h.push(byte)));
                    assert(!self.dfa.accepts_at(self.dfa.run(next, rest)));
                }
            }
            return Ok(false);
        }
        if self.position == u32::MAX {
            return Err(
                RuntimeError::ResourceLimitExceeded {
                    resource: RuntimeResource::InputBytes,
                    observed: if next_position > u32::MAX as usize {
                        next_position
                    } else {
                        usize::MAX
                    },
                    limit: if next_position > u32::MAX as usize {
                        u32::MAX as usize
                    } else {
                        usize::MAX - 1
                    },
                },
            );
        }
        let ghost before = *self;
        self.state = next;
        self.position = self.position + 1;
        proof {
            assert forall|h: Seq<u8>| #[trigger] before.recognizes(h) implies self.recognizes(
                h.push(byte),
            ) by {}
            assert(self.recognizes(h0.push(byte)));
        }
        Ok(true)
    }
}

/// A recognizer of any kind.
#[derive(Debug, PartialEq, Eq)]
pub enum RecognizerState {
    Dfa(DfaRecognizer),
    Lalr(LalrRecognizer),
    Earley(EarleyRecognizer),
}

impl RecognizerState {
    /// What holds of every recognizer.
    pub open spec fn wf(&self) -> bool {
        match self {
            RecognizerState::Dfa(recognizer) => recognizer.wf(),
            RecognizerState::Lalr(recognizer) => recognizer.wf() && recognizer.terminals().len()
                <= u32::MAX,
            RecognizerState::Earley(recognizer) => recognizer.wf(),
        }
    }

    /// Whether the input so far is `h`.
    pub open spec fn recognizes(&self, h: Seq<u8>) -> bool {
        match self {
            RecognizerState::Dfa(recognizer) => recognizer.recognizes(h),
            RecognizerState::Lalr(recognizer) => recognizer.recognizes(h),
            RecognizerState::Earley(recognizer) => recognizer.recognizes(h),
        }
    }

    /// The language that is recognized.
    pub open spec fn generates(&self, w: Seq<u8>) -> bool {
        match self {
            RecognizerState::Dfa(recognizer) => recognizer.dfa.accepts(w),
            RecognizerState::Lalr(recognizer) => recognizer.compiled.grammar.generates(w),
            RecognizerState::Earley(recognizer) => recognizer.compiled.grammar.generates(w),
        }
    }

    /// Whether some string of the language goes on with `h`.
    pub open spec fn viable(&self, h: Seq<u8>) -> bool {
        exists|rest: Seq<u8>| #[trigger] self.generates(h + rest)
    }

    /// Whether the recognizer misses nothing of the language.
    pub open spec fn faithful(&self) -> bool {
        match self {
            RecognizerState::Dfa(_) => true,
            RecognizerState::Lalr(recognizer) => recognizer.faithful(),
            RecognizerState::Earley(recognizer) => true,
        }
    }

    /// Whether the input so far is accepted.
    pub open spec fn accepting(&self) -> bool {
        match self {
            RecognizerState::Dfa(recognizer) => recognizer.dfa.accepts_at(recognizer.state),
            RecognizerState::Lalr(recognizer) => recognizer.accepting(),
            RecognizerState::Earley(recognizer) => recognizer.accepting(),
        }
    }

    /// Whether the input so far is accepted or can be read on.
    pub open spec fn live(&self) -> bool {
        match self {
            RecognizerState::Dfa(recognizer) => recognizer.dfa.live_at(recognizer.state),
            RecognizerState::Lalr(recognizer) => recognizer.live(),
            RecognizerState::Earley(recognizer) => recognizer.live(),
        }
    }

    /// Whether the last byte was one that can be read on, or ended a text. Tables take no other.
    pub open spec fn going(&self) -> bool {
        match self {
            RecognizerState::Dfa(recognizer) => recognizer.dfa.live_at(recognizer.state),
            RecognizerState::Lalr(_) => true,
            RecognizerState::Earley(recognizer) => recognizer.live(),
        }
    }

    /// Whether every nonterminal of the grammar behind a parser has a derivation tree.
    pub open spec fn fertile(&self) -> bool {
        match self {
            RecognizerState::Dfa(_) => true,
            RecognizerState::Lalr(recognizer) => recognizer.compiled.grammar.fertile(),
            RecognizerState::Earley(recognizer) => recognizer.compiled.grammar.fertile(),
        }
    }

    /// Whether every terminal of the grammar behind a parser has a word.
    pub open spec fn worded(&self) -> bool {
        match self {
            RecognizerState::Dfa(_) => true,
            RecognizerState::Lalr(recognizer) => recognizer.compiled.grammar.worded(),
            RecognizerState::Earley(recognizer) => recognizer.compiled.grammar.worded(),
        }
    }

    /// Whether what the grammar behind a parser begins can be ended.
    pub open spec fn fruitful(&self) -> bool {
        self.fertile() && self.worded()
    }

    /// Whether limits can keep a recognizer from seeing that it is live.
    pub open spec fn hindered(&self) -> bool {
        self matches RecognizerState::Lalr(recognizer) && !recognizer.live()
    }

    /// Whether no limit keeps a recognizer from seeing whether it accepts, or is live.
    pub open spec fn unhindered(&self) -> bool {
        self matches RecognizerState::Lalr(recognizer) ==> recognizer.unhindered()
    }

    /// The number that tells a recognizer's checkpoints from those of others.
    pub open spec fn generation(&self) -> u64 {
        match self {
            RecognizerState::Dfa(recognizer) => recognizer.generation,
            RecognizerState::Lalr(recognizer) => recognizer.generation,
            RecognizerState::Earley(recognizer) => recognizer.generation,
        }
    }

    /// Whether a recognizer went on from another.
    pub open spec fn follows(&self, before: &Self) -> bool {
        match (self, before) {
            (RecognizerState::Dfa(now), RecognizerState::Dfa(then)) => now.dfa == then.dfa
                && now.limits == then.limits && now.generation == then.generation,
            (RecognizerState::Lalr(now), RecognizerState::Lalr(then)) => now.compiled
                == then.compiled && now.limits == then.limits && now.generation == then.generation,
            (RecognizerState::Earley(now), RecognizerState::Earley(then)) => now.extends(then),
            _ => false,
        }
    }

    /// Whether two recognizers are in the same state.
    pub open spec fn alike(&self, other: &Self) -> bool {
        match (self, other) {
            (RecognizerState::Dfa(a), RecognizerState::Dfa(b)) => a == b,
            (RecognizerState::Lalr(a), RecognizerState::Lalr(b)) => {
                &&& a.compiled == b.compiled
                &&& a.limits == b.limits
                &&& a.generation == b.generation
                &&& a.stack@ == b.stack@
                &&& lalr_recognizer::same_candidates(a.candidates@, b.candidates@)
                &&& a.byte_position == b.byte_position
                &&& a.stats == b.stats
            },
            (RecognizerState::Earley(a), RecognizerState::Earley(b)) => {
                &&& a.compiled == b.compiled
                &&& a.limits == b.limits
                &&& a.leo_enabled == b.leo_enabled
                &&& a.generation == b.generation
                &&& a.chart@ == b.chart@
                &&& a.active_scans@ == b.active_scans@
                &&& a.byte_position == b.byte_position
                &&& a.total_items == b.total_items
                &&& a.leo_items == b.leo_items
                &&& a.stats == b.stats
            },
            _ => false,
        }
    }

    /// What follows a state follows what that state follows.
    pub proof fn lemma_follows_join(&self, middle: &Self, before: &Self)
        requires
            self.follows(middle),
            middle.follows(before),
        ensures
            self.follows(before),
    {
        match (self, middle, before) {
            (
                RecognizerState::Earley(now),
                RecognizerState::Earley(then),
                RecognizerState::Earley(first),
            ) => {
                assert(now.chart@.take(first.chart@.len() as int) =~= now.chart@.take(
                    then.chart@.len() as int,
                ).take(first.chart@.len() as int));
            },
            _ => {},
        }
    }

    /// A state follows itself.
    pub proof fn lemma_follows_self(&self)
        ensures
            self.follows(self),
    {
        if let RecognizerState::Earley(now) = self {
            assert(now.chart@.take(now.chart@.len() as int) =~= now.chart@);
        }
    }

    /// A state like one that follows another follows that other too.
    pub proof fn lemma_alike_follows(&self, middle: &Self, before: &Self)
        requires
            self.alike(middle),
            middle.follows(before),
        ensures
            self.follows(before),
    {
    }

    /// A state like another follows it.
    pub proof fn lemma_alike_is_next(&self, other: &Self)
        requires
            self.alike(other),
        ensures
            self.follows(other),
    {
        other.lemma_follows_self();
        self.lemma_alike_follows(other, other);
    }

    /// What follows like states is the same.
    pub proof fn lemma_follows_alike(&self, middle: &Self, before: &Self)
        requires
            self.follows(middle),
            middle.alike(before),
        ensures
            self.follows(before),
    {
        middle.lemma_alike_is_next(before);
        self.lemma_follows_join(middle, before);
    }

    /// Being in the same state goes both ways.
    pub proof fn lemma_alike_turn(&self, other: &Self)
        requires
            self.alike(other),
        ensures
            other.alike(self),
    {
        if let (RecognizerState::Lalr(a), RecognizerState::Lalr(b)) = (self, other) {
            assert forall|x: int| 0 <= x < b.candidates@.len() implies lalr_recognizer::same_candidate(
                #[trigger] b.candidates@[x],
                a.candidates@[x],
            ) by {
                assert(lalr_recognizer::same_candidate(a.candidates@[x], b.candidates@[x]));
            }
        }
    }

    /// Being in the same state carries over.
    pub proof fn lemma_alike_join(&self, middle: &Self, other: &Self)
        requires
            self.alike(middle),
            middle.alike(other),
        ensures
            self.alike(other),
    {
        if let (RecognizerState::Lalr(a), RecognizerState::Lalr(b), RecognizerState::Lalr(c)) = (
            self,
            middle,
            other,
        ) {
            assert forall|x: int| 0 <= x < a.candidates@.len() implies lalr_recognizer::same_candidate(
                #[trigger] a.candidates@[x],
                c.candidates@[x],
            ) by {
                assert(lalr_recognizer::same_candidate(a.candidates@[x], b.candidates@[x]));
                assert(lalr_recognizer::same_candidate(b.candidates@[x], c.candidates@[x]));
            }
        }
    }

    /// A state is like itself.
    pub proof fn lemma_alike_self(&self)
        ensures
            self.alike(self),
    {
    }

    /// Recognizers in the same state recognize, accept and go on alike.
    pub proof fn lemma_alike(&self, other: &Self)
        requires
            self.alike(other),
            other.wf(),
        ensures
            self.wf(),
            forall|h: Seq<u8>| #[trigger] other.recognizes(h) <==> self.recognizes(h),
            forall|w: Seq<u8>| #[trigger] other.generates(w) <==> self.generates(w),
            self.accepting() == other.accepting(),
            self.live() == other.live(),
            self.faithful() == other.faithful(),
    {
        self.lemma_alike_turn(other);
        match (self, other) {
            (RecognizerState::Lalr(a), RecognizerState::Lalr(b)) => {
                assert forall|h: Seq<u8>| #[trigger] other.recognizes(h) <==> self.recognizes(h) by {
                    if b.recognizes(h) {
                        lalr_recognizer::lemma_same_state(b, a, h);
                    }
                    if a.recognizes(h) {
                        lalr_recognizer::lemma_same_state(a, b, h);
                    }
                }
                let h = choose|h: Seq<u8>| b.recognizes(h);
                assert(other.recognizes(h));
                assert(a.recognizes(h));
            },
            _ => {},
        }
    }
}

impl RecognizerCheckpoint {
    /// Whether the checkpoint is that of a recognizer's state.
    pub open spec fn captures(&self, recognizer: &RecognizerState) -> bool {
        match (self, recognizer) {
            (RecognizerCheckpoint::Dfa(checkpoint), RecognizerState::Dfa(state)) => checkpoint
                == (DfaCheckpoint {
                generation: state.generation,
                state: state.state,
                position: state.position,
            }),
            (
                RecognizerCheckpoint::Lalr(checkpoint),
                RecognizerState::Lalr(state),
            ) => checkpoint.captures(state),
            (
                RecognizerCheckpoint::Earley(checkpoint),
                RecognizerState::Earley(state),
            ) => checkpoint.captures(state),
            _ => false,
        }
    }

    /// Whether the checkpoint is of some state that a recognizer went on from.
    pub open spec fn fits(&self, recognizer: &RecognizerState) -> bool {
        exists|then: RecognizerState|
            #[trigger] self.captures(&then) && then.wf() && recognizer.follows(&then)
    }

    /// Whether the checkpoint is of another recognizer, or of columns that a chart does not have.
    pub open spec fn foreign(&self, recognizer: &RecognizerState) -> bool {
        match (self, recognizer) {
            (RecognizerCheckpoint::Dfa(checkpoint), RecognizerState::Dfa(state)) => {
                checkpoint.generation != state.generation
            },
            (RecognizerCheckpoint::Lalr(checkpoint), RecognizerState::Lalr(state)) => {
                checkpoint.generation != state.generation
            },
            (RecognizerCheckpoint::Earley(checkpoint), RecognizerState::Earley(state)) => {
                checkpoint.generation != state.generation || !(0 < checkpoint.column_count
                    <= state.chart@.len())
            },
            _ => true,
        }
    }

    /// The error on which a checkpoint of another recognizer, or of columns that are not there, is
    /// refused.
    pub open spec fn refused(&self, recognizer: &RecognizerState, error: RuntimeError) -> bool {
        match (self, recognizer) {
            (RecognizerCheckpoint::Dfa(checkpoint), RecognizerState::Dfa(state)) => error
                == (RuntimeError::InvalidCheckpoint {
                expected_generation: state.generation,
                found_generation: checkpoint.generation,
            }),
            (RecognizerCheckpoint::Lalr(checkpoint), RecognizerState::Lalr(state)) => error
                == (RuntimeError::InvalidCheckpoint {
                expected_generation: state.generation,
                found_generation: checkpoint.generation,
            }),
            (RecognizerCheckpoint::Earley(checkpoint), RecognizerState::Earley(state)) => error == (
            if checkpoint.generation != state.generation {
                RuntimeError::InvalidCheckpoint {
                    expected_generation: state.generation,
                    found_generation: checkpoint.generation,
                }
            } else {
                RuntimeError::InternalInvariant {
                    message: "Earley checkpoint column count is invalid",
                }
            }),
            _ => error == (RuntimeError::InternalInvariant {
                message: "checkpoint belongs to a different recognizer backend",
            }),
        }
    }

    /// Checkpoints of one state that were copied capture the same states.
    proof fn lemma_copied(a: LalrCheckpoint, b: LalrCheckpoint, state: &LalrRecognizer)
        requires
            b.generation == a.generation,
            b.stack@ == a.stack@,
            lalr_recognizer::same_candidates(b.candidates@, a.candidates@),
            b.byte_position == a.byte_position,
            b.stats == a.stats,
            a.captures(state),
        ensures
            b.captures(state),
    {
        assert forall|x: int| 0 <= x < b.candidates@.len() implies lalr_recognizer::same_candidate(
            #[trigger] b.candidates@[x],
            state.candidates@[x],
        ) by {
            assert(lalr_recognizer::same_candidate(a.candidates@[x], state.candidates@[x]));
        }
    }
}

impl Clone for RecognizerCheckpoint {
    fn clone(&self) -> (copy: Self)
        ensures
            forall|state: RecognizerState| #[trigger] self.captures(&state) ==> copy.captures(&state),
    {
        match self {
            RecognizerCheckpoint::Dfa(checkpoint) => RecognizerCheckpoint::Dfa(*checkpoint),
            RecognizerCheckpoint::Lalr(checkpoint) => {
                let copy = checkpoint.clone();
                proof {
                    assert forall|state: RecognizerState| #[trigger] self.captures(&state) implies
                        RecognizerCheckpoint::Lalr(copy).captures(&state) by {
                        if let RecognizerState::Lalr(state) = state {
                            RecognizerCheckpoint::lemma_copied(*checkpoint, copy, &state);
                        }
                    }
                }
                RecognizerCheckpoint::Lalr(copy)
            },
            RecognizerCheckpoint::Earley(checkpoint) => RecognizerCheckpoint::Earley(
                checkpoint.clone(),
            ),
        }
    }
}

/// The errors on which a recognizer refuses a byte.
pub open spec fn advance_error(state: RecognizerState, byte: u8, error: RuntimeError) -> bool {
    match state {
        RecognizerState::Dfa(recognizer) => recognizer.refuses(error),
        RecognizerState::Lalr(recognizer) => recognizer.advance_fails(error),
        RecognizerState::Earley(recognizer) => recognizer.refusal() == Some(error) || (
        recognizer.refusal() is None && exists|after: EarleyRecognizer| #[trigger]
            after.extends(&recognizer) && recognizer.next_refused(&after, byte, error)),
    }
}

/// Whether the byte behind the first `k` of those that are offered is refused with an error, in the
/// state after those.
pub open spec fn stopped(
    before: RecognizerState,
    bytes: Seq<u8>,
    k: int,
    state: RecognizerState,
    error: RuntimeError,
) -> bool {
    &&& 0 <= k < bytes.len()
    &&& state.wf()
    &&& state.follows(&before)
    &&& forall|h: Seq<u8>|
        before.recognizes(h) ==> state.recognizes(#[trigger] (h + bytes.take(k)))
    &&& advance_error(state, bytes[k], error)
}

/// Whether a byte of those that are offered is refused with an error.
pub open spec fn halts(before: RecognizerState, bytes: Seq<u8>, error: RuntimeError) -> bool {
    exists|k: int, state: RecognizerState| #[trigger] stopped(before, bytes, k, state, error)
}

/// What is promised of bytes that are offered together: they are read, or the recognizer is as it
/// was, because no text goes on with them or because one of them is refused with an error.
pub open spec fn reads_chunk(
    before: RecognizerState,
    after: RecognizerState,
    bytes: Seq<u8>,
    result: Result<Advance, RuntimeError>,
) -> bool {
    &&& after.wf()
    &&& after.follows(&before)
    &&& match result {
        Ok(Advance::Rejected) => {
            &&& bytes.len() > 0
            &&& after.alike(&before)
            &&& before.faithful() ==> forall|h: Seq<u8>|
                before.recognizes(h) ==> !before.viable(#[trigger] (h + bytes))
        },
        Ok(advance) => {
            &&& forall|h: Seq<u8>|
                before.recognizes(h) ==> after.recognizes(#[trigger] (h + bytes))
            &&& advance == Advance::Accepting <==> after.accepting()
            &&& bytes.len() > 0 ==> after.going()
        },
        Err(error) => {
            &&& after.alike(&before)
            &&& halts(before, bytes, error)
        },
    }
}

/// A byte that is refused behind others is refused among all.
pub proof fn lemma_halts_behind(
    before: RecognizerState,
    middle: RecognizerState,
    front: Seq<u8>,
    bytes: Seq<u8>,
    whole: Seq<u8>,
    error: RuntimeError,
)
    requires
        middle.follows(&before),
        forall|h: Seq<u8>|
            before.recognizes(h) ==> middle.recognizes(#[trigger] (h + front)),
        front.len() + bytes.len() <= whole.len(),
        whole.take((front.len() + bytes.len()) as int) == front + bytes,
        halts(middle, bytes, error),
    ensures
        halts(before, whole, error),
{
    let (k, state) = choose|k: int, state: RecognizerState| #[trigger]
        stopped(middle, bytes, k, state, error);
    state.lemma_follows_join(&middle, &before);
    let at = front.len() + k;
    assert(whole[at] == whole.take((front.len() + bytes.len()) as int)[at]);
    assert forall|h: Seq<u8>| before.recognizes(h) implies state.recognizes(
        #[trigger] (h + whole.take(at)),
    ) by {
        assert(middle.recognizes(h + front));
        assert((h + front) + bytes.take(k) =~= h + whole.take(at)) by {
            assert forall|x: int| 0 <= x < at implies whole.take(at)[x] == (front + bytes)[x] by {
                assert(whole.take((front.len() + bytes.len()) as int)[x] == whole[x]);
            }
        }
    }
    assert(stopped(before, whole, at, state, error));
}

impl RecognizerState {
    /// Whether the input so far is accepted.
    #[must_use]
    pub fn is_accepting(&self) -> (accepting: bool)
        requires
            self.wf(),
        ensures
            accepting == self.accepting(),
            forall|h: Seq<u8>| #[trigger]
                self.recognizes(h) && accepting ==> self.generates(h),
    {
        let accepting = match self {
            RecognizerState::Dfa(recognizer) => recognizer.dfa.is_accepting(recognizer.state),
            RecognizerState::Lalr(recognizer) => recognizer.is_accepting(),
            RecognizerState::Earley(recognizer) => recognizer.is_accepting(),
        };
        proof {
            assert forall|h: Seq<u8>| #[trigger] self.recognizes(h) && accepting implies self.generates(
                h,
            ) by {
                if let RecognizerState::Lalr(recognizer) = self {
                    lalr_recognizer::law_accepted_is_generated(recognizer, h);
                }
            }
        }
        accepting
    }

    /// Whether the input so far is accepted or can be read on.
    #[must_use]
    pub fn is_live(&self) -> (live: bool)
        requires
            self.wf(),
        ensures
            live == self.live(),
    {
        match self {
            RecognizerState::Dfa(recognizer) => {
                proof {
                    let h = choose|h: Seq<u8>| recognizer.recognizes(h);
                    assert(recognizer.dfa.wf());
                }
                recognizer.dfa.is_live(recognizer.state)
            },
            RecognizerState::Lalr(recognizer) => recognizer.is_live(),
            RecognizerState::Earley(recognizer) => recognizer.is_live(),
        }
    }

    /// The present state.
    #[must_use]
    pub fn checkpoint(&self) -> (checkpoint: RecognizerCheckpoint)
        ensures
            checkpoint.captures(self),
    {
        match self {
            RecognizerState::Dfa(recognizer) => RecognizerCheckpoint::Dfa(
                DfaCheckpoint {
                    generation: recognizer.generation,
                    state: recognizer.state,
                    position: recognizer.position,
                },
            ),
            RecognizerState::Lalr(recognizer) => RecognizerCheckpoint::Lalr(recognizer.checkpoint()),
            RecognizerState::Earley(recognizer) => RecognizerCheckpoint::Earley(
                recognizer.checkpoint(),
            ),
        }
    }

    /// A checkpoint of a state that is followed leads back to it.
    proof fn lemma_restored(
        now: &Self,
        after: &Self,
        checkpoint: &RecognizerCheckpoint,
        then: &Self,
    )
        requires
            checkpoint.captures(then),
            checkpoint.captures(after),
            now.follows(then),
            now.follows(after),
            then.wf(),
        ensures
            after.alike(then),
    {
        match (now, after, checkpoint, then) {
            (
                RecognizerState::Earley(a),
                RecognizerState::Earley(b),
                RecognizerCheckpoint::Earley(c),
                RecognizerState::Earley(d),
            ) => {
                assert(b.chart@ =~= d.chart@);
            },
            (
                RecognizerState::Lalr(a),
                RecognizerState::Lalr(b),
                RecognizerCheckpoint::Lalr(c),
                RecognizerState::Lalr(d),
            ) => {
                assert forall|x: int| 0 <= x < b.candidates@.len() implies
                    lalr_recognizer::same_candidate(#[trigger] b.candidates@[x], d.candidates@[x]) by {
                    assert(lalr_recognizer::same_candidate(c.candidates@[x], b.candidates@[x]));
                    assert(lalr_recognizer::same_candidate(c.candidates@[x], d.candidates@[x]));
                }
            },
            _ => {},
        }
    }

    /// Goes back to an earlier state. Checkpoints of other recognizers are refused.
    pub fn restore(&mut self, checkpoint: &RecognizerCheckpoint) -> (result: Result<(), RuntimeError>)
        requires
            old(self).wf(),
            checkpoint.fits(old(self)) || checkpoint.foreign(old(self)),
        ensures
            final(self).wf(),
            checkpoint.foreign(old(self)) ==> result is Err && *final(self) == *old(self),
            checkpoint.foreign(old(self)) ==> (result matches Err(error) ==> checkpoint.refused(
                old(self),
                error,
            )),
            !checkpoint.foreign(old(self)) ==> result is Ok,
            forall|then: RecognizerState|
                #[trigger] checkpoint.captures(&then) && then.wf() && old(self).follows(&then)
                    ==> final(self).alike(&then),
    {
        let ghost now = *self;
        let ghost then = choose|then: RecognizerState|
            #[trigger] checkpoint.captures(&then) && then.wf() && now.follows(&then);
        let result = match self {
            RecognizerState::Dfa(recognizer) => match checkpoint {
                RecognizerCheckpoint::Dfa(saved) => {
                    if saved.generation != recognizer.generation {
                        Err(
                            RuntimeError::InvalidCheckpoint {
                                expected_generation: recognizer.generation,
                                found_generation: saved.generation,
                            },
                        )
                    } else {
                        recognizer.state = saved.state;
                        recognizer.position = saved.position;
                        Ok(())
                    }
                },
                _ => Err(other_backend()),
            },
            RecognizerState::Lalr(recognizer) => match checkpoint {
                RecognizerCheckpoint::Lalr(saved) => {
                    proof {
                        if saved.generation == recognizer.generation {
                            if let RecognizerState::Lalr(then) = then {
                                assert(then.wf());
                                assert(saved.fits(recognizer));
                            }
                        }
                    }
                    recognizer.restore(saved)
                },
                _ => Err(other_backend()),
            },
            RecognizerState::Earley(recognizer) => match checkpoint {
                RecognizerCheckpoint::Earley(saved) => {
                    proof {
                        if !checkpoint.foreign(&now) {
                            if let RecognizerState::Earley(then) = then {
                                assert(then.wf());
                                assert(saved.fits(recognizer));
                            }
                        }
                    }
                    recognizer.restore(saved)
                },
                _ => Err(other_backend()),
            },
        };
        proof {
            if !checkpoint.foreign(&now) {
                let after = *self;
                match (after, now, then) {
                    (RecognizerState::Dfa(a), RecognizerState::Dfa(b), RecognizerState::Dfa(c)) => {
                        let h = choose|h: Seq<u8>| c.recognizes(h);
                        assert(a.recognizes(h));
                    },
                    _ => {},
                }
                assert forall|then: RecognizerState| #[trigger]
                    checkpoint.captures(&then) && then.wf() && now.follows(&then) implies self.alike(
                    &then,
                ) by {
                    RecognizerState::lemma_restored(&now, &*self, checkpoint, &then);
                }
            }
        }
        result
    }

    /// Reads a byte, and says whether the input so far is recognized or can still become so.
    fn advance_byte(&mut self, byte: u8) -> (result: Result<bool, RuntimeError>)
        requires
            old(self).wf(),
        ensures
            final(self).wf(),
            final(self).follows(old(self)),
            match result {
                Ok(true) => final(self).going() && forall|h: Seq<u8>| #[trigger]
                    old(self).recognizes(h) ==> final(self).recognizes(h.push(byte)),
                Ok(false) => old(self).faithful() ==> forall|h: Seq<u8>|
                    old(self).recognizes(h) ==> !old(self).viable(#[trigger] h.push(byte)),
                Err(error) => advance_error(*old(self), byte, error),
            },
    {
        let ghost before = *self;
        let result = match self {
            RecognizerState::Dfa(recognizer) => recognizer.advance_byte(byte),
            RecognizerState::Lalr(recognizer) => recognizer.advance_byte(byte),
            RecognizerState::Earley(recognizer) => recognizer.advance_byte(byte),
        };
        proof {
            if result == Ok::<bool, RuntimeError>(false) && before.faithful() {
                assert forall|h: Seq<u8>| before.recognizes(h) implies !before.viable(
                    #[trigger] h.push(byte),
                ) by {
                    if before.viable(h.push(byte)) {
                        let rest = choose|rest: Seq<u8>| #[trigger]
                            before.generates(h.push(byte) + rest);
                        let after = *self;
                        match (before, after) {
                            (RecognizerState::Dfa(a), _) => {
                                assert(a.recognizes(h));
                                assert(!a.dfa.accepts(h.push(byte) + rest));
                            },
                            (RecognizerState::Lalr(a), _) => {
                                assert(a.recognizes(h));
                                assert(!a.compiled.grammar.generates(h.push(byte) + rest));
                            },
                            (RecognizerState::Earley(a), RecognizerState::Earley(b)) => {
                                assert(a.recognizes(h));
                                assert(b.recognizes(h.push(byte)));
                                earley::law_viable_is_live(&b, h.push(byte), rest);
                            },
                            _ => {},
                        }
                    }
                }
            }
        }
        result
    }

    /// Reads bytes all together or not at all.
    pub fn try_advance_bytes(&mut self, bytes: &[u8]) -> (result: Result<Advance, RuntimeError>)
        requires
            old(self).wf(),
        ensures
            reads_chunk(*old(self), *final(self), bytes@, result),
    {
        let checkpoint = self.checkpoint();
        let ghost before = *self;
        proof {
            self.lemma_follows_self();
            assert forall|h: Seq<u8>| before.recognizes(h) implies self.recognizes(
                #[trigger] (h + bytes@.take(0)),
            ) by {
                assert(h + bytes@.take(0) =~= h);
            }
        }
        let mut index: usize = 0;
        while index < bytes.len()
            invariant
                index <= bytes@.len(),
                before == *old(self),
                before.wf(),
                checkpoint.captures(&before),
                self.wf(),
                self.follows(&before),
                index > 0 ==> self.going(),
                forall|h: Seq<u8>|
                    before.recognizes(h) ==> self.recognizes(
                        #[trigger] (h + bytes@.take(index as int)),
                    ),
            decreases bytes@.len() - index,
        {
            let ghost middle = *self;
            let advanced = self.advance_byte(bytes[index]);
            proof {
                self.lemma_follows_join(&middle, &before);
            }
            match advanced {
                Ok(true) => {},
                Ok(false) => {
                    proof {
                        if before.faithful() {
                            assert forall|h: Seq<u8>| before.recognizes(h) implies !before.viable(
                                #[trigger] (h + bytes@),
                            ) by {
                                if before.viable(h + bytes@) {
                                    let rest = choose|rest: Seq<u8>| #[trigger]
                                        before.generates((h + bytes@) + rest);
                                    let read = h + bytes@.take(index as int);
                                    let more = bytes@.skip(index + 1) + rest;
                                    assert(middle.recognizes(read));
                                    assert(read.push(bytes@[index as int]) + more =~= (h + bytes@)
                                        + rest);
                                    assert(middle.generates(read.push(bytes@[index as int]) + more));
                                    assert(middle.viable(read.push(bytes@[index as int])));
                                }
                            }
                        }
                    }
                    let ghost moved = *self;
                    match self.restore(&checkpoint) {
                        Ok(()) => {},
                        Err(error) => {
                            assert(!checkpoint.foreign(&moved));
                            return Err(error);
                        },
                    }
                    proof {
                        self.lemma_alike_is_next(&before);
                    }
                    return Ok(Advance::Rejected);
                },
                Err(error) => {
                    assert(advance_error(middle, bytes@[index as int], error));
                    assert(stopped(before, bytes@, index as int, middle, error));
                    let ghost moved = *self;
                    match self.restore(&checkpoint) {
                        Ok(()) => {},
                        Err(error) => {
                            assert(!checkpoint.foreign(&moved));
                            return Err(error);
                        },
                    }
                    proof {
                        self.lemma_alike_is_next(&before);
                    }
                    return Err(error);
                },
            }
            proof {
                assert forall|h: Seq<u8>| before.recognizes(h) implies self.recognizes(
                    #[trigger] (h + bytes@.take(index + 1)),
                ) by {
                    let read = h + bytes@.take(index as int);
                    assert(middle.recognizes(read));
                    assert(read.push(bytes@[index as int]) =~= h + bytes@.take(index + 1));
                }
            }
            index += 1;
        }
        assert(bytes@.take(index as int) =~= bytes@);
        if self.is_accepting() {
            Ok(Advance::Accepting)
        } else {
            Ok(Advance::Live)
        }
    }

    /// What the recognizer has counted.
    #[must_use]
    pub fn stats(&self) -> (stats: RecognizerStats)
        ensures
            stats == (match self {
                RecognizerState::Dfa(recognizer) => RecognizerStats::Dfa {
                    bytes: recognizer.position as u64,
                },
                RecognizerState::Lalr(recognizer) => RecognizerStats::Lalr(recognizer.stats),
                RecognizerState::Earley(recognizer) => RecognizerStats::Earley(recognizer.stats),
            }),
    {
        match self {
            RecognizerState::Dfa(recognizer) => RecognizerStats::Dfa {
                bytes: recognizer.position as u64,
            },
            RecognizerState::Lalr(recognizer) => RecognizerStats::Lalr(*recognizer.stats()),
            RecognizerState::Earley(recognizer) => RecognizerStats::Earley(*recognizer.stats()),
        }
    }
}

/// What reads bytes and can go back.
pub trait Recognizer: Sized {
    type Checkpoint: Clone;

    /// What holds of every recognizer.
    spec fn sound(&self) -> bool;

    /// Whether the input so far is `h`.
    spec fn has_read(&self, h: Seq<u8>) -> bool;

    /// The language that is recognized.
    spec fn admits(&self, w: Seq<u8>) -> bool;

    /// Whether nothing of the language is missed.
    spec fn misses_nothing(&self) -> bool;

    /// Whether the input so far is accepted.
    spec fn at_end(&self) -> bool;

    /// Whether the input so far is accepted or can be read on.
    spec fn goes_on(&self) -> bool;

    /// What was counted.
    spec fn counted(&self) -> RecognizerStats;

    /// Whether this went on from another.
    spec fn came_from(&self, before: &Self) -> bool;

    /// Whether this is in the same state as another.
    spec fn resembles(&self, other: &Self) -> bool;

    /// Whether a checkpoint is that of a state.
    spec fn saves(checkpoint: &Self::Checkpoint, state: &Self) -> bool;

    /// Whether a checkpoint is of another recognizer.
    spec fn is_alien(checkpoint: &Self::Checkpoint, state: &Self) -> bool;

    /// Reads bytes all together or not at all.
    fn try_advance_bytes(&mut self, bytes: &[u8]) -> (result: Result<Advance, RuntimeError>)
        requires
            old(self).sound(),
        ensures
            final(self).sound(),
            final(self).came_from(old(self)),
            match result {
                Ok(Advance::Rejected) => {
                    &&& final(self).resembles(old(self))
                    &&& old(self).misses_nothing() ==> forall|h: Seq<u8>, rest: Seq<u8>|
                        old(self).has_read(h) ==> !#[trigger] old(self).admits(h + bytes@ + rest)
                },
                Ok(advance) => {
                    &&& forall|h: Seq<u8>|
                        old(self).has_read(h) ==> final(self).has_read(#[trigger] (h + bytes@))
                    &&& advance == Advance::Accepting <==> final(self).at_end()
                },
                Err(_) => final(self).resembles(old(self)),
            },
    ;

    /// Whether the input so far is accepted.
    fn is_accepting(&self) -> (accepting: bool)
        requires
            self.sound(),
        ensures
            accepting == self.at_end(),
            forall|h: Seq<u8>| #[trigger] self.has_read(h) && accepting ==> self.admits(h),
    ;

    /// Whether the input so far is accepted or can be read on.
    fn is_live(&self) -> (live: bool)
        requires
            self.sound(),
        ensures
            live == self.goes_on(),
    ;

    /// The present state.
    fn checkpoint(&self) -> (checkpoint: Self::Checkpoint)
        ensures
            Self::saves(&checkpoint, self),
    ;

    /// Goes back to an earlier state. Checkpoints of other recognizers are refused.
    fn restore(&mut self, checkpoint: &Self::Checkpoint) -> (result: Result<(), RuntimeError>)
        requires
            old(self).sound(),
            Self::is_alien(checkpoint, old(self)) || exists|then: Self|
                #[trigger] Self::saves(checkpoint, &then) && then.sound() && old(self).came_from(
                    &then,
                ),
        ensures
            final(self).sound(),
            result is Err <==> Self::is_alien(checkpoint, old(self)),
            result is Err ==> *final(self) == *old(self),
            forall|then: Self|
                #[trigger] Self::saves(checkpoint, &then) && then.sound() && old(self).came_from(
                    &then,
                ) ==> final(self).resembles(&then),
    ;

    /// What the recognizer has counted.
    fn stats(&self) -> (stats: RecognizerStats)
        ensures
            stats == self.counted(),
    ;
}

impl Recognizer for RecognizerState {
    type Checkpoint = RecognizerCheckpoint;

    open spec fn sound(&self) -> bool {
        self.wf()
    }

    open spec fn has_read(&self, h: Seq<u8>) -> bool {
        self.recognizes(h)
    }

    open spec fn admits(&self, w: Seq<u8>) -> bool {
        self.generates(w)
    }

    open spec fn misses_nothing(&self) -> bool {
        self.faithful()
    }

    open spec fn at_end(&self) -> bool {
        self.accepting()
    }

    open spec fn goes_on(&self) -> bool {
        self.live()
    }

    open spec fn counted(&self) -> RecognizerStats {
        match self {
            RecognizerState::Dfa(recognizer) => RecognizerStats::Dfa {
                bytes: recognizer.position as u64,
            },
            RecognizerState::Lalr(recognizer) => RecognizerStats::Lalr(recognizer.stats),
            RecognizerState::Earley(recognizer) => RecognizerStats::Earley(recognizer.stats),
        }
    }

    open spec fn came_from(&self, before: &Self) -> bool {
        self.follows(before)
    }

    open spec fn resembles(&self, other: &Self) -> bool {
        self.alike(other)
    }

    open spec fn saves(checkpoint: &RecognizerCheckpoint, state: &Self) -> bool {
        checkpoint.captures(state)
    }

    open spec fn is_alien(checkpoint: &RecognizerCheckpoint, state: &Self) -> bool {
        checkpoint.foreign(state)
    }

    fn try_advance_bytes(&mut self, bytes: &[u8]) -> (result: Result<Advance, RuntimeError>) {
        let ghost before = *self;
        let result = RecognizerState::try_advance_bytes(self, bytes);
        proof {
            if result matches Ok(Advance::Rejected) && before.faithful() {
                assert forall|h: Seq<u8>, rest: Seq<u8>| before.has_read(h) implies !#[trigger] before.admits(
                    h + bytes@ + rest,
                ) by {
                    assert(before.recognizes(h));
                    assert(!before.viable(h + bytes@));
                    assert(before.generates(h + bytes@ + rest) ==> before.viable(h + bytes@));
                }
            }
        }
        result
    }

    fn is_accepting(&self) -> (accepting: bool) {
        RecognizerState::is_accepting(self)
    }

    fn is_live(&self) -> (live: bool) {
        RecognizerState::is_live(self)
    }

    fn checkpoint(&self) -> (checkpoint: RecognizerCheckpoint) {
        RecognizerState::checkpoint(self)
    }

    fn restore(&mut self, checkpoint: &RecognizerCheckpoint) -> (result: Result<(), RuntimeError>) {
        proof {
            if !checkpoint.foreign(self) {
                let then = choose|then: Self|
                    #[trigger] Self::saves(checkpoint, &then) && then.sound() && self.came_from(
                        &then,
                    );
                assert(checkpoint.captures(&then));
            }
        }
        let ghost before = *self;
        let result = RecognizerState::restore(self, checkpoint);
        proof {
            assert forall|then: Self|
                #[trigger] Self::saves(checkpoint, &then) && then.sound() && before.came_from(
                    &then,
                ) implies self.resembles(&then) by {
                assert(checkpoint.captures(&then));
            }
        }
        result
    }

    fn stats(&self) -> (stats: RecognizerStats) {
        RecognizerState::stats(self)
    }
}

/// The error for a checkpoint of another kind of recognizer.
fn other_backend() -> (error: RuntimeError)
    ensures
        error == (RuntimeError::InternalInvariant {
            message: "checkpoint belongs to a different recognizer backend",
        }),
{
    RuntimeError::InternalInvariant {
        message: "checkpoint belongs to a different recognizer backend",
    }
}

/// What a recognizer has read on begins some text of its language. Where nothing was read yet, there
/// has to be one.
pub proof fn law_going_is_viable(state: &RecognizerState, h: Seq<u8>)
    requires
        state.wf(),
        state.recognizes(h),
        state.going(),
        state.fruitful(),
        h.len() > 0 || exists|w: Seq<u8>| #[trigger] state.generates(w),
    ensures
        state.viable(h),
{
    match state {
        RecognizerState::Dfa(recognizer) => {
            let dfa = recognizer.dfa;
            let rest = choose|rest: Seq<u8>| dfa.accepts_at(#[trigger] dfa.run(recognizer.state, rest));
            dfa.lemma_run_concat(0, h, rest);
            assert(state.generates(h + rest));
        },
        RecognizerState::Lalr(recognizer) => {
            let grammar = recognizer.compiled.grammar;
            assert(grammar.productions@.len() > 0 || h.len() > 0) by {
                if h.len() == 0 {
                    let w = choose|w: Seq<u8>| #[trigger] state.generates(w);
                    if grammar.productions@.len() == 0 {
                        assert(grammar.rules().len() == 0);
                    }
                }
            }
            let rest = viability::law_tables_read_viable(recognizer, h);
            assert(state.generates(h + rest));
        },
        RecognizerState::Earley(recognizer) => {
            let rest = viability::law_chart_live_is_viable(recognizer, h);
            assert(state.generates(h + rest));
        },
    }
}

/// Every state of a run of calls follows the first.
proof fn lemma_run_follows(states: Seq<RecognizerState>, k: int)
    requires
        is_run(states),
        0 <= k < states.len(),
    ensures
        states[k].follows(&states[0]),
    decreases k,
{
    if k == 0 {
        if let RecognizerState::Earley(first) = states[0] {
            assert(first.chart@.take(first.chart@.len() as int) =~= first.chart@);
        }
    } else if states[k].follows(&states[k - 1]) {
        lemma_run_follows(states, k - 1);
        states[k].lemma_follows_join(&states[k - 1], &states[0]);
    } else {
        let j = choose|j: int| 0 <= j < k && #[trigger] states[k].alike(&states[j]);
        lemma_run_follows(states, j);
    }
}

/// Whether each of the states of a recognizer but the first went on from the one before, or went
/// back to an earlier one.
pub open spec fn is_run(states: Seq<RecognizerState>) -> bool {
    &&& states.len() > 0
    &&& forall|k: int|
        #![trigger states[k]]
        0 < k < states.len() ==> states[k].follows(&states[k - 1]) || exists|j: int|
            0 <= j < k && #[trigger] states[k].alike(&states[j])
}

/// A checkpoint is good for as long as its recognizer does not go back behind it: after any run of
/// calls that go on, or go back to a state since then, it fits, and what it leads back to is the
/// state in which it was taken.
pub proof fn law_checkpoint_outlives_runs(
    states: Seq<RecognizerState>,
    checkpoint: RecognizerCheckpoint,
    after: RecognizerState,
)
    requires
        is_run(states),
        states[0].wf(),
        checkpoint.captures(&states[0]),
    ensures
        checkpoint.fits(&states.last()),
        !checkpoint.foreign(&states.last()),
        checkpoint.captures(&after) && states.last().follows(&after) ==> after.alike(&states[0]),
{
    let last = states.last();
    let first = states[0];
    lemma_run_follows(states, states.len() - 1);
    assert(checkpoint.captures(&first) && first.wf() && last.follows(&first));
    if checkpoint.captures(&after) && last.follows(&after) {
        RecognizerState::lemma_restored(&last, &after, &checkpoint, &first);
    }
}

/// A checkpoint fits no recognizer of another generation or another kind: it is foreign to it.
pub proof fn law_checkpoint_fits_no_other(
    owner: RecognizerState,
    checkpoint: RecognizerCheckpoint,
    other: RecognizerState,
)
    requires
        checkpoint.captures(&owner),
        owner.generation() != other.generation() || match (owner, other) {
            (RecognizerState::Dfa(_), RecognizerState::Dfa(_)) => false,
            (RecognizerState::Lalr(_), RecognizerState::Lalr(_)) => false,
            (RecognizerState::Earley(_), RecognizerState::Earley(_)) => false,
            _ => true,
        },
    ensures
        checkpoint.foreign(&other),
        !checkpoint.fits(&other),
{
}

} // verus!
