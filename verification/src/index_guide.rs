//! Guides that walk an index and remember a bounded number of states.

use std::collections::VecDeque;
use std::sync::Arc;

use vstd::prelude::*;

use crate::index::Index;
use crate::mask;
use crate::text;

verus! {

/// A guide over an index: where it stands, and where it stood.
#[derive(Debug)]
pub struct IndexGuide {
    pub state: u32,
    pub index: Arc<Index>,
    pub history: VecDeque<u32>,
    pub max_rollback: usize,
}

/// The state to which a token leads in an index.
pub open spec fn step(index: &Index, state: u32, token: u32) -> Option<u32> {
    if token != index.eos_token_id && index.transitions@.dom().contains(state)
        && index.transitions@[state]@.dom().contains(token) {
        Some(index.transitions@[state]@[token])
    } else {
        None
    }
}

/// The state to which tokens lead in an index.
pub open spec fn steps(index: &Index, state: u32, tokens: Seq<u32>) -> Option<u32>
    decreases tokens.len(),
{
    if tokens.len() == 0 {
        Some(state)
    } else {
        match steps(index, state, tokens.drop_last()) {
            Some(middle) => step(index, middle, tokens.last()),
            None => None,
        }
    }
}

/// Where no token leads on, no more tokens do.
proof fn lemma_stuck(index: &Index, state: u32, tokens: Seq<u32>, n: int)
    requires
        0 <= n <= tokens.len(),
        steps(index, state, tokens.take(n)) is None,
    ensures
        steps(index, state, tokens) is None,
    decreases tokens.len() - n,
{
    if n == tokens.len() {
        assert(tokens.take(n) =~= tokens);
    } else {
        assert(tokens.take(n + 1).drop_last() =~= tokens.take(n));
        lemma_stuck(index, state, tokens, n + 1);
    }
}

/// The last states of a history.
pub open spec fn latest(states: Seq<u32>, count: nat) -> Seq<u32> {
    if states.len() > count {
        states.skip(states.len() - count)
    } else {
        states
    }
}

/// Whether a state allows a token.
pub open spec fn allows(index: &Index, state: u32, token: u32) -> bool {
    index.transitions@.dom().contains(state) && index.transitions@[state]@.dom().contains(token)
}

impl IndexGuide {
    /// What holds of every guide.
    pub open spec fn wf(&self) -> bool {
        self.history@.len() <= self.max_rollback
    }

    /// A guide in the state that sequences start in.
    pub fn new(index: Arc<Index>, max_rollback: usize) -> (guide: Self)
        ensures
            guide.wf(),
            guide.state == index.initial_state,
            guide.index == index,
            guide.max_rollback == max_rollback,
            guide.history@.len() == 0,
    {
        IndexGuide {
            state: index.initial_state(),
            index,
            history: VecDeque::new(),
            max_rollback,
        }
    }

    /// The present state.
    pub fn get_state(&self) -> (state: u32)
        ensures
            state == self.state,
    {
        self.state
    }

    /// The tokens that the present state allows, or a message if the index does not know it.
    pub fn get_tokens(&self) -> (result: Result<Vec<u32>, String>)
        ensures
            result is Ok <==> self.index.transitions@.dom().contains(self.state),
            result matches Ok(tokens) ==> tokens@.no_duplicates() && forall|id: u32|
                tokens@.contains(id) <==> #[trigger] allows(&*self.index, self.state, id),
            result matches Err(message) ==> message@
                == "No allowed tokens available for the state "@ + text::digits(self.state as nat),
    {
        match self.index.allowed_tokens(&self.state) {
            Some(tokens) => {
                assert forall|id: u32|
                    tokens@.contains(id) <==> #[trigger] allows(&*self.index, self.state, id) by {
                    let known = self.index.transitions@[self.state]@.dom().contains(id);
                }
                Ok(tokens)
            },
            None => {
                let mut message = "No allowed tokens available for the state ".to_owned();
                message.append(text::decimal(self.state as usize).as_str());
                Err(message)
            },
        }
    }

    /// How many tokens can be taken back.
    pub fn get_allowed_rollback(&self) -> (count: usize)
        ensures
            count == self.history@.len(),
    {
        self.history.len()
    }

    /// Goes on by a token, or stays with a message. The oldest states are forgotten.
    pub fn advance(&mut self, token_id: u32) -> (result: Result<(), String>)
        requires
            old(self).wf(),
        ensures
            final(self).wf(),
            final(self).index == old(self).index,
            final(self).max_rollback == old(self).max_rollback,
            match step(&*old(self).index, old(self).state, token_id) {
                Some(next) => {
                    &&& result is Ok
                    &&& final(self).state == next
                    &&& final(self).history@ == latest(
                        old(self).history@.push(old(self).state),
                        old(self).max_rollback as nat,
                    )
                },
                None => {
                    &&& *final(self) == *old(self)
                    &&& result matches Err(message)
                    &&& message@ == "No next state found for the current state: "@ + text::digits(
                        old(self).state as nat,
                    ) + " with token ID: "@ + text::digits(token_id as nat)
                },
            },
    {
        match self.index.next_state(&self.state, &token_id) {
            Some(next) => {
                if self.max_rollback > 0 {
                    if self.history.len() == self.max_rollback {
                        let _oldest = self.history.pop_front();
                    }
                    self.history.push_back(self.state);
                }
                assert(self.history@ =~= latest(
                    old(self).history@.push(old(self).state),
                    old(self).max_rollback as nat,
                ));
                self.state = next;
                Ok(())
            },
            None => {
                let mut message = "No next state found for the current state: ".to_owned();
                message.append(text::decimal(self.state as usize).as_str());
                message.append(" with token ID: ");
                message.append(text::decimal(token_id as usize).as_str());
                Err(message)
            },
        }
    }

    /// Takes back the last `n` tokens, if that many states are remembered.
    pub fn rollback_state(&mut self, n: usize) -> (result: Result<(), String>)
        requires
            old(self).wf(),
        ensures
            final(self).wf(),
            final(self).index == old(self).index,
            final(self).max_rollback == old(self).max_rollback,
            result is Ok <==> n <= old(self).history@.len(),
            result is Err ==> *final(self) == *old(self),
            result is Ok ==> final(self).history@ == old(self).history@.take(
                old(self).history@.len() - n,
            ),
            result is Ok ==> final(self).state == (if n == 0 {
                old(self).state
            } else {
                old(self).history@[old(self).history@.len() - n]
            }),
            result matches Err(message) ==> message@ == shortage(
                n,
                old(self).history@.len(),
                old(self).max_rollback,
            ),
    {
        let available: usize = self.history.len();
        if n > available {
            return Err(shortage_message(n, available, self.max_rollback));
        }
        let mut taken: usize = 0;
        assert(self.history@.take(available as int) =~= self.history@);
        while taken < n
            invariant
                taken <= n <= available == old(self).history@.len(),
                self.history@ == old(self).history@.take(available - taken),
                self.index == old(self).index,
                self.max_rollback == old(self).max_rollback,
                old(self).wf(),
                self.state == (if taken == 0 {
                    old(self).state
                } else {
                    old(self).history@[available - taken]
                }),
            decreases n - taken,
        {
            let ghost before = self.history@;
            if let Some(state) = self.history.pop_back() {
                assert(state == before.last());
                self.state = state;
            }
            assert(self.history@ =~= old(self).history@.take(available - taken - 1));
            taken += 1;
        }
        Ok(())
    }

    /// Whether every token of a sequence leads on.
    pub fn accepts_tokens(&self, sequence: &[u32]) -> (accepted: bool)
        ensures
            accepted == steps(&*self.index, self.state, sequence@) is Some,
    {
        let mut state: u32 = self.state;
        let mut position: usize = 0;
        assert(sequence@.take(0) =~= Seq::<u32>::empty());
        while position < sequence.len()
            invariant
                position <= sequence@.len(),
                steps(&*self.index, self.state, sequence@.take(position as int)) == Some(state),
            decreases sequence@.len() - position,
        {
            assert(sequence@.take(position + 1).drop_last() =~= sequence@.take(position as int));
            match self.index.next_state(&state, &sequence[position]) {
                Some(next) => {
                    state = next;
                },
                None => {
                    proof {
                        lemma_stuck(&*self.index, self.state, sequence@, position + 1);
                    }
                    return false;
                },
            }
            position += 1;
        }
        assert(sequence@.take(position as int) =~= sequence@);
        true
    }

    /// Whether a sequence may end here.
    pub fn is_finished(&self) -> (finished: bool)
        ensures
            finished == self.index.final_states@.contains(self.state as u64),
    {
        self.index.is_final_state(&self.state)
    }

    /// Goes back to the start and forgets what was before.
    pub fn reset(&mut self)
        ensures
            final(self).wf(),
            final(self).index == old(self).index,
            final(self).max_rollback == old(self).max_rollback,
            final(self).state == old(self).index.initial_state,
            final(self).history@.len() == 0,
    {
        self.state = self.index.initial_state();
        self.history = VecDeque::new();
    }

    /// The mask of the tokens that the present state allows, in words of 32 bits.
    pub fn write_mask(&self, words: usize) -> (words_out: Vec<u32>)
        ensures
            words_out@.len() == words,
            forall|id: u32| #[trigger]
                mask::bit(words_out@, id) <==> id / 32 < words && allows(
                    &*self.index,
                    self.state,
                    id,
                ),
    {
        let mut out: Vec<u32> = Vec::new();
        while out.len() < words
            invariant
                out@.len() <= words,
                forall|i: int| 0 <= i < out@.len() ==> #[trigger] out@[i] == 0,
            decreases words - out@.len(),
        {
            out.push(0);
        }
        assert forall|id: u32| !#[trigger] mask::bit(out@, id) by {
            mask::lemma_zero(id % 32);
        }
        let tokens = match self.index.allowed_tokens(&self.state) {
            Some(tokens) => tokens,
            None => {
                return out;
            },
        };
        let mut position: usize = 0;
        while position < tokens.len()
            invariant
                out@.len() == words,
                position <= tokens@.len(),
                forall|id: u32| #[trigger]
                    mask::bit(out@, id) <==> id / 32 < words && exists|i: int|
                        0 <= i < position && #[trigger] tokens@[i] == id,
            decreases tokens@.len() - position,
        {
            let ghost before = out@;
            let token: u32 = tokens[position];
            let result = mask::set_mask_bit(&mut out, token);
            proof {
                assert forall|id: u32| #[trigger]
                    mask::bit(out@, id) <==> id / 32 < words && exists|i: int|
                        0 <= i < position + 1 && #[trigger] tokens@[i] == id by {
                    let set = mask::bit(before, id);
                    if id / 32 < words && id == token {
                        assert(tokens@[position as int] == id);
                    }
                    if set {
                        let i = choose|i: int| 0 <= i < position && #[trigger] tokens@[i] == id;
                        assert(tokens@[i] == id);
                    }
                }
            }
            position += 1;
        }
        proof {
            assert forall|id: u32| #[trigger]
                mask::bit(out@, id) <==> id / 32 < words && allows(&*self.index, self.state, id) by {
                let known = self.index.transitions@[self.state]@.dom().contains(id);
                if tokens@.contains(id) {
                    let i = choose|i: int| 0 <= i < tokens@.len() && tokens@[i] == id;
                    assert(tokens@[i] == id);
                }
            }
        }
        out
    }
}

/// What is said where too few states are remembered.
pub open spec fn shortage(n: usize, available: nat, most: usize) -> Seq<char> {
    "Cannot roll back "@ + text::digits(n as nat) + " step(s): only "@ + text::digits(available)
        + " states stored (max_rollback = "@ + text::digits(most as nat)
        + "). You must advance through at least "@ + text::digits(n as nat)
        + " state(s) before rolling back "@ + text::digits(n as nat) + " step(s)."@
}

/// What is said where too few states are remembered.
fn shortage_message(n: usize, available: usize, most: usize) -> (message: String)
    ensures
        message@ == shortage(n, available as nat, most),
{
    let mut message = "Cannot roll back ".to_owned();
    message.append(text::decimal(n).as_str());
    message.append(" step(s): only ");
    message.append(text::decimal(available).as_str());
    message.append(" states stored (max_rollback = ");
    message.append(text::decimal(most).as_str());
    message.append("). You must advance through at least ");
    message.append(text::decimal(n).as_str());
    message.append(" state(s) before rolling back ");
    message.append(text::decimal(n).as_str());
    message.append(" step(s).");
    message
}

/// The number of words of a mask.
pub open spec fn words_for(vocab_size: usize) -> int {
    (vocab_size + 31) / 32
}

/// Why a buffer cannot hold a mask, if it cannot.
pub open spec fn buffer_fault(
    address: usize,
    elements: usize,
    element_size: usize,
    vocab_size: usize,
) -> Option<Seq<char>> {
    if element_size != 4 {
        Some(
            "Invalid element size: got "@ + text::digits(element_size as nat)
                + " bytes per element, expected 4 bytes (32-bit integer)."@,
        )
    } else if address == 0 {
        Some("Invalid data pointer: received a null pointer."@)
    } else if address % 4 != 0 {
        Some(
            "Invalid data pointer alignment: pointer address "@ + text::digits(address as nat)
                + " is not a multiple of 4."@,
        )
    } else if elements * 4 > usize::MAX {
        Some("Invalid buffer size: byte length overflowed."@)
    } else if elements * 4 > isize::MAX || address + elements * 4 > usize::MAX {
        Some("Invalid buffer size: address range overflowed."@)
    } else if elements < words_for(vocab_size) {
        Some(
            "Invalid buffer size: got "@ + text::digits(elements as nat) + " elements ("@
                + text::digits((elements * 4) as nat) + " bytes), expected "@ + text::digits(
                words_for(vocab_size) as nat,
            ) + " elements ("@ + text::digits((words_for(vocab_size) * 4) as nat)
                + " bytes). Ensure that the mask tensor has shape (1, (vocab_size + 31) // 32) and uses 32-bit integers."@,
        )
    } else {
        None
    }
}

/// Refuses a buffer that cannot hold a mask.
pub fn check_buffer(
    address: usize,
    elements: usize,
    element_size: usize,
    vocab_size: usize,
) -> (result: Result<(), String>)
    ensures
        match buffer_fault(address, elements, element_size, vocab_size) {
            Some(fault) => result matches Err(message) && message@ == fault,
            None => result is Ok,
        },
{
    if element_size != 4 {
        let mut message = "Invalid element size: got ".to_owned();
        message.append(text::decimal(element_size).as_str());
        message.append(" bytes per element, expected 4 bytes (32-bit integer).");
        return Err(message);
    }
    if address == 0 {
        return Err("Invalid data pointer: received a null pointer.".to_owned());
    }
    if address % 4 != 0 {
        let mut message = "Invalid data pointer alignment: pointer address ".to_owned();
        message.append(text::decimal(address).as_str());
        message.append(" is not a multiple of 4.");
        return Err(message);
    }
    if elements > usize::MAX / 4 {
        return Err("Invalid buffer size: byte length overflowed.".to_owned());
    }
    let bytes: usize = elements * 4;
    if bytes > isize::MAX as usize || bytes > usize::MAX - address {
        return Err("Invalid buffer size: address range overflowed.".to_owned());
    }
    let wanted: usize = vocab_size / 32 + if vocab_size % 32 == 0 {
        0
    } else {
        1
    };
    assert(wanted == words_for(vocab_size));
    if elements < wanted {
        let mut message = "Invalid buffer size: got ".to_owned();
        message.append(text::decimal(elements).as_str());
        message.append(" elements (");
        message.append(text::decimal(bytes).as_str());
        message.append(" bytes), expected ");
        message.append(text::decimal(wanted).as_str());
        message.append(" elements (");
        message.append(text::decimal(wanted * 4).as_str());
        message.append(
            " bytes). Ensure that the mask tensor has shape (1, (vocab_size + 31) // 32) and uses 32-bit integers.",
        );
        return Err(message);
    }
    Ok(())
}

/// Taking back a token right after it was read leads back to where the guide stood, if anything is
/// remembered.
pub proof fn law_rollback_undoes_advance(
    before: &IndexGuide,
    middle: &IndexGuide,
    after: &IndexGuide,
)
    requires
        before.wf(),
        before.max_rollback > 0,
        middle.history@ == latest(
            before.history@.push(before.state),
            before.max_rollback as nat,
        ),
        after.history@ == middle.history@.take(middle.history@.len() - 1),
        after.state == middle.history@[middle.history@.len() - 1],
    ensures
        after.state == before.state,
        after.history@ == latest(before.history@, (before.max_rollback - 1) as nat),
{
    assert(after.history@ =~= latest(before.history@, (before.max_rollback - 1) as nat));
}

} // verus!
