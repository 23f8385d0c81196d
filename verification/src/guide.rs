//! Guides: token by token through a language, with masks, rollback and reset.

use std::collections::VecDeque;
use std::sync::Arc;

use vstd::prelude::*;

use crate::count;
use crate::error::{RuntimeError, RuntimeResource};
use crate::index::Index;
use crate::mask;
use crate::mask::MaskStats;
use crate::recognizer;
use crate::recognizer::{Advance, RecognizerCheckpoint, RecognizerState, RecognizerStats};
use crate::schema::RuntimeLimits;
use crate::trie::DerivedVocabulary;
use crate::vocabulary;
use crate::vocabulary::TokenEntry;

verus! {

/// The kinds of compiled schemas.
#[derive(Clone, Copy, Debug, PartialEq, Eq, Structural)]
pub enum BackendKind {
    WholeDfa,
    Lalr,
    Earley,
}

/// What a guide runs on.
#[derive(Debug)]
pub enum GuideRuntime {
    Dfa { index: Arc<Index>, state: u32 },
    Parser { recognizer: Box<RecognizerState> },
}

/// A state of a guide to come back to.
#[derive(Debug)]
pub enum GuideCheckpoint {
    Dfa { state: u32, committed_tokens: usize, committed_bytes: usize, finished: bool },
    Parser {
        recognizer: RecognizerCheckpoint,
        committed_tokens: usize,
        committed_bytes: usize,
        finished: bool,
    },
}

/// A guide: what has been committed, and what may come next.
#[derive(Debug)]
pub struct Guide {
    pub runtime: GuideRuntime,
    pub vocabulary: Option<Arc<DerivedVocabulary>>,
    pub eos_token_id: u32,
    pub vocab_size: usize,
    pub mask_words: usize,
    pub initial: GuideCheckpoint,
    pub history: VecDeque<GuideCheckpoint>,
    pub max_rollback: usize,
    pub finished: bool,
    pub committed_token_ids: Vec<u32>,
    pub committed_bytes: Vec<u8>,
    pub limits: RuntimeLimits,
    pub mask_stats: MaskStats,
    pub cached_mask: Option<Vec<u32>>,
}

/// The bytes of an identifier in a table.
pub open spec fn token_bytes(reverse: Seq<Option<Arc<[u8]>>>, id: u32) -> Seq<u8> {
    if id < reverse.len() {
        match reverse[id as int] {
            Some(bytes) => bytes@,
            None => Seq::empty(),
        }
    } else {
        Seq::empty()
    }
}

/// The bytes of a sequence of tokens. The token that ends a sequence has none.
pub open spec fn spelled(
    reverse: Seq<Option<Arc<[u8]>>>,
    eos: u32,
    tokens: Seq<u32>,
) -> Seq<u8>
    decreases tokens.len(),
{
    if tokens.len() == 0 {
        Seq::empty()
    } else {
        let before = spelled(reverse, eos, tokens.drop_last());
        if tokens.last() == eos {
            before
        } else {
            before + token_bytes(reverse, tokens.last())
        }
    }
}

/// The state of an index after a sequence of tokens. The token that ends a sequence leaves it.
pub open spec fn index_after(index: &Index, tokens: Seq<u32>) -> Option<u32>
    decreases tokens.len(),
{
    if tokens.len() == 0 {
        Some(index.initial_state)
    } else {
        match index_after(index, tokens.drop_last()) {
            Some(state) => if tokens.last() == index.eos_token_id {
                Some(state)
            } else if index.transitions@.dom().contains(state)
                && index.transitions@[state]@.dom().contains(tokens.last()) {
                Some(index.transitions@[state]@[tokens.last()])
            } else {
                None
            },
            None => None,
        }
    }
}

impl GuideCheckpoint {
    /// The number of tokens that were committed.
    pub open spec fn tokens(&self) -> usize {
        match self {
            GuideCheckpoint::Dfa { committed_tokens, .. } => *committed_tokens,
            GuideCheckpoint::Parser { committed_tokens, .. } => *committed_tokens,
        }
    }

    /// The number of bytes that were committed.
    pub open spec fn bytes(&self) -> usize {
        match self {
            GuideCheckpoint::Dfa { committed_bytes, .. } => *committed_bytes,
            GuideCheckpoint::Parser { committed_bytes, .. } => *committed_bytes,
        }
    }

    /// Whether the sequence had ended.
    pub open spec fn ended(&self) -> bool {
        match self {
            GuideCheckpoint::Dfa { finished, .. } => *finished,
            GuideCheckpoint::Parser { finished, .. } => *finished,
        }
    }
}

impl Guide {
    /// The bytes of the identifiers.
    pub open spec fn reverse(&self) -> Seq<Option<Arc<[u8]>>> {
        match self.vocabulary {
            Some(vocabulary) => vocabulary.reverse@,
            None => Seq::empty(),
        }
    }

    /// The bytes of a sequence of tokens.
    pub open spec fn bytes_of(&self, tokens: Seq<u32>) -> Seq<u8> {
        spelled(self.reverse(), self.eos_token_id, tokens)
    }

    /// Whether the runtime is in the state after `tokens`.
    pub open spec fn stands_at(&self, tokens: Seq<u32>) -> bool {
        match self.runtime {
            GuideRuntime::Dfa { index, state } => index_after(&*index, tokens) == Some(state)
                && index.eos_token_id == self.eos_token_id && self.vocabulary is None,
            GuideRuntime::Parser { recognizer } => recognizer.wf() && recognizer.recognizes(
                self.bytes_of(tokens),
            ),
        }
    }

    /// Whether a checkpoint is of the state after the first `n` tokens.
    pub open spec fn remembers(&self, checkpoint: GuideCheckpoint, n: int) -> bool {
        let tokens = self.committed_token_ids@.take(n);
        &&& 0 <= n <= self.committed_token_ids@.len()
        &&& checkpoint.tokens() == n
        &&& checkpoint.bytes() == self.bytes_of(tokens).len()
        &&& !checkpoint.ended()
        &&& forall|i: int| 0 <= i < n ==> #[trigger] self.committed_token_ids@[i] != self.eos_token_id
        &&& match (self.runtime, checkpoint) {
            (GuideRuntime::Dfa { index, .. }, GuideCheckpoint::Dfa { state, .. }) => index_after(
                &*index,
                tokens,
            ) == Some(state),
            (
                GuideRuntime::Parser { recognizer },
                GuideCheckpoint::Parser { recognizer: saved, .. },
            ) => captured(saved, *recognizer, self.bytes_of(tokens)),
            _ => false,
        }
    }

    /// Whether a mask is that of the present state.
    pub open spec fn mask_is(&self, words: Seq<u32>) -> bool {
        if self.finished {
            forall|id: u32| !#[trigger] mask::bit(words, id)
        } else {
            match self.runtime {
                GuideRuntime::Dfa { index, state } => forall|id: u32| #[trigger]
                    mask::bit(words, id) <==> index.transitions@.dom().contains(state)
                        && index.transitions@[state]@.dom().contains(id),
                GuideRuntime::Parser { recognizer } => forall|entries: Seq<TokenEntry>|
                    self.vocabulary is Some && #[trigger] self.vocabulary->0.derives(entries)
                        ==> mask::masks(*recognizer, self.eos_token_id, entries, words),
            }
        }
    }

    /// Whether the vocabulary fits the runtime.
    pub open spec fn equipped(&self) -> bool {
        &&& self.eos_token_id < self.vocab_size <= u32::MAX + 1
        &&& self.mask_words == (self.vocab_size + 31) / 32
        &&& match self.runtime {
            GuideRuntime::Dfa { index, .. } => {
                &&& self.vocabulary is None
                &&& index.eos_token_id == self.eos_token_id
                &&& forall|s: u32, id: u32|
                    #![trigger index.transitions@[s]@.dom().contains(id)]
                    index.transitions@.dom().contains(s) && index.transitions@[s]@.dom().contains(id)
                        ==> id < self.vocab_size
            },
            GuideRuntime::Parser { .. } => {
                &&& self.vocabulary is Some
                &&& self.vocabulary->0.eos_token_id == self.eos_token_id
                &&& self.vocabulary->0.vocab_size == self.vocab_size
                &&& exists|entries: Seq<TokenEntry>| #[trigger]
                    self.vocabulary->0.derives(entries)
            },
        }
    }

    /// Whether the tokens, the bytes and the end of the sequence agree.
    pub open spec fn consistent(&self) -> bool {
        let tokens = self.committed_token_ids@;
        &&& self.committed_bytes@ == self.bytes_of(tokens)
        &&& self.finished <==> tokens.len() > 0 && tokens.last() == self.eos_token_id
        &&& forall|i: int| 0 <= i < tokens.len() - 1 ==> #[trigger] tokens[i] != self.eos_token_id
        &&& self.stands_at(tokens)
    }

    /// What holds of every guide.
    pub open spec fn wf(&self) -> bool {
        &&& self.equipped()
        &&& self.consistent()
        &&& self.history@.len() <= self.max_rollback
        &&& self.history@.len() <= self.committed_token_ids@.len()
        &&& self.remembers(self.initial, 0)
        &&& forall|k: int|
            0 <= k < self.history@.len() ==> self.remembers(
                #[trigger] self.history@[k],
                self.committed_token_ids@.len() - self.history@.len() + k,
            )
        &&& self.cached_mask matches Some(words) ==> words@.len() == self.mask_words
            && self.mask_is(words@)
    }

    /// Whether two guides stand at the same place.
    pub open spec fn same(&self, other: &Self) -> bool {
        &&& self.committed_token_ids@ == other.committed_token_ids@
        &&& self.committed_bytes@ == other.committed_bytes@
        &&& self.finished == other.finished
        &&& self.history@.len() == other.history@.len()
        &&& self.kindred(other)
        &&& match (self.runtime, other.runtime) {
            (
                GuideRuntime::Dfa { state: a, .. },
                GuideRuntime::Dfa { state: b, .. },
            ) => a == b,
            (
                GuideRuntime::Parser { recognizer: a },
                GuideRuntime::Parser { recognizer: b },
            ) => a.alike(&*b),
            _ => false,
        }
    }

    /// Whether two guides are of the same language, vocabulary and limits.
    pub open spec fn kindred(&self, other: &Self) -> bool {
        &&& self.vocabulary == other.vocabulary
        &&& self.eos_token_id == other.eos_token_id
        &&& self.vocab_size == other.vocab_size
        &&& self.mask_words == other.mask_words
        &&& self.max_rollback == other.max_rollback
        &&& self.limits == other.limits
        &&& match (self.runtime, other.runtime) {
            (
                GuideRuntime::Dfa { index: a, .. },
                GuideRuntime::Dfa { index: b, .. },
            ) => a == b,
            (
                GuideRuntime::Parser { recognizer: a },
                GuideRuntime::Parser { recognizer: b },
            ) => same_language(*a, *b),
            _ => false,
        }
    }
}

/// Whether two recognizers recognize the same language.
pub open spec fn same_language(a: RecognizerState, b: RecognizerState) -> bool {
    &&& a.faithful() == b.faithful()
    &&& forall|w: Seq<u8>| #[trigger] a.generates(w) == b.generates(w)
}

/// Whether a checkpoint is of a state that a recognizer went on from and in which it had read `h`.
pub open spec fn captured(
    checkpoint: RecognizerCheckpoint,
    recognizer: RecognizerState,
    h: Seq<u8>,
) -> bool {
    exists|then: RecognizerState| #[trigger]
        checkpoint.captures(&then) && then.wf() && recognizer.follows(&then) && then.recognizes(h)
}

/// What was captured stays captured when the recognizer goes on.
proof fn lemma_captured(
    checkpoint: RecognizerCheckpoint,
    before: RecognizerState,
    after: RecognizerState,
    h: Seq<u8>,
)
    requires
        captured(checkpoint, before, h),
        after.follows(&before),
    ensures
        captured(checkpoint, after, h),
{
    let then = choose|then: RecognizerState| #[trigger]
        checkpoint.captures(&then) && then.wf() && before.follows(&then) && then.recognizes(h);
    after.lemma_follows_join(&before, &then);
}

/// Tokens are spelled one after the other.
proof fn lemma_spelled_push(
    reverse: Seq<Option<Arc<[u8]>>>,
    eos: u32,
    tokens: Seq<u32>,
    token: u32,
)
    ensures
        spelled(reverse, eos, tokens.push(token)) == (if token == eos {
            spelled(reverse, eos, tokens)
        } else {
            spelled(reverse, eos, tokens) + token_bytes(reverse, token)
        }),
{
    assert(tokens.push(token).drop_last() =~= tokens);
}

/// What a part of the tokens spells is a part of what all spell.
proof fn lemma_spelled_part(
    reverse: Seq<Option<Arc<[u8]>>>,
    eos: u32,
    tokens: Seq<u32>,
    n: int,
)
    requires
        0 <= n <= tokens.len(),
    ensures
        spelled(reverse, eos, tokens.take(n)).len() <= spelled(reverse, eos, tokens).len(),
        spelled(reverse, eos, tokens).take(spelled(reverse, eos, tokens.take(n)).len() as int)
            == spelled(reverse, eos, tokens.take(n)),
    decreases tokens.len(),
{
    if n == tokens.len() {
        assert(tokens.take(n) =~= tokens);
        let all = spelled(reverse, eos, tokens);
        assert(all.take(all.len() as int) =~= all);
    } else {
        lemma_spelled_part(reverse, eos, tokens.drop_last(), n);
        assert(tokens.drop_last().take(n) =~= tokens.take(n));
        let part = spelled(reverse, eos, tokens.take(n));
        let front = spelled(reverse, eos, tokens.drop_last());
        let all = spelled(reverse, eos, tokens);
        assert(all.take(part.len() as int) =~= front.take(part.len() as int));
    }
}

/// Recognizers that follow each other recognize the same language.
proof fn lemma_follows_language(a: RecognizerState, b: RecognizerState)
    requires
        a.follows(&b),
    ensures
        same_language(a, b),
{
}

/// A mask of a state is a mask of every state like it.
proof fn lemma_masks_alike(
    a: RecognizerState,
    b: RecognizerState,
    eos: u32,
    entries: Seq<TokenEntry>,
    words: Seq<u32>,
)
    requires
        a.wf(),
        b.alike(&a),
        mask::masks(a, eos, entries, words),
    ensures
        mask::masks(b, eos, entries, words),
{
    b.lemma_alike(&a);
    b.lemma_alike_turn(&a);
    assert forall|bytes: Seq<u8>, state: RecognizerState| #[trigger]
        mask::reads_to(a, bytes, state) implies mask::reads_to(b, bytes, state) by {
        state.lemma_follows_alike(&a, &b);
        assert forall|h: Seq<u8>| b.recognizes(h) implies state.recognizes(#[trigger] (h + bytes)) by {
            assert(a.recognizes(h));
        }
    }
    assert forall|id: u32| #[trigger] mask::bit(words, id) implies mask::allowed(
        b,
        eos,
        entries,
        id,
    ) by {
        assert(mask::allowed(a, eos, entries, id));
        if !(id == eos && a.accepting()) {
            let bytes = choose|bytes: Seq<u8>| #[trigger]
                vocabulary::names(entries, bytes, id) && mask::leads_on(a, bytes);
            let state = choose|state: RecognizerState| #[trigger]
                mask::reads_to(a, bytes, state) && state.live();
            assert(mask::reads_to(b, bytes, state));
            assert(mask::leads_on(b, bytes));
        }
    }
    if b.faithful() {
        assert forall|h: Seq<u8>, bytes: Seq<u8>, id: u32|
            #![trigger vocabulary::names(entries, bytes, id), b.viable(h + bytes)]
            b.recognizes(h) && vocabulary::names(entries, bytes, id) && b.viable(
                h + bytes,
            ) implies mask::bit(words, id) || mask::stalls(b, bytes) by {
            let rest = choose|rest: Seq<u8>| #[trigger] b.generates((h + bytes) + rest);
            assert(a.generates((h + bytes) + rest));
            assert(a.viable(h + bytes));
            if !mask::bit(words, id) {
                let state = choose|state: RecognizerState| #[trigger]
                    mask::reads_to(a, bytes, state) && state.hindered();
                assert(mask::reads_to(b, bytes, state));
            }
        }
    }
}

/// Two vocabularies of one table name the same.
proof fn lemma_same_names(
    derived: &DerivedVocabulary,
    a: Seq<TokenEntry>,
    b: Seq<TokenEntry>,
    bytes: Seq<u8>,
    id: u32,
)
    requires
        derived.derives(a),
        derived.derives(b),
    ensures
        vocabulary::names(a, bytes, id) == vocabulary::names(b, bytes, id),
{
    if vocabulary::names(a, bytes, id) {
        assert(vocabulary::names(b, derived.reverse@[id as int]->0@, id));
    }
    if vocabulary::names(b, bytes, id) {
        assert(vocabulary::names(a, derived.reverse@[id as int]->0@, id));
    }
}

/// A mask for one vocabulary of a table is a mask for every one.
proof fn lemma_masks_names(
    derived: &DerivedVocabulary,
    root: RecognizerState,
    eos: u32,
    a: Seq<TokenEntry>,
    b: Seq<TokenEntry>,
    words: Seq<u32>,
)
    requires
        derived.derives(a),
        derived.derives(b),
        mask::masks(root, eos, a, words),
    ensures
        mask::masks(root, eos, b, words),
{
    assert forall|id: u32| #[trigger] mask::bit(words, id) implies mask::allowed(
        root,
        eos,
        b,
        id,
    ) by {
        assert(mask::allowed(root, eos, a, id));
        if !(id == eos && root.accepting()) {
            let bytes = choose|bytes: Seq<u8>| #[trigger]
                vocabulary::names(a, bytes, id) && mask::leads_on(root, bytes);
            lemma_same_names(derived, a, b, bytes, id);
            assert(vocabulary::names(b, bytes, id));
        }
    }
    if root.faithful() {
        assert forall|h: Seq<u8>, bytes: Seq<u8>, id: u32|
            #![trigger vocabulary::names(b, bytes, id), root.viable(h + bytes)]
            root.recognizes(h) && vocabulary::names(b, bytes, id) && root.viable(
                h + bytes,
            ) implies mask::bit(words, id) || mask::stalls(root, bytes) by {
            lemma_same_names(derived, a, b, bytes, id);
            assert(vocabulary::names(a, bytes, id));
        }
    }
}

/// Refuses a rollback limit above the history's.
fn validate_rollback_limit(max_rollback: usize, limits: &RuntimeLimits) -> (result: Result<
    (),
    RuntimeError,
>)
    ensures
        result is Ok <==> max_rollback <= limits.max_checkpoint_history,
        result matches Err(error) ==> error == (RuntimeError::ResourceLimitExceeded {
            resource: RuntimeResource::CheckpointHistory,
            observed: max_rollback,
            limit: limits.max_checkpoint_history,
        }),
{
    if max_rollback > limits.max_checkpoint_history {
        Err(
            RuntimeError::ResourceLimitExceeded {
                resource: RuntimeResource::CheckpointHistory,
                observed: max_rollback,
                limit: limits.max_checkpoint_history,
            },
        )
    } else {
        Ok(())
    }
}

/// The number of words of a mask.
fn words_for(size: usize) -> (words: usize)
    requires
        size <= u32::MAX + 1,
    ensures
        words == (size + 31) / 32,
{
    if size % 32 == 0 {
        size / 32
    } else {
        size / 32 + 1
    }
}

impl Guide {
    /// A guide over an index.
    pub fn from_index(index: Arc<Index>, max_rollback: usize, limits: RuntimeLimits) -> (result:
        Result<Self, RuntimeError>)
        requires
            index.eos_token_id < index.vocab_size <= u32::MAX + 1,
            forall|s: u32, id: u32|
                #![trigger index.transitions@[s]@.dom().contains(id)]
                index.transitions@.dom().contains(s) && index.transitions@[s]@.dom().contains(id)
                    ==> id < index.vocab_size,
        ensures
            result is Ok <==> max_rollback <= limits.max_checkpoint_history,
            result matches Err(error) ==> error == (RuntimeError::ResourceLimitExceeded {
                resource: RuntimeResource::CheckpointHistory,
                observed: max_rollback,
                limit: limits.max_checkpoint_history,
            }),
            result matches Ok(guide) ==> {
                &&& guide.wf()
                &&& guide.runtime == (GuideRuntime::Dfa { index, state: index.initial_state })
                &&& guide.eos_token_id == index.eos_token_id
                &&& guide.vocab_size == index.vocab_size
                &&& guide.max_rollback == max_rollback
                &&& guide.limits == limits
                &&& guide.committed_token_ids@.len() == 0
                &&& guide.history@.len() == 0
            },
    {
        match validate_rollback_limit(max_rollback, &limits) {
            Ok(()) => {},
            Err(error) => {
                return Err(error);
            },
        }
        let state: u32 = index.initial_state();
        let vocab_size: usize = index.vocab_size();
        let eos_token_id: u32 = index.eos_token_id();
        let initial = GuideCheckpoint::Dfa {
            state,
            committed_tokens: 0,
            committed_bytes: 0,
            finished: false,
        };
        let guide = Guide {
            runtime: GuideRuntime::Dfa { index, state },
            vocabulary: None,
            eos_token_id,
            vocab_size,
            mask_words: words_for(vocab_size),
            initial,
            history: VecDeque::new(),
            max_rollback,
            finished: false,
            committed_token_ids: Vec::new(),
            committed_bytes: Vec::new(),
            limits,
            mask_stats: MaskStats::default(),
            cached_mask: None,
        };
        proof {
            assert(guide.committed_token_ids@.take(0) =~= Seq::<u32>::empty());
            assert(guide.committed_bytes@ =~= guide.bytes_of(guide.committed_token_ids@));
        }
        Ok(guide)
    }

    /// A guide over a recognizer that has read nothing, and a vocabulary.
    pub fn from_recognizer(
        recognizer: RecognizerState,
        vocabulary: Arc<DerivedVocabulary>,
        max_rollback: usize,
        limits: RuntimeLimits,
    ) -> (result: Result<Self, RuntimeError>)
        requires
            recognizer.wf(),
            recognizer.recognizes(Seq::empty()),
            exists|entries: Seq<TokenEntry>| #[trigger] vocabulary.derives(entries),
        ensures
            result is Ok <==> max_rollback <= limits.max_checkpoint_history,
            result matches Err(error) ==> error == (RuntimeError::ResourceLimitExceeded {
                resource: RuntimeResource::CheckpointHistory,
                observed: max_rollback,
                limit: limits.max_checkpoint_history,
            }),
            result matches Ok(guide) ==> {
                &&& guide.wf()
                &&& guide.runtime == (GuideRuntime::Parser { recognizer: Box::new(recognizer) })
                &&& guide.vocabulary == Some(vocabulary)
                &&& guide.max_rollback == max_rollback
                &&& guide.limits == limits
                &&& guide.committed_token_ids@.len() == 0
                &&& guide.history@.len() == 0
            },
    {
        match validate_rollback_limit(max_rollback, &limits) {
            Ok(()) => {},
            Err(error) => {
                return Err(error);
            },
        }
        let saved = recognizer.checkpoint();
        let initial = GuideCheckpoint::Parser {
            recognizer: saved,
            committed_tokens: 0,
            committed_bytes: 0,
            finished: false,
        };
        let ghost first = recognizer;
        let eos_token_id: u32 = vocabulary.eos_token_id;
        let vocab_size: usize = vocabulary.vocab_size;
        let mask_words: usize = vocabulary.mask_words;
        let guide = Guide {
            runtime: GuideRuntime::Parser { recognizer: Box::new(recognizer) },
            vocabulary: Some(vocabulary),
            eos_token_id,
            vocab_size,
            mask_words,
            initial,
            history: VecDeque::new(),
            max_rollback,
            finished: false,
            committed_token_ids: Vec::new(),
            committed_bytes: Vec::new(),
            limits,
            mask_stats: MaskStats::default(),
            cached_mask: None,
        };
        proof {
            first.lemma_follows_self();
            assert(guide.committed_token_ids@.take(0) =~= Seq::<u32>::empty());
            assert(guide.committed_bytes@ =~= guide.bytes_of(guide.committed_token_ids@));
            assert(guide.bytes_of(guide.committed_token_ids@) =~= Seq::<u8>::empty());
            assert(captured(saved, first, Seq::empty()));
        }
        Ok(guide)
    }
}

/// Whether a guide's runtime went on from another's.
spec fn runtime_follows(after: &Guide, before: &Guide) -> bool {
    match (after.runtime, before.runtime) {
        (GuideRuntime::Dfa { index: a, .. }, GuideRuntime::Dfa { index: b, .. }) => a == b,
        (
            GuideRuntime::Parser { recognizer: a },
            GuideRuntime::Parser { recognizer: b },
        ) => a.follows(&*b),
        _ => false,
    }
}

/// Whether guides agree in what never changes.
spec fn same_frame(after: &Guide, before: &Guide) -> bool {
    &&& after.vocabulary == before.vocabulary
    &&& after.eos_token_id == before.eos_token_id
    &&& after.vocab_size == before.vocab_size
    &&& after.mask_words == before.mask_words
    &&& after.max_rollback == before.max_rollback
    &&& after.limits == before.limits
    &&& after.initial == before.initial
}

/// A checkpoint stays one of the tokens that are left when the runtime goes on or comes back.
proof fn lemma_remembers(before: &Guide, after: &Guide, checkpoint: GuideCheckpoint, n: int)
    requires
        before.remembers(checkpoint, n),
        n <= after.committed_token_ids@.len(),
        after.committed_token_ids@.take(n) == before.committed_token_ids@.take(n),
        after.eos_token_id == before.eos_token_id,
        after.vocabulary == before.vocabulary,
        runtime_follows(after, before),
    ensures
        after.remembers(checkpoint, n),
{
    assert forall|i: int| 0 <= i < n implies #[trigger] after.committed_token_ids@[i]
        != after.eos_token_id by {
        assert(after.committed_token_ids@[i] == after.committed_token_ids@.take(n)[i]);
        assert(before.committed_token_ids@[i] == before.committed_token_ids@.take(n)[i]);
        assert(before.committed_token_ids@[i] != before.eos_token_id);
    }
    match (after.runtime, before.runtime, checkpoint) {
        (
            GuideRuntime::Parser { recognizer: a },
            GuideRuntime::Parser { recognizer: b },
            GuideCheckpoint::Parser { recognizer: saved, .. },
        ) => {
            lemma_captured(saved, *b, *a, before.bytes_of(before.committed_token_ids@.take(n)));
        },
        _ => {},
    }
}

impl Guide {
    /// The backend that the guide runs on.
    #[must_use]
    pub fn backend(&self) -> (kind: BackendKind)
        ensures
            kind == (match self.runtime {
                GuideRuntime::Dfa { .. } => BackendKind::WholeDfa,
                GuideRuntime::Parser { recognizer } => match *recognizer {
                    RecognizerState::Dfa(_) => BackendKind::WholeDfa,
                    RecognizerState::Lalr(_) => BackendKind::Lalr,
                    RecognizerState::Earley(_) => BackendKind::Earley,
                },
            }),
    {
        match &self.runtime {
            GuideRuntime::Dfa { .. } => BackendKind::WholeDfa,
            GuideRuntime::Parser { recognizer } => match &**recognizer {
                RecognizerState::Dfa(_) => BackendKind::WholeDfa,
                RecognizerState::Lalr(_) => BackendKind::Lalr,
                RecognizerState::Earley(_) => BackendKind::Earley,
            },
        }
    }

    /// The width of the vocabulary.
    #[must_use]
    pub fn vocab_size(&self) -> (size: usize)
        ensures
            size == self.vocab_size,
    {
        self.vocab_size
    }

    /// The number of words of a mask.
    #[must_use]
    pub fn mask_words(&self) -> (words: usize)
        ensures
            words == self.mask_words,
    {
        self.mask_words
    }

    /// The token that ends a sequence.
    #[must_use]
    pub fn eos_token_id(&self) -> (id: u32)
        ensures
            id == self.eos_token_id,
    {
        self.eos_token_id
    }

    /// The number of bytes that were committed.
    #[must_use]
    pub fn position(&self) -> (position: usize)
        ensures
            position == self.committed_bytes@.len(),
    {
        self.committed_bytes.len()
    }

    /// The state of the index, if there is one.
    pub fn dfa_state(&self) -> (result: Result<u32, RuntimeError>)
        ensures
            result == (match self.runtime {
                GuideRuntime::Dfa { state, .. } => Ok::<u32, RuntimeError>(state),
                GuideRuntime::Parser { .. } => Err(RuntimeError::StateIdUnavailable),
            }),
    {
        match &self.runtime {
            GuideRuntime::Dfa { state, .. } => Ok(*state),
            GuideRuntime::Parser { .. } => Err(RuntimeError::StateIdUnavailable),
        }
    }

    /// Whether the sequence may end here.
    pub open spec fn accepting(&self) -> bool {
        !self.finished && match self.runtime {
            GuideRuntime::Dfa { index, state } => index.final_states@.contains(state as u64),
            GuideRuntime::Parser { recognizer } => recognizer.accepting(),
        }
    }

    /// Whether the sequence may end here.
    #[must_use]
    pub fn is_accepting(&self) -> (accepting: bool)
        requires
            self.wf(),
        ensures
            accepting == self.accepting(),
    {
        if self.finished {
            return false;
        }
        match &self.runtime {
            GuideRuntime::Dfa { index, state } => index.is_final_state(state),
            GuideRuntime::Parser { recognizer } => recognizer.is_accepting(),
        }
    }

    /// Whether the sequence has ended.
    #[must_use]
    pub fn is_finished(&self) -> (finished: bool)
        ensures
            finished == self.finished,
    {
        self.finished
    }

    /// The number of tokens that can be taken back.
    #[must_use]
    pub fn get_allowed_rollback(&self) -> (count: usize)
        ensures
            count == self.history@.len(),
    {
        self.history.len()
    }

    /// The tokens that were committed.
    #[must_use]
    pub fn committed_token_ids(&self) -> (tokens: &[u32])
        ensures
            tokens@ == self.committed_token_ids@,
    {
        self.committed_token_ids.as_slice()
    }

    /// The bytes that were committed.
    #[must_use]
    pub fn committed_bytes(&self) -> (bytes: &[u8])
        ensures
            bytes@ == self.committed_bytes@,
    {
        self.committed_bytes.as_slice()
    }

    /// What the parser has counted, if there is one.
    #[must_use]
    pub fn parser_stats(&self) -> (stats: Option<RecognizerStats>)
        ensures
            self.runtime is Dfa ==> stats is None,
            self.runtime matches GuideRuntime::Parser { recognizer } ==> stats is Some
                && call_ensures(RecognizerState::stats, (&*recognizer,), stats->0),
    {
        match &self.runtime {
            GuideRuntime::Dfa { .. } => None,
            GuideRuntime::Parser { recognizer } => Some(recognizer.stats()),
        }
    }

    /// What was counted while masks were filled.
    #[must_use]
    pub fn mask_stats(&self) -> (stats: &MaskStats)
        ensures
            *stats == self.mask_stats,
    {
        &self.mask_stats
    }

    /// The present state, to come back to.
    fn checkpoint(&self) -> (checkpoint: GuideCheckpoint)
        requires
            self.wf(),
            !self.finished,
        ensures
            self.remembers(checkpoint, self.committed_token_ids@.len() as int),
    {
        proof {
            let tokens = self.committed_token_ids@;
            assert(tokens.take(tokens.len() as int) =~= tokens);
        }
        match &self.runtime {
            GuideRuntime::Dfa { state, .. } => GuideCheckpoint::Dfa {
                state: *state,
                committed_tokens: self.committed_token_ids.len(),
                committed_bytes: self.committed_bytes.len(),
                finished: self.finished,
            },
            GuideRuntime::Parser { recognizer } => {
                let saved = recognizer.checkpoint();
                proof {
                    recognizer.lemma_follows_self();
                    assert(captured(saved, **recognizer, self.committed_bytes@));
                }
                GuideCheckpoint::Parser {
                    recognizer: saved,
                    committed_tokens: self.committed_token_ids.len(),
                    committed_bytes: self.committed_bytes.len(),
                    finished: self.finished,
                }
            },
        }
    }

    /// Keeps a checkpoint, and drops the oldest ones that are too many.
    fn retain_checkpoint(&mut self, checkpoint: GuideCheckpoint)
        requires
            old(self).history@.len() <= old(self).max_rollback,
        ensures
            *final(self) == (Guide { history: final(self).history, ..*old(self) }),
            old(self).max_rollback == 0 ==> final(self).history@ == old(self).history@,
            old(self).max_rollback > old(self).history@.len() ==> final(self).history@
                == old(self).history@.push(checkpoint),
            0 < old(self).max_rollback == old(self).history@.len() ==> final(self).history@
                == old(self).history@.skip(1).push(checkpoint),
    {
        if self.max_rollback == 0 {
            return;
        }
        if self.history.len() >= self.max_rollback {
            self.history.pop_front();
            assert(self.history@ =~= old(self).history@.skip(1));
        }
        self.history.push_back(checkpoint);
    }

    /// Commits a token to which the runtime has moved.
    fn commit(&mut self, checkpoint: GuideCheckpoint, token_id: u32, Ghost(before): Ghost<Guide>)
        requires
            before.wf(),
            !before.finished,
            same_frame(old(self), &before),
            old(self).history == before.history,
            old(self).committed_token_ids == before.committed_token_ids,
            old(self).committed_bytes == before.committed_bytes,
            runtime_follows(old(self), &before),
            before.remembers(checkpoint, before.committed_token_ids@.len() as int),
            old(self).stands_at(before.committed_token_ids@.push(token_id)),
            old(self).equipped(),
            token_id == before.eos_token_id || before.vocabulary is None || (token_id
                < before.reverse().len() && before.reverse()[token_id as int] is Some),
        ensures
            final(self).wf(),
            same_frame(final(self), &before),
            final(self).runtime == old(self).runtime,
            final(self).committed_token_ids@ == before.committed_token_ids@.push(token_id),
            final(self).history@.len() == (if before.history@.len() < before.max_rollback {
                before.history@.len() + 1
            } else {
                before.history@.len()
            }),
            final(self).cached_mask is None,
            final(self).mask_stats == (MaskStats { cache_bytes: 0, ..old(self).mask_stats }),
    {
        let ghost moved = *self;
        self.retain_checkpoint(checkpoint);
        if token_id != self.eos_token_id {
            if let Some(vocabulary) = &self.vocabulary {
                if let Some(bytes) = vocabulary.shared_bytes(token_id) {
                    self.committed_bytes.extend_from_slice(&bytes);
                }
            }
        }
        self.committed_token_ids.push(token_id);
        self.finished = token_id == self.eos_token_id;
        self.cached_mask = None;
        self.mask_stats.cache_bytes = 0;
        proof {
            let tokens = before.committed_token_ids@;
            let grown = self.committed_token_ids@;
            lemma_spelled_push(self.reverse(), self.eos_token_id, tokens, token_id);
            assert(self.committed_bytes@ =~= self.bytes_of(grown));
            assert(runtime_follows(&*self, &before));
            assert(grown.take(0) =~= tokens.take(0));
            lemma_remembers(&before, &*self, self.initial, 0);
            assert forall|k: int| 0 <= k < self.history@.len() implies self.remembers(
                #[trigger] self.history@[k],
                grown.len() - self.history@.len() + k,
            ) by {
                let n = grown.len() - self.history@.len() + k;
                assert(grown.take(n) =~= tokens.take(n));
                if k == self.history@.len() - 1 {
                    assert(self.history@[k] == checkpoint);
                    lemma_remembers(&before, &*self, checkpoint, n);
                } else {
                    let older = if before.history@.len() < before.max_rollback {
                        k
                    } else {
                        k + 1
                    };
                    assert(self.history@[k] == before.history@[older]);
                    lemma_remembers(&before, &*self, before.history@[older], n);
                }
            }
        }
    }
}

/// The error on which a token is refused before anything is tried, if there is one.
pub open spec fn refusal(guide: &Guide, token_id: u32) -> Option<RuntimeError> {
    let count = guide.committed_token_ids@.len() + 1;
    if guide.finished {
        Some(RuntimeError::GuideFinished)
    } else if count > guide.limits.max_committed_tokens {
        Some(
            RuntimeError::ResourceLimitExceeded {
                resource: RuntimeResource::CommittedTokens,
                observed: count::saturated(count) as usize,
                limit: guide.limits.max_committed_tokens,
            },
        )
    } else if token_id == guide.eos_token_id {
        if guide.accepting() {
            None
        } else {
            Some(RuntimeError::EosNotAccepting)
        }
    } else {
        match guide.runtime {
            GuideRuntime::Dfa { index, state } => if index.transitions@.dom().contains(state)
                && index.transitions@[state]@.dom().contains(token_id) {
                None
            } else {
                Some(RuntimeError::TokenNotAllowed { token_id })
            },
            GuideRuntime::Parser { .. } => if token_id < guide.reverse().len()
                && guide.reverse()[token_id as int] is Some {
                None
            } else {
                Some(RuntimeError::UnknownTokenId { token_id })
            },
        }
    }
}

/// What is promised of a token that is offered.
pub open spec fn advances(
    before: &Guide,
    after: &Guide,
    token_id: u32,
    result: Result<(), RuntimeError>,
) -> bool {
    match refusal(before, token_id) {
        Some(error) => result == Err::<(), RuntimeError>(error) && *after == *before,
        None => match result {
            Ok(()) => {
                &&& after.committed_token_ids@ == before.committed_token_ids@.push(token_id)
                &&& after.finished == (token_id == before.eos_token_id)
                &&& after.cached_mask is None
                &&& after.history@.len() == (if before.history@.len() < before.max_rollback {
                    before.history@.len() + 1
                } else {
                    before.history@.len()
                })
                &&& match (before.runtime, after.runtime) {
                    (
                        GuideRuntime::Parser { recognizer: a },
                        GuideRuntime::Parser { recognizer: b },
                    ) => b.follows(&*a) && (token_id != before.eos_token_id ==> mask::reads_to(
                        *a,
                        token_bytes(before.reverse(), token_id),
                        *b,
                    ) && (token_bytes(before.reverse(), token_id).len() > 0 ==> b.going())),
                    (GuideRuntime::Dfa { index: a, .. }, GuideRuntime::Dfa { index: b, .. }) => a
                        == b,
                    _ => false,
                }
            },
            Err(error) => {
                &&& before.runtime is Parser
                &&& token_id != before.eos_token_id
                &&& after.same(before)
                &&& rejected(before, token_id, error)
            },
        },
    }
}

/// Whether an error is that of a recognizer that refused a token.
pub open spec fn rejected(before: &Guide, token_id: u32, error: RuntimeError) -> bool {
    match before.runtime {
        GuideRuntime::Parser { recognizer } => {
            ||| error == (RuntimeError::TokenNotAllowed { token_id }) && (recognizer.faithful()
                ==> !recognizer.viable(
                before.committed_bytes@ + token_bytes(before.reverse(), token_id),
            ))
            ||| recognizer::halts(
                *recognizer,
                token_bytes(before.reverse(), token_id),
                error,
            )
        },
        GuideRuntime::Dfa { .. } => false,
    }
}

/// A guide stays well formed when its recognizer comes back to a state like the one it was in.
proof fn lemma_returned(before: &Guide, after: &Guide)
    requires
        before.wf(),
        before.runtime is Parser,
        after.runtime is Parser,
        (after.runtime->Parser_recognizer).alike(&*before.runtime->Parser_recognizer),
        same_frame(after, before),
        after.history == before.history,
        after.finished == before.finished,
        after.committed_token_ids == before.committed_token_ids,
        after.committed_bytes == before.committed_bytes,
        after.cached_mask == before.cached_mask,
    ensures
        after.wf(),
        after.same(before),
{
    let a = *after.runtime->Parser_recognizer;
    let b = *before.runtime->Parser_recognizer;
    a.lemma_alike(&b);
    a.lemma_alike_is_next(&b);
    lemma_follows_language(a, b);
    lemma_remembers(before, after, after.initial, 0);
    assert forall|k: int| 0 <= k < after.history@.len() implies after.remembers(
        #[trigger] after.history@[k],
        after.committed_token_ids@.len() - after.history@.len() + k,
    ) by {
        lemma_remembers(
            before,
            after,
            before.history@[k],
            before.committed_token_ids@.len() - before.history@.len() + k,
        );
    }
    if let Some(words) = after.cached_mask {
        if !after.finished {
            assert forall|entries: Seq<TokenEntry>| #[trigger]
                after.vocabulary->0.derives(entries) implies mask::masks(
                a,
                after.eos_token_id,
                entries,
                words@,
            ) by {
                assert(before.vocabulary->0.derives(entries));
                lemma_masks_alike(b, a, after.eos_token_id, entries, words@);
            }
        }
    }
}

/// A state that was left earlier is one that a state that was left later went on from.
proof fn lemma_sibling(
    now: RecognizerState,
    later: RecognizerState,
    earlier: RecognizerState,
    h: Seq<u8>,
    part: Seq<u8>,
)
    requires
        now.follows(&later),
        now.follows(&earlier),
        later.recognizes(h),
        earlier.recognizes(part),
        part.len() <= h.len(),
    ensures
        later.follows(&earlier),
{
    match (now, later, earlier) {
        (
            RecognizerState::Earley(a),
            RecognizerState::Earley(b),
            RecognizerState::Earley(c),
        ) => {
            assert(b.chart@.take(c.chart@.len() as int) =~= a.chart@.take(c.chart@.len() as int));
        },
        _ => {},
    }
}

/// A checkpoint of fewer tokens stays one when the runtime comes back to more of them.
proof fn lemma_came_back(
    before: &Guide,
    after: &Guide,
    checkpoint: GuideCheckpoint,
    n: int,
    m: int,
)
    requires
        before.remembers(checkpoint, m),
        m <= n <= before.committed_token_ids@.len(),
        after.committed_token_ids@ == before.committed_token_ids@.take(n),
        after.eos_token_id == before.eos_token_id,
        after.vocabulary == before.vocabulary,
        match (after.runtime, before.runtime) {
            (GuideRuntime::Dfa { index: a, .. }, GuideRuntime::Dfa { index: b, .. }) => a == b,
            (
                GuideRuntime::Parser { recognizer: a },
                GuideRuntime::Parser { recognizer: b },
            ) => b.follows(&*a) && a.recognizes(
                before.bytes_of(before.committed_token_ids@.take(n)),
            ),
            _ => false,
        },
    ensures
        after.remembers(checkpoint, m),
{
    let tokens = before.committed_token_ids@;
    assert(tokens.take(n).take(m) =~= tokens.take(m));
    assert forall|i: int| 0 <= i < m implies #[trigger] after.committed_token_ids@[i]
        != after.eos_token_id by {
        assert(before.committed_token_ids@[i] != before.eos_token_id);
    }
    match (after.runtime, before.runtime, checkpoint) {
        (
            GuideRuntime::Parser { recognizer: a },
            GuideRuntime::Parser { recognizer: b },
            GuideCheckpoint::Parser { recognizer: saved, .. },
        ) => {
            let h = before.bytes_of(tokens.take(n));
            let part = before.bytes_of(tokens.take(m));
            lemma_spelled_part(before.reverse(), before.eos_token_id, tokens.take(n), m);
            let then = choose|then: RecognizerState| #[trigger]
                saved.captures(&then) && then.wf() && b.follows(&then) && then.recognizes(part);
            lemma_sibling(*b, *a, then, h, part);
            assert(captured(saved, *a, part));
        },
        _ => {},
    }
}

impl Guide {
    /// Commits a token, or leaves the guide as it was.
    pub fn advance(&mut self, token_id: u32) -> (result: Result<(), RuntimeError>)
        requires
            old(self).wf(),
        ensures
            final(self).wf(),
            final(self).kindred(old(self)),
            advances(old(self), final(self), token_id, result),
    {
        let ghost before = *self;
        proof {
            self.lemma_kindred_self();
        }
        if self.finished {
            return Err(RuntimeError::GuideFinished);
        }
        let committed: usize = self.committed_token_ids.len();
        if committed >= self.limits.max_committed_tokens {
            return Err(
                RuntimeError::ResourceLimitExceeded {
                    resource: RuntimeResource::CommittedTokens,
                    observed: committed.saturating_add(1),
                    limit: self.limits.max_committed_tokens,
                },
            );
        }
        let checkpoint = self.checkpoint();
        let ghost tokens = self.committed_token_ids@;
        proof {
            assert(tokens.push(token_id).drop_last() =~= tokens);
            lemma_spelled_push(self.reverse(), self.eos_token_id, tokens, token_id);
        }
        if token_id == self.eos_token_id {
            if !self.is_accepting() {
                return Err(RuntimeError::EosNotAccepting);
            }
            proof {
                if let GuideRuntime::Parser { recognizer } = before.runtime {
                    recognizer.lemma_follows_self();
                    lemma_follows_language(*recognizer, *recognizer);
                }
            }
            self.commit(checkpoint, token_id, Ghost(before));
            return Ok(());
        }
        match &mut self.runtime {
            GuideRuntime::Dfa { index, state } => {
                match index.next_state(state, &token_id) {
                    Some(next) => {
                        *state = next;
                    },
                    None => {
                        return Err(RuntimeError::TokenNotAllowed { token_id });
                    },
                }
            },
            GuideRuntime::Parser { recognizer } => {
                let bytes: Arc<[u8]> = match &self.vocabulary {
                    Some(vocabulary) => match vocabulary.shared_bytes(token_id) {
                        Some(bytes) => bytes,
                        None => {
                            return Err(RuntimeError::UnknownTokenId { token_id });
                        },
                    },
                    None => {
                        return Err(RuntimeError::UnknownTokenId { token_id });
                    },
                };
                match recognizer.try_advance_bytes(&bytes) {
                    Ok(Advance::Rejected) => {
                        proof {
                            lemma_returned(&before, &*self);
                        }
                        return Err(RuntimeError::TokenNotAllowed { token_id });
                    },
                    Ok(_) => {},
                    Err(error) => {
                        proof {
                            lemma_returned(&before, &*self);
                        }
                        return Err(error);
                    },
                }
            },
        }
        proof {
            let now = *self;
            if let (GuideRuntime::Parser { recognizer: a }, GuideRuntime::Parser { recognizer: b }) =
                (now.runtime, before.runtime) {
                lemma_follows_language(*a, *b);
            }
        }
        self.commit(checkpoint, token_id, Ghost(before));
        Ok(())
    }

    /// A guide is of the same language as itself.
    pub proof fn lemma_kindred_self(&self)
        ensures
            self.kindred(self),
    {
    }

    /// What is kindred to a guide is kindred to what that is kindred to.
    pub proof fn lemma_kindred_join(&self, middle: &Self, other: &Self)
        requires
            self.kindred(middle),
            middle.kindred(other),
        ensures
            self.kindred(other),
    {
    }

    /// Goes back to a checkpoint of the state after the first `n` tokens.
    fn restore_guide(&mut self, checkpoint: &GuideCheckpoint, Ghost(n): Ghost<int>) -> (result: Result<
        (),
        RuntimeError,
    >)
        requires
            old(self).wf(),
            old(self).remembers(*checkpoint, n),
        ensures
            result is Ok,
            same_frame(final(self), old(self)),
            final(self).kindred(old(self)),
            final(self).equipped(),
            final(self).consistent(),
            !final(self).finished,
            final(self).history == old(self).history,
            final(self).mask_stats == old(self).mask_stats,
            final(self).committed_token_ids@ == old(self).committed_token_ids@.take(n),
            forall|c: GuideCheckpoint, m: int|
                m <= n && #[trigger] old(self).remembers(c, m) ==> final(self).remembers(c, m),
    {
        let ghost before = *self;
        let ghost tokens = self.committed_token_ids@;
        proof {
            lemma_spelled_part(self.reverse(), self.eos_token_id, tokens, n);
        }
        match &mut self.runtime {
            GuideRuntime::Dfa { state, .. } => match checkpoint {
                GuideCheckpoint::Dfa { state: saved, .. } => {
                    *state = *saved;
                },
                GuideCheckpoint::Parser { .. } => {
                    return Err(
                        RuntimeError::InternalInvariant {
                            message: "guide checkpoint belongs to a different backend",
                        },
                    );
                },
            },
            GuideRuntime::Parser { recognizer } => match checkpoint {
                GuideCheckpoint::Parser { recognizer: saved, .. } => {
                    let ghost moved = **recognizer;
                    let ghost h = before.bytes_of(tokens.take(n));
                    let ghost then = choose|then: RecognizerState| #[trigger]
                        saved.captures(&then) && then.wf() && moved.follows(&then)
                            && then.recognizes(h);
                    assert(!saved.foreign(&moved));
                    let restored = recognizer.restore(saved);
                    proof {
                        recognizer.lemma_alike(&then);
                        recognizer.lemma_alike_turn(&then);
                        moved.lemma_follows_alike(&then, &**recognizer);
                        lemma_follows_language(moved, **recognizer);
                    }
                    match restored {
                        Ok(()) => {},
                        Err(error) => {
                            return Err(error);
                        },
                    }
                },
                GuideCheckpoint::Dfa { .. } => {
                    return Err(
                        RuntimeError::InternalInvariant {
                            message: "guide checkpoint belongs to a different backend",
                        },
                    );
                },
            },
        }
        let (committed_tokens, committed_bytes, finished): (usize, usize, bool) = match checkpoint {
            GuideCheckpoint::Dfa { committed_tokens, committed_bytes, finished, .. } => (
                *committed_tokens,
                *committed_bytes,
                *finished,
            ),
            GuideCheckpoint::Parser { committed_tokens, committed_bytes, finished, .. } => (
                *committed_tokens,
                *committed_bytes,
                *finished,
            ),
        };
        self.committed_token_ids.truncate(committed_tokens);
        self.committed_bytes.truncate(committed_bytes);
        self.finished = finished;
        proof {
            assert(self.committed_token_ids@ =~= tokens.take(n));
            assert(self.committed_bytes@ =~= self.bytes_of(tokens.take(n)));
            assert forall|c: GuideCheckpoint, m: int| m <= n && #[trigger] before.remembers(
                c,
                m,
            ) implies self.remembers(c, m) by {
                assert(tokens.take(n).take(m) =~= tokens.take(m));
                lemma_came_back(&before, &*self, c, n, m);
            }
        }
        Ok(())
    }
}

impl Clone for GuideCheckpoint {
    fn clone(&self) -> (copy: Self)
        ensures
            forall|guide: Guide, n: int| #[trigger]
                guide.remembers(*self, n) ==> guide.remembers(copy, n),
    {
        match self {
            GuideCheckpoint::Dfa { state, committed_tokens, committed_bytes, finished } => {
                GuideCheckpoint::Dfa {
                    state: *state,
                    committed_tokens: *committed_tokens,
                    committed_bytes: *committed_bytes,
                    finished: *finished,
                }
            },
            GuideCheckpoint::Parser { recognizer, committed_tokens, committed_bytes, finished } => {
                let saved = recognizer.clone();
                let copy = GuideCheckpoint::Parser {
                    recognizer: saved,
                    committed_tokens: *committed_tokens,
                    committed_bytes: *committed_bytes,
                    finished: *finished,
                };
                proof {
                    assert forall|guide: Guide, n: int| #[trigger]
                        guide.remembers(*self, n) implies guide.remembers(copy, n) by {
                        if let GuideRuntime::Parser { recognizer: now } = guide.runtime {
                            let h = guide.bytes_of(guide.committed_token_ids@.take(n));
                            let then = choose|then: RecognizerState| #[trigger]
                                recognizer.captures(&then) && then.wf() && now.follows(&then)
                                    && then.recognizes(h);
                            assert(saved.captures(&then));
                            assert(captured(saved, *now, h));
                        }
                    }
                }
                copy
            },
        }
    }
}

/// What is promised of taking tokens back: so many as are asked for, if they can be, else none.
pub open spec fn rolls_back(
    before: &Guide,
    after: &Guide,
    count: usize,
    result: Result<(), RuntimeError>,
) -> bool {
    &&& result is Ok <==> count <= before.history@.len()
    &&& result matches Err(error) ==> error == (RuntimeError::RollbackUnavailable {
        requested: count,
        available: before.history@.len() as usize,
    }) && *after == *before
    &&& count == 0 ==> *after == *before
    &&& 0 < count <= before.history@.len() ==> {
        &&& after.committed_token_ids@ == before.committed_token_ids@.take(
            before.committed_token_ids@.len() - count,
        )
        &&& after.history@.len() == before.history@.len() - count
        &&& !after.finished
        &&& after.cached_mask is None
    }
}

impl Guide {
    /// Takes tokens back, if they can be.
    pub fn rollback(&mut self, count: usize) -> (result: Result<(), RuntimeError>)
        requires
            old(self).wf(),
        ensures
            final(self).wf(),
            final(self).kindred(old(self)),
            rolls_back(old(self), final(self), count, result),
    {
        proof {
            self.lemma_kindred_self();
        }
        if count == 0 {
            return Ok(());
        }
        let available: usize = self.history.len();
        if count > available {
            return Err(RuntimeError::RollbackUnavailable { requested: count, available });
        }
        let ghost before = *self;
        let ghost past = self.history@;
        let mut history: VecDeque<GuideCheckpoint> = VecDeque::new();
        std::mem::swap(&mut history, &mut self.history);
        let mut target: Option<GuideCheckpoint> = None;
        let mut taken: usize = 0;
        assert(past.take(past.len() as int) =~= past);
        while taken < count
            invariant
                taken <= count <= past.len(),
                history@ == past.take(past.len() - taken),
                taken > 0 ==> target == Some(past[past.len() - taken]),
            decreases count - taken,
        {
            target = history.pop_back();
            taken += 1;
            assert(past.take(past.len() - taken) =~= history@);
        }
        let checkpoint = match target {
            Some(checkpoint) => checkpoint,
            None => {
                return Ok(());
            },
        };
        let ghost n = before.committed_token_ids@.len() - count;
        let ghost stripped = *self;
        proof {
            assert(before.remembers(past[past.len() - count], n));
            lemma_frames(&before, &stripped);
        }
        let restored = self.restore_guide(&checkpoint, Ghost(n));
        self.history = history;
        self.cached_mask = None;
        self.mask_stats.cache_bytes = 0;
        proof {
            assert forall|c: GuideCheckpoint, m: int|
                m <= n && #[trigger] before.remembers(c, m) implies self.remembers(c, m) by {
                assert(stripped.remembers(c, m));
            }
            assert(self.remembers(self.initial, 0)) by {
                assert(before.remembers(before.initial, 0));
            }
            assert forall|k: int| 0 <= k < self.history@.len() implies self.remembers(
                #[trigger] self.history@[k],
                self.committed_token_ids@.len() - self.history@.len() + k,
            ) by {
                assert(self.history@[k] == past[k]);
                assert(before.remembers(
                    before.history@[k],
                    before.committed_token_ids@.len() - before.history@.len() + k,
                ));
            }
        }
        restored
    }

    /// Goes back to the start.
    pub fn reset(&mut self) -> (result: Result<(), RuntimeError>)
        requires
            old(self).wf(),
        ensures
            result is Ok,
            final(self).wf(),
            final(self).kindred(old(self)),
            final(self).committed_token_ids@.len() == 0,
            final(self).committed_bytes@.len() == 0,
            final(self).history@.len() == 0,
            !final(self).finished,
            final(self).mask_stats == MaskStats::nothing(),
            final(self).cached_mask is None,
    {
        let ghost before = *self;
        let initial = self.initial.clone();
        let restored = self.restore_guide(&initial, Ghost(0));
        self.history = VecDeque::new();
        self.mask_stats = MaskStats::default();
        self.cached_mask = None;
        proof {
            assert(before.remembers(before.initial, 0));
            assert(self.committed_token_ids@ =~= Seq::<u32>::empty());
        }
        restored
    }
}

/// Guides that differ only in their histories remember the same.
proof fn lemma_frames(before: &Guide, after: &Guide)
    requires
        before.wf(),
        same_frame(after, before),
        after.runtime == before.runtime,
        after.finished == before.finished,
        after.committed_token_ids == before.committed_token_ids,
        after.committed_bytes == before.committed_bytes,
        after.cached_mask == before.cached_mask,
        after.history@.len() == 0,
    ensures
        after.wf(),
        after.kindred(before),
        before.kindred(after),
        forall|c: GuideCheckpoint, m: int| #[trigger]
            before.remembers(c, m) ==> after.remembers(c, m),
{
}

/// Tokens that are committed and taken back leave the guide where it was: with the same tokens, the
/// same bytes, and a runtime in the state after them.
pub proof fn law_rollback_returns(before: &Guide, after: &Guide)
    requires
        before.wf(),
        after.wf(),
        after.kindred(before),
        after.committed_token_ids@ == before.committed_token_ids@,
    ensures
        after.committed_bytes@ == before.committed_bytes@,
        after.finished == before.finished,
        match (before.runtime, after.runtime) {
            (GuideRuntime::Dfa { state: a, .. }, GuideRuntime::Dfa { state: b, .. }) => a == b,
            (
                GuideRuntime::Parser { recognizer: a },
                GuideRuntime::Parser { recognizer: b },
            ) => a.recognizes(before.committed_bytes@) && b.recognizes(before.committed_bytes@),
            _ => false,
        },
{
}

/// Clears a mask.
fn clear(words: &mut Vec<u32>)
    ensures
        final(words)@.len() == old(words)@.len(),
        forall|i: int| 0 <= i < final(words)@.len() ==> #[trigger] final(words)@[i] == 0,
        forall|id: u32| !#[trigger] mask::bit(final(words)@, id),
{
    let mut index: usize = 0;
    let ghost length = words@.len();
    while index < words.len()
        invariant
            index <= words@.len() == length == old(words)@.len(),
            forall|i: int| 0 <= i < index ==> #[trigger] words@[i] == 0,
        decreases words@.len() - index,
    {
        words.set(index, 0);
        index += 1;
    }
    proof {
        assert forall|id: u32| !#[trigger] mask::bit(words@, id) by {
            if id / 32 < words@.len() {
                mask::lemma_zero(id % 32);
            }
        }
    }
}

/// Copies the first words of a list.
fn first_words(words: &Vec<u32>, count: usize) -> (copy: Vec<u32>)
    requires
        count <= words@.len(),
    ensures
        copy@ == words@.take(count as int),
{
    let mut copy: Vec<u32> = Vec::new();
    while copy.len() < count
        invariant
            copy@.len() <= count <= words@.len(),
            forall|i: int| 0 <= i < copy@.len() ==> copy@[i] == words@[i],
        decreases count - copy@.len(),
    {
        let word: u32 = words[copy.len()];
        copy.push(word);
    }
    assert(copy@ =~= words@.take(count as int));
    copy
}

impl Guide {
    /// The bits of a mask lie within its words.
    proof fn lemma_bits_within(&self, words: Seq<u32>, id: u32)
        requires
            self.wf(),
            self.mask_is(words),
            mask::bit(words, id),
        ensures
            id / 32 < self.mask_words,
    {
        if let GuideRuntime::Parser { recognizer } = self.runtime {
            let derived = *self.vocabulary->0;
            let entries = choose|entries: Seq<TokenEntry>| #[trigger]
                self.vocabulary->0.derives(entries);
            assert(mask::masks(*recognizer, self.eos_token_id, entries, words));
            assert(mask::allowed(*recognizer, self.eos_token_id, entries, id));
            if id != self.eos_token_id {
                let bytes = choose|bytes: Seq<u8>| #[trigger]
                    vocabulary::names(entries, bytes, id) && mask::leads_on(*recognizer, bytes);
                assert(id < derived.vocab_size);
            }
        }
        assert(id < self.vocab_size);
    }

    /// Masks with the same bits are masks of the same state.
    proof fn lemma_same_bits(&self, a: Seq<u32>, b: Seq<u32>)
        requires
            self.mask_is(a),
            forall|id: u32|
                #![trigger mask::bit(a, id)]
                #![trigger mask::bit(b, id)]
                mask::bit(a, id) <==> mask::bit(b, id),
        ensures
            self.mask_is(b),
    {
        if !self.finished {
            if let GuideRuntime::Parser { recognizer } = self.runtime {
                assert forall|entries: Seq<TokenEntry>|
                    self.vocabulary is Some && #[trigger] self.vocabulary->0.derives(
                        entries,
                    ) implies mask::masks(*recognizer, self.eos_token_id, entries, b) by {
                    assert(mask::masks(*recognizer, self.eos_token_id, entries, a));
                }
            }
        }
    }

    /// Keeps a mask for the next query.
    fn remember_mask(&mut self, destination: &Vec<u32>)
        requires
            old(self).wf(),
            old(self).mask_is(destination@),
            old(self).mask_words <= destination@.len(),
        ensures
            final(self).wf(),
            final(self).same(old(self)),
            final(self).runtime == old(self).runtime,
            final(self).cached_mask is Some,
            final(self).mask_is(destination@),
            final(self).mask_stats == (MaskStats {
                cache_bytes: if old(self).mask_words * 4 > u64::MAX {
                    u64::MAX
                } else {
                    (old(self).mask_words * 4) as u64
                },
                ..old(self).mask_stats
            }),
    {
        let ghost before = *self;
        let cached: Vec<u32> = first_words(destination, self.mask_words);
        proof {
            assert forall|id: u32| #[trigger] mask::bit(destination@, id) <==> mask::bit(
                cached@,
                id,
            ) by {
                if mask::bit(destination@, id) {
                    self.lemma_bits_within(destination@, id);
                }
            }
            self.lemma_same_bits(destination@, cached@);
        }
        self.mask_stats.cache_bytes =
        match (self.mask_words as u64).checked_mul(4) {
            Some(bytes) => bytes,
            None => u64::MAX,
        };
        self.cached_mask = Some(cached);
        proof {
            lemma_quiet(&before, &*self);
        }
    }

    /// Sets the bits of the tokens that may come next. The guide stays where it is.
    pub fn fill_mask(&mut self, destination: &mut Vec<u32>) -> (result: Result<(), RuntimeError>)
        requires
            old(self).wf(),
        ensures
            final(self).wf(),
            final(self).same(old(self)),
            final(destination)@.len() == old(destination)@.len(),
            old(destination)@.len() < old(self).mask_words ==> result == Err::<(), RuntimeError>(
                RuntimeError::InternalInvariant {
                    message: "mask destination is shorter than mask_words",
                },
            ) && *final(self) == *old(self) && final(destination)@ == old(destination)@,
            result is Ok ==> final(self).mask_is(final(destination)@),
            old(destination)@.len() >= old(self).mask_words ==> (result matches Err(error)
                ==> old(self).runtime is Parser && mask::walk_error(
                *old(self).runtime->Parser_recognizer,
                *old(self).vocabulary->0.trie,
                old(self).limits,
                error,
            ) && forall|id: u32| !#[trigger] mask::bit(final(destination)@, id)),
            old(self).runtime is Dfa && old(destination)@.len() >= old(self).mask_words ==> result is Ok,
    {
        proof {
            lemma_quiet(&*self, &*self);
        }
        if destination.len() < self.mask_words {
            return Err(
                RuntimeError::InternalInvariant {
                    message: "mask destination is shorter than mask_words",
                },
            );
        }
        clear(destination);
        let ghost before = *self;
        self.mask_stats.queries = self.mask_stats.queries.saturating_add(1);
        if let Some(cached) = &self.cached_mask {
            let mut index: usize = 0;
            let ghost length = destination@.len();
            while index < cached.len()
                invariant
                    index <= cached@.len() <= destination@.len() == length,
                    forall|i: int| 0 <= i < index ==> destination@[i] == cached@[i],
                    forall|i: int| index <= i < length ==> #[trigger] destination@[i] == 0,
                decreases cached@.len() - index,
            {
                let word: u32 = cached[index];
                destination.set(index, word);
                index += 1;
            }
            let ghost words = cached@;
            proof {
                assert forall|id: u32| #[trigger] mask::bit(words, id) <==> mask::bit(
                    destination@,
                    id,
                ) by {
                    if id / 32 >= words.len() && id / 32 < destination@.len() {
                        mask::lemma_zero(id % 32);
                    }
                }
                before.lemma_same_bits(words, destination@);
            }
            self.mask_stats.cache_hits = self.mask_stats.cache_hits.saturating_add(1);
            proof {
                lemma_quiet(&before, &*self);
            }
            return Ok(());
        }
        self.mask_stats.cache_misses = self.mask_stats.cache_misses.saturating_add(1);
        proof {
            lemma_quiet(&before, &*self);
        }
        if self.finished {
            self.remember_mask(&*destination);
            return Ok(());
        }
        let mut stats: MaskStats = self.mask_stats;
        match &mut self.runtime {
            GuideRuntime::Dfa { index, state } => {
                if let Some(tokens) = index.allowed_tokens(state) {
                    let mut position: usize = 0;
                    let ghost length = destination@.len();
                    while position < tokens.len()
                        invariant
                            position <= tokens@.len(),
                            destination@.len() == length >= before.mask_words,
                            before.wf(),
                            before.runtime == (GuideRuntime::Dfa { index: *index, state: *state }),
                            index.transitions@.dom().contains(*state),
                            forall|id: u32|
                                tokens@.contains(id)
                                    <==> #[trigger] index.transitions@[*state]@.dom().contains(id),
                            forall|id: u32| #[trigger]
                                mask::bit(destination@, id) <==> exists|k: int|
                                    0 <= k < position && #[trigger] tokens@[k] == id,
                        decreases tokens@.len() - position,
                    {
                        let token: u32 = tokens[position];
                        let ghost words = destination@;
                        assert(tokens@.contains(token));
                        assert(index.transitions@[*state]@.dom().contains(token));
                        assert(token < before.vocab_size);
                        match mask::set_mask_bit(destination, token) {
                            Ok(()) => {},
                            Err(error) => {
                                return Err(error);
                            },
                        }
                        stats.token_ids_enabled = stats.token_ids_enabled.saturating_add(1);
                        proof {
                            assert forall|id: u32| #[trigger]
                                mask::bit(destination@, id) <==> exists|k: int|
                                    0 <= k < position + 1 && #[trigger] tokens@[k] == id by {
                                if mask::bit(words, id) {
                                    let k = choose|k: int|
                                        0 <= k < position && #[trigger] tokens@[k] == id;
                                    assert(tokens@[k] == id);
                                }
                                if id == token {
                                    assert(tokens@[position as int] == id);
                                }
                            }
                        }
                        position += 1;
                    }
                    proof {
                        assert forall|id: u32| #[trigger]
                            mask::bit(destination@, id) <==> tokens@.contains(id) by {
                            if tokens@.contains(id) {
                                let k = choose|k: int| 0 <= k < tokens@.len() && tokens@[k] == id;
                                assert(tokens@[k] == id);
                            }
                        }
                    }
                }
            },
            GuideRuntime::Parser { recognizer } => {
                let vocabulary = match &self.vocabulary {
                    Some(vocabulary) => Arc::clone(vocabulary),
                    None => {
                        return Err(
                            RuntimeError::InternalInvariant {
                                message: "structural guide has no derived vocabulary",
                            },
                        );
                    },
                };
                let ghost entries = choose|entries: Seq<TokenEntry>| #[trigger]
                    vocabulary.derives(entries);
                let ghost root = **recognizer;
                let filled = mask::fill_structural_mask(
                    recognizer,
                    &vocabulary,
                    destination,
                    &self.limits,
                    &mut stats,
                    Ghost(entries),
                );
                match filled {
                    Ok(()) => {
                        proof {
                            assert forall|other: Seq<TokenEntry>| #[trigger]
                                vocabulary.derives(other) implies mask::masks(
                                **recognizer,
                                before.eos_token_id,
                                other,
                                destination@,
                            ) by {
                                lemma_masks_names(
                                    &*vocabulary,
                                    root,
                                    before.eos_token_id,
                                    entries,
                                    other,
                                    destination@,
                                );
                                lemma_masks_alike(
                                    root,
                                    **recognizer,
                                    before.eos_token_id,
                                    other,
                                    destination@,
                                );
                            }
                        }
                    },
                    Err(error) => {
                        clear(destination);
                        stats.errors = stats.errors.saturating_add(1);
                        self.mask_stats = stats;
                        proof {
                            lemma_returned(&before, &*self);
                        }
                        return Err(error);
                    },
                }
            },
        }
        self.mask_stats = stats;
        proof {
            if before.runtime is Parser {
                lemma_returned(&before, &*self);
            } else {
                lemma_quiet(&before, &*self);
            }
        }
        let ghost middle = *self;
        self.remember_mask(&*destination);
        proof {
            lemma_same_join(&*self, &middle, &before);
        }
        Ok(())
    }
}

/// A guide of which only the counts or the kept mask change stays where it is.
proof fn lemma_quiet(before: &Guide, after: &Guide)
    requires
        before.wf(),
        same_frame(after, before),
        after.runtime == before.runtime,
        after.history == before.history,
        after.finished == before.finished,
        after.committed_token_ids == before.committed_token_ids,
        after.committed_bytes == before.committed_bytes,
        after.cached_mask matches Some(words) ==> words@.len() == after.mask_words && after.mask_is(
            words@,
        ),
    ensures
        after.wf(),
        after.same(before),
{
    match after.runtime {
        GuideRuntime::Parser { recognizer } => {
            recognizer.lemma_alike_self();
            recognizer.lemma_follows_self();
            lemma_follows_language(*recognizer, *recognizer);
        },
        _ => {},
    }
    assert forall|k: int| 0 <= k < after.history@.len() implies after.remembers(
        #[trigger] after.history@[k],
        after.committed_token_ids@.len() - after.history@.len() + k,
    ) by {
        lemma_remembers(
            before,
            after,
            before.history@[k],
            before.committed_token_ids@.len() - before.history@.len() + k,
        );
    }
    lemma_remembers(before, after, before.initial, 0);
}

/// Standing at the same place carries over.
proof fn lemma_same_join(a: &Guide, b: &Guide, c: &Guide)
    requires
        a.same(b),
        b.same(c),
    ensures
        a.same(c),
{
    match (a.runtime, b.runtime, c.runtime) {
        (
            GuideRuntime::Parser { recognizer: x },
            GuideRuntime::Parser { recognizer: y },
            GuideRuntime::Parser { recognizer: z },
        ) => {
            x.lemma_alike_join(&*y, &*z);
        },
        _ => {},
    }
}

/// Whether the bit of an identifier is set.
fn has_bit(words: &Vec<u32>, id: u32) -> (set: bool)
    ensures
        set == mask::bit(words@, id),
{
    let word: usize = (id / 32) as usize;
    word < words.len() && words[word] & (1u32 << (id % 32)) != 0
}

impl Guide {
    /// The tokens that may come next, in ascending order.
    pub fn get_tokens(&mut self) -> (result: Result<Vec<u32>, RuntimeError>)
        requires
            old(self).wf(),
        ensures
            final(self).wf(),
            final(self).same(old(self)),
            old(self).runtime is Dfa ==> result is Ok,
            result matches Ok(tokens) ==> {
                &&& forall|i: int, j: int| 0 <= i < j < tokens@.len() ==> tokens@[i] < tokens@[j]
                &&& exists|words: Seq<u32>| #[trigger]
                    final(self).mask_is(words) && forall|id: u32|
                        tokens@.contains(id) <==> #[trigger] mask::bit(words, id)
            },
            result matches Err(error) ==> old(self).runtime is Parser && mask::walk_error(
                *old(self).runtime->Parser_recognizer,
                *old(self).vocabulary->0.trie,
                old(self).limits,
                error,
            ),
    {
        let mut words: Vec<u32> = Vec::new();
        let count: usize = self.mask_words;
        while words.len() < count
            invariant
                words@.len() <= count,
            decreases count - words@.len(),
        {
            words.push(0);
        }
        match self.fill_mask(&mut words) {
            Ok(()) => {},
            Err(error) => {
                return Err(error);
            },
        }
        let mut tokens: Vec<u32> = Vec::new();
        let mut token: usize = 0;
        while token < self.vocab_size
            invariant
                token <= self.vocab_size <= u32::MAX + 1,
                forall|i: int, j: int| 0 <= i < j < tokens@.len() ==> tokens@[i] < tokens@[j],
                forall|i: int|
                    0 <= i < tokens@.len() ==> #[trigger] tokens@[i] < token && mask::bit(
                        words@,
                        tokens@[i],
                    ),
                forall|id: u32| #[trigger]
                    mask::bit(words@, id) && id < token ==> tokens@.contains(id),
            decreases self.vocab_size - token,
        {
            let id: u32 = token as u32;
            let ghost before = tokens@;
            if has_bit(&words, id) {
                tokens.push(id);
                assert(tokens@[before.len() as int] == id);
            }
            token += 1;
            proof {
                assert forall|other: u32| #[trigger]
                    mask::bit(words@, other) && other < token implies tokens@.contains(other) by {
                    if other < id {
                        assert(before.contains(other));
                        let k = choose|k: int| 0 <= k < before.len() && before[k] == other;
                        assert(tokens@[k] == other);
                    }
                }
            }
        }
        proof {
            assert forall|id: u32| tokens@.contains(id) <==> #[trigger] mask::bit(words@, id) by {
                if mask::bit(words@, id) {
                    self.lemma_bits_known(words@, id);
                }
            }
        }
        Ok(tokens)
    }

    /// The bits of a mask are of identifiers of the vocabulary.
    proof fn lemma_bits_known(&self, words: Seq<u32>, id: u32)
        requires
            self.wf(),
            self.mask_is(words),
            mask::bit(words, id),
        ensures
            id < self.vocab_size,
    {
        if let GuideRuntime::Parser { recognizer } = self.runtime {
            let derived = *self.vocabulary->0;
            let entries = choose|entries: Seq<TokenEntry>| #[trigger]
                self.vocabulary->0.derives(entries);
            assert(mask::masks(*recognizer, self.eos_token_id, entries, words));
            assert(mask::allowed(*recognizer, self.eos_token_id, entries, id));
            if id != self.eos_token_id {
                let bytes = choose|bytes: Seq<u8>| #[trigger]
                    vocabulary::names(entries, bytes, id) && mask::leads_on(*recognizer, bytes);
                assert(id < derived.vocab_size);
            }
        }
    }

    /// Whether tokens could be committed one after the other, without the one that ends a sequence.
    /// The guide stays where it is.
    pub fn accepts_tokens(&mut self, sequence: &[u32]) -> (accepted: bool)
        requires
            old(self).wf(),
        ensures
            final(self).wf(),
            final(self).same(old(self)),
            sequence@.contains(old(self).eos_token_id) ==> !accepted,
            sequence@.len() == 0 ==> accepted,
            old(self).finished && sequence@.len() > 0 ==> !accepted,
            old(self).committed_token_ids@.len() + sequence@.len()
                > old(self).limits.max_committed_tokens && sequence@.len() > 0 ==> !accepted,
            old(self).runtime matches GuideRuntime::Dfa { index, state } ==> (!sequence@.contains(
                old(self).eos_token_id,
            ) && !old(self).finished && old(self).committed_token_ids@.len() + sequence@.len()
                <= old(self).limits.max_committed_tokens ==> accepted == (index_after(
                &*index,
                old(self).committed_token_ids@ + sequence@,
            ) is Some)),
            old(self).runtime matches GuideRuntime::Parser { recognizer } ==> (accepted
                ==> reads_all(*recognizer, old(self).reverse(), sequence@)),
            old(self).runtime matches GuideRuntime::Parser { recognizer } ==> (!accepted
                && !sequence@.contains(old(self).eos_token_id) && !old(self).finished
                && old(self).committed_token_ids@.len() + sequence@.len()
                <= old(self).limits.max_committed_tokens ==> stopped(
                *recognizer,
                old(self).reverse(),
                old(self).committed_bytes@,
                old(self).eos_token_id,
                sequence@,
            )),
    {
        let ghost before = *self;
        proof {
            lemma_quiet(&*self, &*self);
        }
        if holds_token(sequence, self.eos_token_id) {
            return false;
        }
        if sequence.len() == 0 {
            proof {
                if let GuideRuntime::Parser { recognizer } = before.runtime {
                    recognizer.lemma_follows_self();
                    lemma_reads_none(*recognizer, before.reverse(), sequence@);
                }
                assert(before.committed_token_ids@ + sequence@ =~= before.committed_token_ids@);
            }
            return true;
        }
        if self.finished {
            return false;
        }
        match self.committed_token_ids.len().checked_add(sequence.len()) {
            Some(total) => {
                if total > self.limits.max_committed_tokens {
                    return false;
                }
            },
            None => {
                return false;
            },
        }
        if let GuideRuntime::Dfa { index, state } = &self.runtime {
            return index_accepts(index, *state, sequence, Ghost(before.committed_token_ids@));
        }
        match &mut self.runtime {
            GuideRuntime::Dfa { .. } => false,
            GuideRuntime::Parser { recognizer } => {
                let vocabulary = match &self.vocabulary {
                    Some(vocabulary) => Arc::clone(vocabulary),
                    None => {
                        return false;
                    },
                };
                let accepted = read_all(recognizer, &vocabulary, sequence, Ghost(before.committed_bytes@));
                proof {
                    lemma_returned(&before, &*self);
                }
                accepted
            },
        }
    }
}

/// Whether a token is among others.
fn holds_token(sequence: &[u32], token: u32) -> (found: bool)
    ensures
        found == sequence@.contains(token),
{
    let mut index: usize = 0;
    while index < sequence.len()
        invariant
            index <= sequence@.len(),
            forall|i: int| 0 <= i < index ==> #[trigger] sequence@[i] != token,
        decreases sequence@.len() - index,
    {
        if sequence[index] == token {
            assert(sequence@[index as int] == token);
            return true;
        }
        index += 1;
    }
    false
}

/// Whether an index allows tokens one after the other.
fn index_accepts(
    index: &Index,
    state: u32,
    sequence: &[u32],
    Ghost(tokens): Ghost<Seq<u32>>,
) -> (accepted: bool)
    requires
        index_after(index, tokens) == Some(state),
        !sequence@.contains(index.eos_token_id),
    ensures
        accepted == (index_after(index, tokens + sequence@) is Some),
{
    let mut current: u32 = state;
    let mut position: usize = 0;
    assert(tokens + sequence@.take(0) =~= tokens);
    while position < sequence.len()
        invariant
            position <= sequence@.len(),
            !sequence@.contains(index.eos_token_id),
            index_after(index, tokens + sequence@.take(position as int)) == Some(current),
        decreases sequence@.len() - position,
    {
        let ghost longer = tokens + sequence@.take(position + 1);
        assert(longer.drop_last() =~= tokens + sequence@.take(position as int));
        assert(longer.last() == sequence@[position as int]);
        assert(sequence@.contains(sequence@[position as int]));
        match index.next_state(&current, &sequence[position]) {
            Some(next) => {
                current = next;
            },
            None => {
                proof {
                    lemma_index_ends(index, tokens, sequence@, position + 1);
                }
                return false;
            },
        }
        position += 1;
    }
    assert(sequence@.take(position as int) =~= sequence@);
    true
}

/// The bytes of tokens, one after the other.
pub open spec fn joined(reverse: Seq<Option<Arc<[u8]>>>, tokens: Seq<u32>) -> Seq<u8>
    decreases tokens.len(),
{
    if tokens.len() == 0 {
        Seq::empty()
    } else {
        joined(reverse, tokens.drop_last()) + token_bytes(reverse, tokens.last())
    }
}

/// Whether a recognizer reads the bytes of tokens, all of which are known.
pub open spec fn reads_all(
    root: RecognizerState,
    reverse: Seq<Option<Arc<[u8]>>>,
    tokens: Seq<u32>,
) -> bool {
    &&& forall|i: int|
        0 <= i < tokens.len() ==> (#[trigger] tokens[i]) < reverse.len()
            && reverse[tokens[i] as int] is Some
    &&& exists|state: RecognizerState| #[trigger]
        mask::reads_to(root, joined(reverse, tokens), state)
}

/// Whether a recognizer stops at some of the tokens: one is not known, no string of the language
/// goes on with it, or a limit is exceeded.
pub open spec fn stopped(
    root: RecognizerState,
    reverse: Seq<Option<Arc<[u8]>>>,
    h: Seq<u8>,
    eos: u32,
    tokens: Seq<u32>,
) -> bool {
    ||| exists|i: int|
        0 <= i < tokens.len() && !((#[trigger] tokens[i]) < reverse.len()
            && reverse[tokens[i] as int] is Some)
    ||| root.faithful() ==> !root.viable(h + joined(reverse, tokens))
    ||| exists|error: RuntimeError| #[trigger]
        recognizer::halts(root, joined(reverse, tokens), error)
}

/// Without tokens nothing is read.
proof fn lemma_reads_none(
    root: RecognizerState,
    reverse: Seq<Option<Arc<[u8]>>>,
    tokens: Seq<u32>,
)
    requires
        root.wf(),
        root.follows(&root),
        tokens.len() == 0,
    ensures
        reads_all(root, reverse, tokens),
{
    assert forall|h: Seq<u8>| root.recognizes(h) implies root.recognizes(
        #[trigger] (h + joined(reverse, tokens)),
    ) by {
        assert(h + joined(reverse, tokens) =~= h);
    }
    assert(mask::reads_to(root, joined(reverse, tokens), root));
}

/// A walk through an index that has ended does not go on.
proof fn lemma_index_ends(index: &Index, tokens: Seq<u32>, sequence: Seq<u32>, n: int)
    requires
        0 <= n <= sequence.len(),
        index_after(index, tokens + sequence.take(n)) is None,
    ensures
        index_after(index, tokens + sequence) is None,
    decreases sequence.len() - n,
{
    if n < sequence.len() {
        assert((tokens + sequence.take(n + 1)).drop_last() =~= tokens + sequence.take(n));
        lemma_index_ends(index, tokens, sequence, n + 1);
    } else {
        assert(sequence.take(n) =~= sequence);
    }
}

/// Reads the bytes of tokens, and goes back.
fn read_all(
    recognizer: &mut RecognizerState,
    vocabulary: &DerivedVocabulary,
    sequence: &[u32],
    Ghost(h): Ghost<Seq<u8>>,
) -> (accepted: bool)
    requires
        old(recognizer).wf(),
        old(recognizer).recognizes(h),
    ensures
        final(recognizer).alike(old(recognizer)),
        accepted ==> reads_all(*old(recognizer), vocabulary.reverse@, sequence@),
        !accepted ==> forall|eos: u32| #[trigger]
            stopped(*old(recognizer), vocabulary.reverse@, h, eos, sequence@),
{
    let ghost root = *recognizer;
    let ghost reverse = vocabulary.reverse@;
    let checkpoint = recognizer.checkpoint();
    let mut position: usize = 0;
    let mut accepted = true;
    proof {
        root.lemma_follows_self();
        assert(sequence@.take(0) =~= Seq::<u32>::empty());
        lemma_reads_none(root, reverse, sequence@.take(0));
        assert forall|h: Seq<u8>| root.recognizes(h) implies root.recognizes(
            #[trigger] (h + joined(reverse, sequence@.take(0))),
        ) by {
            assert(h + joined(reverse, sequence@.take(0)) =~= h);
        }
    }
    while accepted && position < sequence.len()
        invariant
            position <= sequence@.len(),
            root == *old(recognizer),
            reverse == vocabulary.reverse@,
            root.wf(),
            root.recognizes(h),
            checkpoint.captures(&root),
            recognizer.wf(),
            recognizer.follows(&root),
            accepted ==> mask::reads_to(
                root,
                joined(reverse, sequence@.take(position as int)),
                *recognizer,
            ),
            accepted ==> forall|i: int|
                0 <= i < position ==> (#[trigger] sequence@[i]) < reverse.len()
                    && reverse[sequence@[i] as int] is Some,
            !accepted ==> forall|eos: u32| #[trigger] stopped(root, reverse, h, eos, sequence@),
        decreases sequence@.len() - position,
    {
        let token: u32 = sequence[position];
        let ghost part = sequence@.take(position as int);
        let ghost more = sequence@.take(position + 1);
        proof {
            assert(more.drop_last() =~= part);
            assert(more.last() == token);
        }
        match vocabulary.shared_bytes(token) {
            Some(bytes) => {
                let ghost before = *recognizer;
                let advanced = recognizer.try_advance_bytes(&bytes);
                proof {
                    recognizer.lemma_follows_join(&before, &root);
                    assert(token_bytes(reverse, token) == bytes@);
                }
                match advanced {
                    Ok(Advance::Rejected) => {
                        accepted = false;
                        proof {
                            if root.faithful() {
                                let read = h + joined(reverse, part);
                                assert(before.recognizes(read));
                                assert(!before.viable(read + bytes@));
                                lemma_joined_part(reverse, sequence@, position + 1);
                                let whole = joined(reverse, sequence@);
                                if root.viable(h + whole) {
                                    let rest = choose|rest: Seq<u8>| #[trigger]
                                        root.generates((h + whole) + rest);
                                    let length = joined(reverse, more).len() as int;
                                    let tail = whole.skip(length) + rest;
                                    assert(whole =~= whole.take(length) + whole.skip(length));
                                    assert(joined(reverse, more) == joined(reverse, part) + bytes@);
                                    assert((h + whole) + rest =~= (read + bytes@) + tail);
                                    assert(before.generates((read + bytes@) + tail));
                                }
                            }
                        }
                    },
                    Ok(_) => {
                        proof {
                            assert forall|h: Seq<u8>| root.recognizes(h) implies recognizer.recognizes(
                                #[trigger] (h + joined(reverse, more)),
                            ) by {
                                let read = h + joined(reverse, part);
                                assert(before.recognizes(read));
                                assert(read + bytes@ =~= h + joined(reverse, more));
                            }
                        }
                    },
                    Err(error) => {
                        accepted = false;
                        proof {
                            let whole = joined(reverse, sequence@);
                            lemma_joined_part(reverse, sequence@, position + 1);
                            assert(joined(reverse, more) == joined(reverse, part) + bytes@);
                            recognizer::lemma_halts_behind(
                                root,
                                before,
                                joined(reverse, part),
                                bytes@,
                                whole,
                                error,
                            );
                        }
                    },
                }
            },
            None => {
                accepted = false;
                assert(!(sequence@[position as int] < reverse.len()
                    && reverse[sequence@[position as int] as int] is Some));
            },
        }
        position += 1;
    }
    proof {
        if accepted {
            assert(sequence@.take(position as int) =~= sequence@);
        }
    }
    let ghost moved = *recognizer;
    match recognizer.restore(&checkpoint) {
        Ok(()) => {},
        Err(_) => {
            assert(!checkpoint.foreign(&moved));
        },
    }
    accepted
}

/// The bytes of the first tokens come first.
proof fn lemma_joined_part(reverse: Seq<Option<Arc<[u8]>>>, tokens: Seq<u32>, n: int)
    requires
        0 <= n <= tokens.len(),
    ensures
        joined(reverse, tokens.take(n)).len() <= joined(reverse, tokens).len(),
        joined(reverse, tokens).take(joined(reverse, tokens.take(n)).len() as int) == joined(
            reverse,
            tokens.take(n),
        ),
    decreases tokens.len(),
{
    if n == tokens.len() {
        assert(tokens.take(n) =~= tokens);
        let all = joined(reverse, tokens);
        assert(all.take(all.len() as int) =~= all);
    } else {
        lemma_joined_part(reverse, tokens.drop_last(), n);
        assert(tokens.drop_last().take(n) =~= tokens.take(n));
        let part = joined(reverse, tokens.take(n));
        let front = joined(reverse, tokens.drop_last());
        assert(joined(reverse, tokens).take(part.len() as int) =~= front.take(part.len() as int));
    }
}

/// A hash with one more byte.
pub open spec fn mix(hash: u64, byte: u8) -> u64 {
    (hash ^ (byte as u64)).wrapping_mul(0x100_0000_01b3)
}

/// A hash with more bytes.
pub open spec fn mix_bytes(hash: u64, bytes: Seq<u8>) -> u64
    decreases bytes.len(),
{
    if bytes.len() == 0 {
        hash
    } else {
        mix(mix_bytes(hash, bytes.drop_last()), bytes.last())
    }
}

/// The bytes of a number, the lowest first.
pub open spec fn low_first(value: u32) -> Seq<u8> {
    seq![
        (value & 0xff) as u8,
        ((value >> 8) & 0xff) as u8,
        ((value >> 16) & 0xff) as u8,
        ((value >> 24) & 0xff) as u8,
    ]
}

/// A hash with more numbers.
pub open spec fn mix_numbers(hash: u64, numbers: Seq<u32>) -> u64
    decreases numbers.len(),
{
    if numbers.len() == 0 {
        hash
    } else {
        mix_bytes(mix_numbers(hash, numbers.drop_last()), low_first(numbers.last()))
    }
}

/// Adds bytes to a hash.
fn hash_bytes(hash: u64, bytes: &[u8]) -> (mixed: u64)
    ensures
        mixed == mix_bytes(hash, bytes@),
{
    let mut mixed: u64 = hash;
    let mut index: usize = 0;
    assert(bytes@.take(0) =~= Seq::<u8>::empty());
    while index < bytes.len()
        invariant
            index <= bytes@.len(),
            mixed == mix_bytes(hash, bytes@.take(index as int)),
        decreases bytes@.len() - index,
    {
        assert(bytes@.take(index + 1).drop_last() =~= bytes@.take(index as int));
        mixed = (mixed ^ (bytes[index] as u64)).wrapping_mul(0x100_0000_01b3);
        index += 1;
    }
    assert(bytes@.take(index as int) =~= bytes@);
    mixed
}

/// The bytes of a number, the lowest first.
fn number_bytes(value: u32) -> (bytes: Vec<u8>)
    ensures
        bytes@ == low_first(value),
{
    let mut bytes: Vec<u8> = Vec::new();
    bytes.push((value & 0xff) as u8);
    bytes.push(((value >> 8) & 0xff) as u8);
    bytes.push(((value >> 16) & 0xff) as u8);
    bytes.push(((value >> 24) & 0xff) as u8);
    assert(bytes@ =~= low_first(value));
    bytes
}

impl Guide {
    /// The hash of what was committed.
    pub open spec fn fingerprint(&self) -> u64 {
        let start = if self.finished {
            0xcbf2_9ce4_8422_2325u64
        } else {
            0xcbf2_9ce4_8422_2324u64
        };
        mix_bytes(mix_numbers(start, self.committed_token_ids@), self.committed_bytes@)
    }

    /// The hash of what was committed.
    #[must_use]
    pub fn state_fingerprint(&self) -> (hash: u64)
        ensures
            hash == self.fingerprint(),
    {
        let start: u64 = if self.finished {
            0xcbf2_9ce4_8422_2325
        } else {
            0xcbf2_9ce4_8422_2324
        };
        let mut hash: u64 = start;
        let mut index: usize = 0;
        assert(self.committed_token_ids@.take(0) =~= Seq::<u32>::empty());
        while index < self.committed_token_ids.len()
            invariant
                index <= self.committed_token_ids@.len(),
                hash == mix_numbers(start, self.committed_token_ids@.take(index as int)),
            decreases self.committed_token_ids@.len() - index,
        {
            assert(self.committed_token_ids@.take(index + 1).drop_last()
                =~= self.committed_token_ids@.take(index as int));
            let bytes = number_bytes(self.committed_token_ids[index]);
            hash = hash_bytes(hash, bytes.as_slice());
            index += 1;
        }
        assert(self.committed_token_ids@.take(index as int) =~= self.committed_token_ids@);
        hash_bytes(hash, self.committed_bytes.as_slice())
    }
}

/// Guides with the same tokens of the same vocabulary have the same fingerprint.
pub proof fn law_same_tokens_same_fingerprint(a: &Guide, b: &Guide)
    requires
        a.wf(),
        b.wf(),
        a.kindred(b),
        a.committed_token_ids@ == b.committed_token_ids@,
    ensures
        a.fingerprint() == b.fingerprint(),
{
}

} // verus!
