//! The index of a vocabulary over an automaton: the tokens that every state allows.

use regex_automata::dfa::dense::DFA;
use rustc_hash::{FxHashMap, FxHashSet};
use vstd::prelude::*;

use crate::automaton::CompiledByteDfa;
use crate::dense;
use crate::error::{CompileError, CompileStage, Error};
use crate::fx;
use crate::text;
use crate::vocabulary;
use crate::vocabulary::{TokenEntry, Vocabulary};

verus! {

/// A deterministic automaton over bytes whose states are numbers.
pub trait ByteDfa {
    /// Whether the automaton can be walked.
    spec fn ready(&self) -> bool;

    /// Whether a state is one of the automaton.
    spec fn known(&self, state: u32) -> bool;

    /// The state that a walk starts in.
    spec fn first(&self) -> Option<u32>;

    /// The state that follows a state on a byte.
    spec fn after(&self, state: u32, byte: u8) -> u32;

    /// Whether nothing follows a state.
    spec fn ended(&self, state: u32) -> bool;

    /// Whether a state accepts.
    spec fn accepts_in(&self, state: u32) -> bool;

    /// Whether a walk may stop in a state.
    spec fn lives_in(&self, state: u32) -> bool;

    /// The state that a walk starts in.
    fn start_state(&self) -> (state: Option<u32>)
        requires
            self.ready(),
        ensures
            state == self.first(),
            state matches Some(s) ==> self.known(s),
    ;

    /// The state that follows a state on a byte.
    fn next_state(&self, state: u32, byte: u8) -> (next: u32)
        requires
            self.ready(),
            self.known(state),
        ensures
            next == self.after(state, byte),
            self.known(next),
    ;

    /// Whether nothing follows a state.
    fn is_dead(&self, state: u32) -> (dead: bool)
        requires
            self.ready(),
            self.known(state),
        ensures
            dead == self.ended(state),
    ;

    /// Whether a state accepts.
    fn is_accepting(&self, state: u32) -> (accepting: bool)
        requires
            self.ready(),
            self.known(state),
        ensures
            accepting == self.accepts_in(state),
    ;

    /// Whether a walk may stop in a state.
    fn is_live(&self, state: u32) -> (live: bool)
        requires
            self.ready(),
            self.known(state),
        ensures
            live == self.lives_in(state),
    ;
}

impl ByteDfa for CompiledByteDfa {
    open spec fn ready(&self) -> bool {
        self.wf()
    }

    open spec fn known(&self, state: u32) -> bool {
        true
    }

    open spec fn first(&self) -> Option<u32> {
        Some(0)
    }

    open spec fn after(&self, state: u32, byte: u8) -> u32 {
        self.step(state, byte)
    }

    open spec fn ended(&self, state: u32) -> bool {
        state >= self.states()
    }

    open spec fn accepts_in(&self, state: u32) -> bool {
        self.accepts_at(state)
    }

    open spec fn lives_in(&self, state: u32) -> bool {
        self.live_at(state)
    }

    fn start_state(&self) -> (state: Option<u32>) {
        Some(CompiledByteDfa::start_state(self))
    }

    fn next_state(&self, state: u32, byte: u8) -> (next: u32) {
        CompiledByteDfa::next_state(self, state, byte)
    }

    fn is_dead(&self, state: u32) -> (dead: bool) {
        CompiledByteDfa::is_dead(self, state)
    }

    fn is_accepting(&self, state: u32) -> (accepting: bool) {
        CompiledByteDfa::is_accepting(self, state)
    }

    fn is_live(&self, state: u32) -> (live: bool) {
        CompiledByteDfa::is_live(self, state)
    }
}

impl ByteDfa for DFA<Vec<u32>> {
    open spec fn ready(&self) -> bool {
        true
    }

    open spec fn known(&self, state: u32) -> bool {
        dense::dense_states(*self).contains(state)
    }

    open spec fn first(&self) -> Option<u32> {
        dense::dense_start(*self)
    }

    open spec fn after(&self, state: u32, byte: u8) -> u32 {
        dense::dense_next(*self, state, byte)
    }

    open spec fn ended(&self, state: u32) -> bool {
        dense::dense_over(*self, state)
    }

    open spec fn accepts_in(&self, state: u32) -> bool {
        dense::dense_final(*self, state)
    }

    open spec fn lives_in(&self, state: u32) -> bool {
        dense::dense_final(*self, state) || exists|byte: u8|
            !dense::dense_over(*self, #[trigger] dense::dense_next(*self, state, byte))
    }

    fn start_state(&self) -> (state: Option<u32>) {
        dense::start_state(self)
    }

    fn next_state(&self, state: u32, byte: u8) -> (next: u32) {
        dense::next_state(self, state, byte)
    }

    fn is_dead(&self, state: u32) -> (dead: bool) {
        dense::is_over(self, state)
    }

    fn is_accepting(&self, state: u32) -> (accepting: bool) {
        dense::is_final(self, state)
    }

    fn is_live(&self, state: u32) -> (live: bool) {
        if dense::is_final(self, state) {
            return true;
        }
        let mut byte: usize = 0;
        while byte < 256
            invariant
                byte <= 256,
                dense::dense_states(*self).contains(state),
                !dense::dense_final(*self, state),
                forall|b: u8|
                    b < byte ==> dense::dense_over(
                        *self,
                        #[trigger] dense::dense_next(*self, state, b),
                    ),
            decreases 256 - byte,
        {
            let next: u32 = dense::next_state(self, state, byte as u8);
            if !dense::is_over(self, next) {
                return true;
            }
            byte += 1;
        }
        false
    }
}

/// The state after reading bytes, unless the walk ended on the way.
pub open spec fn walk<D: ByteDfa>(dfa: &D, state: u32, bytes: Seq<u8>) -> Option<u32>
    decreases bytes.len(),
{
    if bytes.len() == 0 {
        Some(state)
    } else {
        match walk(dfa, state, bytes.drop_last()) {
            Some(before) => {
                let next = dfa.after(before, bytes.last());
                if dfa.ended(next) {
                    None
                } else {
                    Some(next)
                }
            },
            None => None,
        }
    }
}

/// The state to which a token leads from a state, if it leads on.
pub open spec fn target<D: ByteDfa>(dfa: &D, state: u32, bytes: Seq<u8>) -> Option<u32> {
    match walk(dfa, state, bytes) {
        Some(next) => if dfa.lives_in(next) {
            Some(next)
        } else {
            None
        },
        None => None,
    }
}

/// Whether an identifier leads from one state to another.
pub open spec fn leads<D: ByteDfa>(
    dfa: &D,
    entries: Seq<TokenEntry>,
    state: u32,
    id: u32,
    next: u32,
) -> bool {
    exists|i: int|
        0 <= i < entries.len() && (#[trigger] entries[i]).id == id && target(
            dfa,
            state,
            entries[i].bytes@,
        ) == Some(next)
}

/// Reads a token from a state.
fn read_token<D: ByteDfa>(dfa: &D, state: u32, bytes: &Vec<u8>) -> (next: Option<u32>)
    requires
        dfa.ready(),
        dfa.known(state),
    ensures
        next == target(dfa, state, bytes@),
        next matches Some(s) ==> dfa.known(s),
{
    let mut current: u32 = state;
    let mut index: usize = 0;
    assert(bytes@.take(0) =~= Seq::<u8>::empty());
    while index < bytes.len()
        invariant
            dfa.ready(),
            dfa.known(current),
            index <= bytes@.len(),
            walk(dfa, state, bytes@.take(index as int)) == Some(current),
        decreases bytes@.len() - index,
    {
        let ghost longer = bytes@.take(index + 1);
        assert(longer.drop_last() =~= bytes@.take(index as int));
        assert(longer.last() == bytes@[index as int]);
        current = dfa.next_state(current, bytes[index]);
        if dfa.is_dead(current) {
            proof {
                lemma_walk_ends(dfa, state, bytes@, index + 1);
            }
            return None;
        }
        index += 1;
    }
    assert(bytes@.take(index as int) =~= bytes@);
    if dfa.is_live(current) {
        Some(current)
    } else {
        None
    }
}

/// A walk that has ended does not go on.
proof fn lemma_walk_ends<D: ByteDfa>(dfa: &D, state: u32, bytes: Seq<u8>, n: int)
    requires
        0 <= n <= bytes.len(),
        walk(dfa, state, bytes.take(n)) is None,
    ensures
        walk(dfa, state, bytes) is None,
    decreases bytes.len() - n,
{
    if n < bytes.len() {
        assert(bytes.take(n + 1).drop_last() =~= bytes.take(n));
        lemma_walk_ends(dfa, state, bytes, n + 1);
    } else {
        assert(bytes.take(n) =~= bytes);
    }
}

/// An automaton of states, with the tokens that lead from one to another.
#[derive(Debug)]
pub struct Index {
    pub initial_state: u32,
    pub final_states: FxHashSet<u64>,
    pub transitions: FxHashMap<u32, FxHashMap<u32, u32>>,
    pub eos_token_id: u32,
    pub vocab_size: usize,
}

/// How dead ends are reported.
#[derive(Clone, Copy, Debug, PartialEq, Eq, Structural)]
pub enum ProjectionPolicy {
    Legacy,
    Exact,
}

/// Whether a row holds where the first `count` tokens lead from a state.
spec fn row_first<D: ByteDfa>(
    dfa: &D,
    entries: Seq<TokenEntry>,
    count: int,
    state: u32,
    row: Map<u32, u32>,
) -> bool {
    &&& forall|i: int|
        0 <= i < count ==> (target(dfa, state, (#[trigger] entries[i]).bytes@) matches Some(next)
            ==> row.dom().contains(entries[i].id) && row[entries[i].id] == next)
    &&& forall|id: u32| #[trigger]
        row.dom().contains(id) ==> leads(dfa, entries, state, id, row[id])
}

/// Whether a row holds where the tokens lead from a state, and that a sequence may end where the
/// state accepts.
pub open spec fn row_exact<D: ByteDfa>(
    dfa: &D,
    entries: Seq<TokenEntry>,
    eos: u32,
    state: u32,
    row: Map<u32, u32>,
) -> bool {
    &&& forall|id: u32, next: u32|
        id != eos ==> (#[trigger] leads(dfa, entries, state, id, next) <==> row.dom().contains(id)
            && row[id] == next)
    &&& dfa.accepts_in(state) ==> row.dom().contains(eos) && row[eos] == state
    &&& !dfa.accepts_in(state) && row.dom().contains(eos) ==> leads(
        dfa,
        entries,
        state,
        eos,
        row[eos],
    )
}

/// Whether a state can be reached from the first by tokens, in at most `n` steps.
pub open spec fn reaches<D: ByteDfa>(
    dfa: &D,
    entries: Seq<TokenEntry>,
    n: nat,
    state: u32,
) -> bool
    decreases n,
{
    ||| dfa.first() == Some(state)
    ||| n > 0 && exists|before: u32, i: int|
        #![trigger target(dfa, before, entries[i].bytes@)]
        0 <= i < entries.len() && reaches(dfa, entries, (n - 1) as nat, before) && target(
            dfa,
            before,
            entries[i].bytes@,
        ) == Some(state)
}

/// Whether a state can be reached from the first by tokens.
pub open spec fn reachable<D: ByteDfa>(dfa: &D, entries: Seq<TokenEntry>, state: u32) -> bool {
    exists|n: nat| #[trigger] reaches(dfa, entries, n, state)
}

/// Whether an identifier leads from a state to two.
pub open spec fn splits<D: ByteDfa>(
    dfa: &D,
    entries: Seq<TokenEntry>,
    state: u32,
    id: u32,
) -> bool {
    exists|a: u32, b: u32|
        a != b && #[trigger] leads(dfa, entries, state, id, a) && #[trigger] leads(
            dfa,
            entries,
            state,
            id,
            b,
        )
}

/// Finds where the tokens lead from a state.
fn find_row<D: ByteDfa>(dfa: &D, vocabulary: &Vocabulary, state: u32) -> (result: Result<
    FxHashMap<u32, u32>,
    Error,
>)
    requires
        dfa.ready(),
        dfa.known(state),
    ensures
        result matches Ok(row) ==> row_first(
            dfa,
            vocabulary.entries@,
            vocabulary.entries@.len() as int,
            state,
            row@,
        ) && forall|id: u32| #[trigger] row@.dom().contains(id) ==> dfa.known(row@[id]),
        result matches Err(error) ==> (error matches Error::AmbiguousTokenId { token_id } && splits(
            dfa,
            vocabulary.entries@,
            state,
            token_id,
        )),
{
    let mut row: FxHashMap<u32, u32> = fx::map_new();
    let mut index: usize = 0;
    while index < vocabulary.entries.len()
        invariant
            dfa.ready(),
            dfa.known(state),
            index <= vocabulary.entries@.len(),
            row_first(dfa, vocabulary.entries@, index as int, state, row@),
            forall|id: u32| #[trigger] row@.dom().contains(id) ==> dfa.known(row@[id]),
        decreases vocabulary.entries@.len() - index,
    {
        let entry = &vocabulary.entries[index];
        if let Some(next) = read_token(dfa, state, &entry.bytes) {
            let clash = match fx::map_get(&row, entry.id) {
                Some(existing) => *existing != next,
                None => false,
            };
            assert(leads(dfa, vocabulary.entries@, state, entry.id, next));
            if clash {
                return Err(Error::AmbiguousTokenId { token_id: entry.id });
            }
            fx::map_insert(&mut row, entry.id, next);
        }
        index += 1;
    }
    Ok(row)
}

/// How a byte is shown.
pub open spec fn byte_text(byte: u8) -> Seq<char> {
    if byte < 128 {
        seq![byte as char]
    } else {
        seq!['\\', 'x', text::hex_digit(byte as int / 16), text::hex_digit(byte as int % 16)]
    }
}

/// Whether a byte is reported at a dead end.
pub open spec fn reported<D: ByteDfa>(
    dfa: &D,
    policy: ProjectionPolicy,
    state: u32,
    byte: u8,
) -> bool {
    let next = dfa.after(state, byte);
    !dfa.ended(next) && (policy == ProjectionPolicy::Exact ==> dfa.lives_in(next))
}

/// The bytes below `n` that are reported at a dead end, as they are shown.
pub open spec fn missing<D: ByteDfa>(
    dfa: &D,
    policy: ProjectionPolicy,
    state: u32,
    n: nat,
) -> Seq<Seq<char>>
    decreases n,
{
    if n == 0 {
        Seq::empty()
    } else {
        let before = missing(dfa, policy, state, (n - 1) as nat);
        if reported(dfa, policy, state, (n - 1) as u8) {
            before.push(byte_text((n - 1) as u8))
        } else {
            before
        }
    }
}

/// The views of strings.
pub open spec fn texts(list: Seq<String>) -> Seq<Seq<char>> {
    list.map_values(|text: String| text@)
}

/// Lists the bytes that would lead on from a dead end.
fn list_missing<D: ByteDfa>(dfa: &D, policy: ProjectionPolicy, state: u32) -> (list: Vec<String>)
    requires
        dfa.ready(),
        dfa.known(state),
    ensures
        texts(list@) == missing(dfa, policy, state, 256),
{
    let mut list: Vec<String> = Vec::new();
    let mut byte: usize = 0;
    assert(texts(list@) =~= Seq::<Seq<char>>::empty());
    while byte < 256
        invariant
            dfa.ready(),
            dfa.known(state),
            byte <= 256,
            texts(list@) == missing(dfa, policy, state, byte as nat),
        decreases 256 - byte,
    {
        let value: u8 = byte as u8;
        let next: u32 = dfa.next_state(state, value);
        let report = !dfa.is_dead(next) && (policy == ProjectionPolicy::Legacy || dfa.is_live(next));
        let ghost before = list@;
        if report {
            let shown = if value < 128 {
                text::ascii_text(value)
            } else {
                text::escaped_byte(value)
            };
            list.push(shown);
            assert(texts(list@) =~= texts(before).push(shown@));
        }
        byte += 1;
        assert((byte - 1) as u8 == value);
    }
    list
}

/// What the projection has found so far.
#[derive(Debug)]
struct Projection {
    seen: FxHashSet<u64>,
    waiting: Vec<u32>,
    final_states: FxHashSet<u64>,
    transitions: FxHashMap<u32, FxHashMap<u32, u32>>,
}

/// Whether a state is no dead end: it accepts, or a token leads on from it.
pub open spec fn continues<D: ByteDfa>(dfa: &D, entries: Seq<TokenEntry>, state: u32) -> bool {
    dfa.accepts_in(state) || exists|id: u32, next: u32| #[trigger]
        leads(dfa, entries, state, id, next)
}

/// Whether a state is worked off.
spec fn settled<D: ByteDfa>(
    dfa: &D,
    entries: Seq<TokenEntry>,
    eos: u32,
    seen: Set<u64>,
    finals: Set<u64>,
    transitions: Map<u32, FxHashMap<u32, u32>>,
    state: u32,
) -> bool {
    &&& transitions.dom().contains(state)
    &&& continues(dfa, entries, state)
    &&& row_exact(dfa, entries, eos, state, transitions[state]@)
    &&& finals.contains(state as u64) <==> dfa.accepts_in(state)
    &&& forall|id: u32, next: u32| #[trigger]
        leads(dfa, entries, state, id, next) ==> seen.contains(next as u64)
}

impl Projection {
    /// What holds while states are worked off.
    #[verifier::opaque]
    spec fn wf<D: ByteDfa>(&self, dfa: &D, entries: Seq<TokenEntry>, eos: u32) -> bool {
        &&& self.seen@.finite()
        &&& forall|x: u64| #[trigger]
            self.seen@.contains(x) ==> x <= u32::MAX && dfa.known(x as u32) && reachable(
                dfa,
                entries,
                x as u32,
            )
        &&& forall|x: u64| #[trigger]
            self.seen@.contains(x) ==> self.waiting@.contains(x as u32) || settled(
                dfa,
                entries,
                eos,
                self.seen@,
                self.final_states@,
                self.transitions@,
                x as u32,
            )
        &&& forall|k: int|
            0 <= k < self.waiting@.len() ==> self.seen@.contains((#[trigger] self.waiting@[k]) as u64)
        &&& forall|s: u32| #[trigger]
            self.transitions@.dom().contains(s) ==> self.seen@.contains(s as u64)
        &&& forall|x: u64| #[trigger]
            self.final_states@.contains(x) ==> self.seen@.contains(x) && dfa.accepts_in(x as u32)
    }

    /// How much is left to do at most.
    spec fn left(&self) -> int {
        2 * (0x1_0000_0000 - self.seen@.len()) + self.waiting@.len()
    }
}

/// There are no more states than numbers.
proof fn lemma_seen(seen: Set<u64>)
    requires
        seen.finite(),
        forall|x: u64| #[trigger] seen.contains(x) ==> x <= u32::MAX,
    ensures
        seen.len() <= 0x1_0000_0000,
{
    let ints = seen.map(|x: u64| x as int);
    let all = vstd::set_lib::set_int_range(0, 0x1_0000_0000);
    vstd::set_lib::lemma_int_range(0, 0x1_0000_0000);
    vstd::set_lib::lemma_map_size(seen, ints, |x: u64| x as int);
    assert forall|y: int| #[trigger] ints.contains(y) implies all.contains(y) by {
        let x = choose|x: u64| seen.contains(x) && x as int == y;
        assert(seen.contains(x));
    }
    vstd::set_lib::lemma_len_subset(ints, all);
}

/// The width of a vocabulary: one more than its largest identifier.
pub open spec fn width_of(entries: Seq<TokenEntry>, eos: u32, width: int) -> bool {
    &&& eos < width
    &&& forall|i: int| 0 <= i < entries.len() ==> (#[trigger] entries[i]).id < width
    &&& eos + 1 == width || exists|i: int|
        0 <= i < entries.len() && (#[trigger] entries[i]).id + 1 == width
}

fn vocabulary_width(vocabulary: &Vocabulary) -> (result: Result<usize, Error>)
    ensures
        result matches Ok(width) ==> width_of(vocabulary.entries@, vocabulary.eos, width as int),
        result matches Err(error) ==> error == Error::Compile(
            CompileError::ResourceLimitExceeded {
                stage: CompileStage::VocabularyProjection,
                observed: usize::MAX,
                limit: (usize::MAX - 1) as usize,
            },
        ) && width_of(vocabulary.entries@, vocabulary.eos, usize::MAX + 1),
{
    let mut largest: u32 = vocabulary.eos;
    let mut index: usize = 0;
    while index < vocabulary.entries.len()
        invariant
            index <= vocabulary.entries@.len(),
            vocabulary.eos <= largest,
            forall|i: int| 0 <= i < index ==> (#[trigger] vocabulary.entries@[i]).id <= largest,
            vocabulary.eos == largest || exists|i: int|
                0 <= i < vocabulary.entries@.len() && (#[trigger] vocabulary.entries@[i]).id
                    == largest,
        decreases vocabulary.entries@.len() - index,
    {
        if vocabulary.entries[index].id > largest {
            largest = vocabulary.entries[index].id;
            assert(vocabulary.entries@[index as int].id == largest);
        }
        index += 1;
    }
    match (largest as usize).checked_add(1) {
        Some(width) => Ok(width),
        None => Err(
            Error::Compile(
                CompileError::ResourceLimitExceeded {
                    stage: CompileStage::VocabularyProjection,
                    observed: usize::MAX,
                    limit: usize::MAX.saturating_sub(1),
                },
            ),
        ),
    }
}

/// Works off one state.
fn settle<D: ByteDfa>(
    projection: &mut Projection,
    dfa: &D,
    vocabulary: &Vocabulary,
    policy: ProjectionPolicy,
    label: &str,
    state: u32,
) -> (result: Result<(), Error>)
    requires
        dfa.ready(),
        old(projection).waiting@.len() > 0,
        old(projection).waiting@.last() == state,
        old(projection).wf(dfa, vocabulary.entries@, vocabulary.eos),
    ensures
        result is Ok ==> final(projection).wf(dfa, vocabulary.entries@, vocabulary.eos),
        result is Ok ==> final(projection).left() < old(projection).left(),
        result is Ok ==> old(projection).seen@.subset_of(final(projection).seen@),
        result matches Err(error) ==> project_error(
            dfa,
            vocabulary.entries@,
            policy,
            label@,
            error,
        ),
{
    let ghost before = *projection;
    let ghost entries = vocabulary.entries@;
    let ghost eos = vocabulary.eos;
    proof {
        reveal(Projection::wf);
        assert(before.seen@.contains(before.waiting@[before.waiting@.len() - 1] as u64));
        lemma_seen(before.seen@);
    }
    projection.waiting.pop();
    proof {
        assert forall|x: u32| before.waiting@.contains(x) && x != state implies
            #[trigger] projection.waiting@.contains(x) by {
            let k = choose|k: int| 0 <= k < before.waiting@.len() && before.waiting@[k] == x;
            assert(projection.waiting@[k] == x);
        }
    }
    let mut row = match find_row(dfa, vocabulary, state) {
        Ok(row) => row,
        Err(error) => {
            return Err(error);
        },
    };
    let accepting = dfa.is_accepting(state);
    let keys: Vec<u32> = fx::map_keys(&row);
    if !accepting && keys.len() == 0 {
        proof {
            assert forall|id: u32, next: u32| !#[trigger] leads(dfa, entries, state, id, next) by {
                if leads(dfa, entries, state, id, next) {
                    assert(row@.dom().contains(id));
                    assert(keys@.contains(id));
                }
            }
        }
        return Err(
            Error::IncompatibleVocabulary {
                regex: label.to_owned(),
                error_state: state,
                missing_tokens: list_missing(dfa, policy, state),
            },
        );
    }
    proof {
        if !accepting {
            assert(keys@.contains(keys@[0]));
            assert(leads(dfa, entries, state, keys@[0], row@[keys@[0]]));
        }
        assert(continues(dfa, entries, state));
    }
    let mut index: usize = 0;
    while index < keys.len()
        invariant
            index <= keys@.len(),
            entries == vocabulary.entries@,
            forall|key: u32| keys@.contains(key) <==> row@.dom().contains(key),
            forall|id: u32| #[trigger] row@.dom().contains(id) ==> dfa.known(row@[id]) && leads(
                dfa,
                entries,
                state,
                id,
                row@[id],
            ),
            projection.final_states == before.final_states,
            projection.transitions == before.transitions,
            projection.seen@.finite(),
            before.seen@.subset_of(projection.seen@),
            before.seen@.contains(state as u64),
            reachable(dfa, entries, state),
            forall|x: u64| #[trigger]
                projection.seen@.contains(x) ==> x <= u32::MAX && dfa.known(x as u32) && reachable(
                    dfa,
                    entries,
                    x as u32,
                ),
            forall|x: u64| #[trigger]
                projection.seen@.contains(x) ==> before.seen@.contains(x)
                    || projection.waiting@.contains(x as u32),
            forall|x: u32|
                before.waiting@.contains(x) && x != state ==> #[trigger] projection.waiting@.contains(x),
            forall|k: int|
                0 <= k < projection.waiting@.len() ==> projection.seen@.contains(
                    (#[trigger] projection.waiting@[k]) as u64,
                ),
            forall|j: int|
                0 <= j < index ==> projection.seen@.contains(row@[#[trigger] keys@[j]] as u64),
            2 * projection.seen@.len() - projection.waiting@.len() >= 2 * before.seen@.len()
                - before.waiting@.len() + 1,
        decreases keys@.len() - index,
    {
        let key: u32 = keys[index];
        assert(keys@.contains(key));
        let next: u32 = match fx::map_get(&row, key) {
            Some(next) => *next,
            None => state,
        };
        let ghost then = *projection;
        proof {
            assert(leads(dfa, entries, state, key, next));
            lemma_reach_on(dfa, entries, state, key, next);
        }
        if fx::set_insert(&mut projection.seen, next as u64) {
            projection.waiting.push(next);
            proof {
                let more = projection.waiting@;
                assert(more[then.waiting@.len() as int] == next);
                assert forall|x: u32| then.waiting@.contains(x) implies #[trigger] more.contains(x) by {
                    let k = choose|k: int| 0 <= k < then.waiting@.len() && then.waiting@[k] == x;
                    assert(more[k] == x);
                }
            }
        } else {
            assert(projection.seen@ =~= then.seen@);
        }
        index += 1;
    }
    let ghost found = row@;
    if accepting {
        fx::set_insert(&mut projection.final_states, state as u64);
        fx::map_insert(&mut row, vocabulary.eos, state);
    }
    proof {
        assert forall|id: u32, next: u32| #[trigger]
            leads(dfa, entries, state, id, next) implies projection.seen@.contains(next as u64)
            && found.dom().contains(id) && found[id] == next by {
            let i = choose|i: int|
                0 <= i < entries.len() && (#[trigger] entries[i]).id == id && target(
                    dfa,
                    state,
                    entries[i].bytes@,
                ) == Some(next);
            assert(found.dom().contains(entries[i].id));
            assert(keys@.contains(id));
            let j = choose|j: int| 0 <= j < keys@.len() && keys@[j] == id;
            assert(projection.seen@.contains(found[keys@[j]] as u64));
        }
        assert(row_exact(dfa, entries, eos, state, row@));
    }
    fx::map_insert(&mut projection.transitions, state, row);
    proof {
        assert(projection.wf(dfa, entries, eos)) by {
            assert forall|x: u64| #[trigger] projection.seen@.contains(x) implies
                projection.waiting@.contains(x as u32) || settled(
                dfa,
                entries,
                eos,
                projection.seen@,
                projection.final_states@,
                projection.transitions@,
                x as u32,
            ) by {
                if x == state {
                    assert(settled(
                        dfa,
                        entries,
                        eos,
                        projection.seen@,
                        projection.final_states@,
                        projection.transitions@,
                        state,
                    ));
                } else if before.seen@.contains(x) {
                    if before.waiting@.contains(x as u32) {
                        assert(projection.waiting@.contains(x as u32));
                    } else {
                        assert(settled(
                            dfa,
                            entries,
                            eos,
                            before.seen@,
                            before.final_states@,
                            before.transitions@,
                            x as u32,
                        ));
                    }
                }
            }
        }
        lemma_seen(projection.seen@);
    }
    Ok(())
}

/// A token that leads on from a state that can be reached leads to one.
proof fn lemma_reach_on<D: ByteDfa>(
    dfa: &D,
    entries: Seq<TokenEntry>,
    state: u32,
    id: u32,
    next: u32,
)
    requires
        reachable(dfa, entries, state),
        leads(dfa, entries, state, id, next),
    ensures
        reachable(dfa, entries, next),
{
    let n = choose|n: nat| #[trigger] reaches(dfa, entries, n, state);
    let i = choose|i: int|
        0 <= i < entries.len() && (#[trigger] entries[i]).id == id && target(
            dfa,
            state,
            entries[i].bytes@,
        ) == Some(next);
    assert(reaches(dfa, entries, n + 1, next));
}

/// Whether an error says why a vocabulary cannot be projected.
pub open spec fn project_error<D: ByteDfa>(
    dfa: &D,
    entries: Seq<TokenEntry>,
    policy: ProjectionPolicy,
    label: Seq<char>,
    error: Error,
) -> bool {
    match error {
        Error::AmbiguousTokenId { token_id } => exists|state: u32|
            reachable(dfa, entries, state) && #[trigger] splits(dfa, entries, state, token_id),
        Error::IncompatibleVocabulary { regex, error_state, missing_tokens } => {
            &&& regex@ == label
            &&& reachable(dfa, entries, error_state)
            &&& !dfa.accepts_in(error_state)
            &&& forall|id: u32, next: u32| !#[trigger] leads(dfa, entries, error_state, id, next)
            &&& texts(missing_tokens@) == missing(dfa, policy, error_state, 256)
        },
        _ => false,
    }
}

impl Index {
    /// Whether the index holds what the automaton allows: exactly the states that can be reached by
    /// tokens, where the tokens lead from each, and which of them accept.
    pub open spec fn exact<D: ByteDfa>(&self, dfa: &D, entries: Seq<TokenEntry>) -> bool {
        &&& dfa.first() == Some(self.initial_state)
        &&& forall|s: u32| #[trigger]
            self.transitions@.dom().contains(s) <==> reachable(dfa, entries, s)
        &&& forall|s: u32| #[trigger]
            self.transitions@.dom().contains(s) ==> continues(dfa, entries, s) && row_exact(
                dfa,
                entries,
                self.eos_token_id,
                s,
                self.transitions@[s]@,
            )
        &&& forall|x: u64| #[trigger]
            self.final_states@.contains(x) <==> x <= u32::MAX && reachable(dfa, entries, x as u32)
                && dfa.accepts_in(x as u32)
    }

    /// Whether the index holds nothing.
    pub open spec fn empty(&self) -> bool {
        &&& self.transitions@.dom() == Set::<u32>::empty()
        &&& self.final_states@ == Set::<u64>::empty()
    }
}

/// Projects an automaton on a vocabulary.
fn project_byte_dfa<D: ByteDfa>(
    dfa: &D,
    vocabulary: &Vocabulary,
    policy: ProjectionPolicy,
    label: &str,
) -> (result: Result<Index, Error>)
    requires
        dfa.ready(),
    ensures
        result matches Ok(index) ==> {
            &&& index.eos_token_id == vocabulary.eos
            &&& width_of(vocabulary.entries@, vocabulary.eos, index.vocab_size as int)
            &&& dfa.first() == Some(index.initial_state)
            &&& if policy == ProjectionPolicy::Exact && !dfa.lives_in(index.initial_state)
                && !dfa.accepts_in(index.initial_state) {
                index.empty()
            } else {
                index.exact(dfa, vocabulary.entries@)
            }
        },
        result matches Err(error) ==> {
            ||| error is DfaHasNoStartState && dfa.first() is None
            ||| error == Error::Compile(
                CompileError::ResourceLimitExceeded {
                    stage: CompileStage::VocabularyProjection,
                    observed: usize::MAX,
                    limit: (usize::MAX - 1) as usize,
                },
            ) && width_of(vocabulary.entries@, vocabulary.eos, usize::MAX + 1)
            ||| project_error(dfa, vocabulary.entries@, policy, label@, error)
        },
        dfa.first() is None ==> result is Err,
{
    let vocab_size: usize = match vocabulary_width(vocabulary) {
        Ok(width) => width,
        Err(error) => {
            return Err(error);
        },
    };
    let eos_token_id: u32 = vocabulary.eos;
    let start: u32 = match dfa.start_state() {
        Some(start) => start,
        None => {
            return Err(Error::DfaHasNoStartState);
        },
    };
    if policy == ProjectionPolicy::Exact && !dfa.is_live(start) && !dfa.is_accepting(start) {
        return Ok(
            Index {
                initial_state: start,
                final_states: fx::set_new(),
                transitions: fx::map_new(),
                eos_token_id,
                vocab_size,
            },
        );
    }
    let mut seen: FxHashSet<u64> = fx::set_new();
    fx::set_insert(&mut seen, start as u64);
    let mut waiting: Vec<u32> = Vec::new();
    waiting.push(start);
    let mut projection = Projection {
        seen,
        waiting,
        final_states: fx::set_new(),
        transitions: fx::map_new(),
    };
    let ghost entries = vocabulary.entries@;
    proof {
        assert(projection.waiting@[0] == start);
        assert(reaches(dfa, entries, 0, start));
        assert(projection.wf(dfa, entries, eos_token_id)) by {
            reveal(Projection::wf);
        }
        assert(projection.left() >= 0) by {
            lemma_seen(projection.seen@);
        }
    }
    while projection.waiting.len() > 0
        invariant
            dfa.ready(),
            entries == vocabulary.entries@,
            eos_token_id == vocabulary.eos,
            projection.wf(dfa, entries, eos_token_id),
            projection.seen@.contains(start as u64),
            projection.left() >= 0,
        decreases projection.left(),
    {
        let state: u32 = projection.waiting[projection.waiting.len() - 1];
        match settle(&mut projection, dfa, vocabulary, policy, label, state) {
            Ok(()) => {},
            Err(error) => {
                return Err(error);
            },
        }
        proof {
            assert(projection.left() >= 0) by {
                reveal(Projection::wf);
                lemma_seen(projection.seen@);
            }
        }
    }
    let Projection { final_states, transitions, seen, .. } = projection;
    let ghost done = projection;
    let index = Index { initial_state: start, final_states, transitions, eos_token_id, vocab_size };
    proof {
        reveal(Projection::wf);
        assert forall|s: u32| #[trigger] reachable(dfa, entries, s) implies seen@.contains(
            s as u64,
        ) by {
            let n = choose|n: nat| #[trigger] reaches(dfa, entries, n, s);
            lemma_all_seen(dfa, entries, eos_token_id, &done, start, n, s);
        }
        assert forall|s: u32| #[trigger]
            index.transitions@.dom().contains(s) <==> reachable(dfa, entries, s) by {
            if reachable(dfa, entries, s) {
                assert(seen@.contains(s as u64));
                assert(!done.waiting@.contains(s));
            }
        }
        assert forall|s: u32| #[trigger] index.transitions@.dom().contains(s) implies continues(
            dfa,
            entries,
            s,
        ) && row_exact(
            dfa,
            entries,
            index.eos_token_id,
            s,
            index.transitions@[s]@,
        ) by {
            assert(seen@.contains(s as u64));
            assert(!done.waiting@.contains(s));
        }
        assert forall|x: u64| #[trigger]
            index.final_states@.contains(x) <==> x <= u32::MAX && reachable(dfa, entries, x as u32)
                && dfa.accepts_in(x as u32) by {
            if x <= u32::MAX && reachable(dfa, entries, x as u32) && dfa.accepts_in(x as u32) {
                assert(seen@.contains((x as u32) as u64));
                assert(!done.waiting@.contains(x as u32));
            }
        }
    }
    Ok(index)
}

/// Every state that can be reached was seen.
proof fn lemma_all_seen<D: ByteDfa>(
    dfa: &D,
    entries: Seq<TokenEntry>,
    eos: u32,
    projection: &Projection,
    start: u32,
    n: nat,
    s: u32,
)
    requires
        projection.wf(dfa, entries, eos),
        projection.waiting@.len() == 0,
        projection.seen@.contains(start as u64),
        dfa.first() == Some(start),
        reaches(dfa, entries, n, s),
    ensures
        projection.seen@.contains(s as u64),
    decreases n,
{
    if s != start {
        let (before, i) = choose|before: u32, i: int|
            #![trigger target(dfa, before, entries[i].bytes@)]
            0 <= i < entries.len() && reaches(dfa, entries, (n - 1) as nat, before) && target(
                dfa,
                before,
                entries[i].bytes@,
            ) == Some(s);
        lemma_all_seen(dfa, entries, eos, projection, start, (n - 1) as nat, before);
        reveal(Projection::wf);
        assert(!projection.waiting@.contains(before));
        assert(settled(
            dfa,
            entries,
            eos,
            projection.seen@,
            projection.final_states@,
            projection.transitions@,
            (before as u64) as u32,
        ));
        assert(leads(dfa, entries, before, entries[i].id, s));
    }
}

impl Index {
    /// Builds an index from a regular expression and a vocabulary.
    pub fn new(regex: &str, vocabulary: &Vocabulary) -> (result: Result<Self, Error>)
        ensures
            dense::search_trouble(regex@) matches Some(trouble) ==> (result matches Err(
                Error::IndexDfaError { message },
            ) && message@ == trouble),
            result matches Ok(index) ==> index.eos_token_id == vocabulary.eos && width_of(
                vocabulary.entries@,
                vocabulary.eos,
                index.vocab_size as int,
            ) && exists|dfa: DFA<Vec<u32>>| #[trigger]
                search_dfa(dfa, regex@) && index.exact(&dfa, vocabulary.entries@),
            result matches Err(error) ==> dense::searchable(regex@) ==> exists|dfa: DFA<Vec<u32>>|
                #[trigger] search_dfa(dfa, regex@) && search_error(
                    dfa,
                    vocabulary.entries@,
                    vocabulary.eos,
                    regex@,
                    error,
                ),
    {
        let dfa = match dense::build_search(regex) {
            Ok(dfa) => dfa,
            Err(message) => {
                return Err(Error::IndexDfaError { message });
            },
        };
        assert(search_dfa(dfa, regex@));
        project_byte_dfa(&dfa, vocabulary, ProjectionPolicy::Legacy, regex)
    }

    /// Builds an index from a byte automaton and a vocabulary.
    pub fn from_certified_dfa(dfa: &CompiledByteDfa, vocabulary: &Vocabulary) -> (result: Result<
        Self,
        Error,
    >)
        requires
            dfa.wf(),
        ensures
            result matches Ok(index) ==> {
                &&& index.eos_token_id == vocabulary.eos
                &&& index.initial_state == 0
                &&& width_of(vocabulary.entries@, vocabulary.eos, index.vocab_size as int)
                &&& if dfa.live_at(0) {
                    index.exact(dfa, vocabulary.entries@)
                } else {
                    index.empty()
                }
            },
            result matches Err(error) ==> {
                ||| error == Error::Compile(
                    CompileError::ResourceLimitExceeded {
                        stage: CompileStage::VocabularyProjection,
                        observed: usize::MAX,
                        limit: (usize::MAX - 1) as usize,
                    },
                ) && width_of(vocabulary.entries@, vocabulary.eos, usize::MAX + 1)
                ||| project_error(
                    dfa,
                    vocabulary.entries@,
                    ProjectionPolicy::Exact,
                    "certified byte DFA"@,
                    error,
                )
            },
    {
        proof {
            if dfa.accepts_at(0) {
                assert(dfa.accepts_at(dfa.run(0, Seq::<u8>::empty())));
            }
        }
        project_byte_dfa(dfa, vocabulary, ProjectionPolicy::Exact, "certified byte DFA")
    }

    /// The state that a sequence starts in.
    pub fn initial_state(&self) -> (state: u32)
        ensures
            state == self.initial_state,
    {
        self.initial_state
    }

    /// The states in which a sequence may end.
    pub fn final_states(&self) -> (states: &FxHashSet<u64>)
        ensures
            *states == self.final_states,
    {
        &self.final_states
    }

    /// Where the tokens lead from every state.
    pub fn transitions(&self) -> (transitions: &FxHashMap<u32, FxHashMap<u32, u32>>)
        ensures
            *transitions == self.transitions,
    {
        &self.transitions
    }

    /// Whether a sequence may end in a state.
    pub fn is_final_state(&self, state: &u32) -> (found: bool)
        ensures
            found == self.final_states@.contains(*state as u64),
    {
        fx::set_contains(&self.final_states, *state as u64)
    }

    /// The tokens that a state allows, or none if the state is not in the index.
    pub fn allowed_tokens(&self, state: &u32) -> (tokens: Option<Vec<u32>>)
        ensures
            tokens is Some <==> self.transitions@.dom().contains(*state),
            tokens matches Some(list) ==> list@.no_duplicates() && forall|id: u32|
                list@.contains(id) <==> #[trigger] self.transitions@[*state]@.dom().contains(id),
    {
        match fx::map_get(&self.transitions, *state) {
            Some(row) => Some(fx::map_keys(row)),
            None => None,
        }
    }

    /// The state to which a token leads, if it is allowed. The token that ends a sequence leads
    /// nowhere.
    pub fn next_state(&self, state: &u32, token_id: &u32) -> (next: Option<u32>)
        ensures
            next == (if *token_id != self.eos_token_id && self.transitions@.dom().contains(*state)
                && self.transitions@[*state]@.dom().contains(*token_id) {
                Some(self.transitions@[*state]@[*token_id])
            } else {
                None
            }),
    {
        if *token_id == self.eos_token_id {
            return None;
        }
        match fx::map_get(&self.transitions, *state) {
            Some(row) => match fx::map_get(row, *token_id) {
                Some(next) => Some(*next),
                None => None,
            },
            None => None,
        }
    }

    /// The width of the vocabulary.
    pub fn vocab_size(&self) -> (size: usize)
        ensures
            size == self.vocab_size,
    {
        self.vocab_size
    }

    /// The identifier that ends a sequence.
    pub fn eos_token_id(&self) -> (id: u32)
        ensures
            id == self.eos_token_id,
    {
        self.eos_token_id
    }
}

/// Whether an automaton is the search automaton of a pattern.
pub open spec fn search_dfa(dfa: DFA<Vec<u32>>, pattern: Seq<char>) -> bool {
    forall|w: Seq<u8>|
        dense::search_matches(pattern, w) <==> #[trigger] dense::dense_accepts(dfa, w)
}

/// Whether an error says why a search automaton cannot be projected.
pub open spec fn search_error(
    dfa: DFA<Vec<u32>>,
    entries: Seq<TokenEntry>,
    eos: u32,
    label: Seq<char>,
    error: Error,
) -> bool {
    ||| error is DfaHasNoStartState && dense::dense_start(dfa) is None
    ||| error == Error::Compile(
        CompileError::ResourceLimitExceeded {
            stage: CompileStage::VocabularyProjection,
            observed: usize::MAX,
            limit: (usize::MAX - 1) as usize,
        },
    ) && width_of(entries, eos, usize::MAX + 1)
    ||| project_error(&dfa, entries, ProjectionPolicy::Legacy, label, error)
}

} // verus!
