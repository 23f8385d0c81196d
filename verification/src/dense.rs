//! The dense automata of `regex-automata`, with states as plain integers.

use regex_automata::dfa::dense::{Builder, Config, DFA};
use regex_automata::dfa::{Automaton, StartKind};
use regex_automata::nfa::thompson::{State, NFA};
use regex_automata::util::primitives::StateID;
use regex_automata::{Anchored, MatchKind};
use vstd::prelude::*;
use vstd::utf8;

use crate::json_schema;
use crate::lexical;
use crate::regular;
use crate::regular::RegularExpression;
use crate::syntax;
use crate::syntax::Syntax;
use crate::text;

verus! {

/// A nondeterministic automaton of `regex-automata`.
#[verifier::external_type_specification]
#[verifier::external_body]
pub struct ExNfa(NFA);

/// A dense automaton of `regex-automata`.
#[verifier::external_type_specification]
#[verifier::external_body]
#[verifier::reject_recursive_types(T)]
pub struct ExDfa<T>(DFA<T>);

/// The pattern that a nondeterministic automaton was made from.
pub uninterp spec fn nfa_pattern(nfa: NFA) -> Seq<char>;

/// What a state of a nondeterministic automaton is, and how many ways lead on from it where that
/// varies.
#[derive(Clone, Copy, Debug, PartialEq, Eq)]
pub enum NfaState {
    ByteRange,
    Sparse(usize),
    Dense(usize),
    Look,
    Union(usize),
    BinaryUnion,
    Capture,
    Fail,
    Match,
}

/// The states of the nondeterministic automaton of a pattern.
pub uninterp spec fn nfa_states(pattern: Seq<char>) -> Seq<NfaState>;

/// How many edges leave a state.
pub open spec fn degree(state: NfaState) -> usize {
    match state {
        NfaState::ByteRange => 1,
        NfaState::Sparse(count) => count,
        NfaState::Dense(count) => count,
        NfaState::Look => 1,
        NfaState::Union(count) => count,
        NfaState::BinaryUnion => 2,
        NfaState::Capture => 1,
        NfaState::Fail => 0,
        NfaState::Match => 0,
    }
}

/// The numbers of edges that leave the states of the nondeterministic automaton of a pattern.
pub open spec fn nfa_degrees(pattern: Seq<char>) -> Seq<usize> {
    nfa_states(pattern).map_values(|state: NfaState| degree(state))
}

/// The text of the error on which `regex-automata` refuses to read a pattern, if it does.
pub uninterp spec fn nfa_trouble(pattern: Seq<char>) -> Option<Seq<char>>;

/// Whether `regex-automata` can read a pattern.
pub open spec fn readable(pattern: Seq<char>) -> bool {
    nfa_trouble(pattern) is None
}

/// Whether a pattern matches the whole of a byte string.
pub uninterp spec fn pattern_matches(pattern: Seq<char>, w: Seq<u8>) -> bool;

/// The identifiers of the states of an automaton.
pub uninterp spec fn dense_states(dfa: DFA<Vec<u32>>) -> Set<u32>;

/// The state in which an anchored search starts, where one state serves every context.
pub uninterp spec fn dense_start(dfa: DFA<Vec<u32>>) -> Option<u32>;

/// The state that follows a state on a byte.
pub uninterp spec fn dense_next(dfa: DFA<Vec<u32>>, state: u32, byte: u8) -> u32;

/// Whether a state is the dead state.
pub uninterp spec fn dense_dead(dfa: DFA<Vec<u32>>, state: u32) -> bool;

/// Whether a state is the quit state.
pub uninterp spec fn dense_quit(dfa: DFA<Vec<u32>>, state: u32) -> bool;

/// The state that follows a state at the end of the input.
pub uninterp spec fn dense_end(dfa: DFA<Vec<u32>>, state: u32) -> u32;

/// Whether a state is a match state.
pub uninterp spec fn dense_match(dfa: DFA<Vec<u32>>, state: u32) -> bool;

/// Whether a search is over in a state.
pub open spec fn dense_over(dfa: DFA<Vec<u32>>, state: u32) -> bool {
    dense_dead(dfa, state) || dense_quit(dfa, state)
}

/// Whether a match ends where the input ends in a state.
pub open spec fn dense_final(dfa: DFA<Vec<u32>>, state: u32) -> bool {
    dense_match(dfa, dense_end(dfa, state))
}

/// The state after reading `w`, unless the automaton gave up on the way.
pub open spec fn dense_run(dfa: DFA<Vec<u32>>, state: u32, w: Seq<u8>) -> Option<u32>
    decreases w.len(),
{
    if w.len() == 0 {
        Some(state)
    } else {
        match dense_run(dfa, state, w.drop_last()) {
            Some(before) => {
                let next = dense_next(dfa, before, w.last());
                if dense_over(dfa, next) {
                    None
                } else {
                    Some(next)
                }
            },
            None => None,
        }
    }
}

/// Whether the automaton, started in its anchored start state, accepts the whole of `w`.
pub open spec fn dense_accepts(dfa: DFA<Vec<u32>>, w: Seq<u8>) -> bool {
    match dense_start(dfa) {
        Some(start) => match dense_run(dfa, start, w) {
            Some(state) => dense_final(dfa, state),
            None => false,
        },
        None => false,
    }
}

/// What a pattern matches: the pattern of a JSON scalar the texts of that scalar, an escaped text the
/// text, and any other what `regex-automata` says.
pub open spec fn matches(pattern: Seq<char>, w: Seq<u8>) -> bool {
    if pattern == json_schema::STRING@ {
        lexical::string(w)
    } else if pattern == json_schema::INTEGER@ {
        lexical::integer(w)
    } else if pattern == json_schema::NUMBER@ {
        lexical::number(w)
    } else if pattern == json_schema::BOOLEAN@ {
        lexical::boolean(w)
    } else if pattern == json_schema::NULL@ {
        lexical::null(w)
    } else if exists|t: Seq<char>| pattern == #[trigger] text::escaped(t) {
        exists|t: Seq<char>| pattern == #[trigger] text::escaped(t) && w == utf8::encode_utf8(t)
    } else {
        pattern_matches(pattern, w)
    }
}

/// The languages of patterns.
pub open spec fn pattern_lex() -> regular::PatternLex {
    |pattern: Seq<char>, w: Seq<u8>| matches(pattern, w)
}

/// Whether a pattern is an escaped text or one of the patterns of the JSON scalars.
pub open spec fn plain_pattern(pattern: Seq<char>) -> bool {
    ||| exists|t: Seq<char>| pattern == #[trigger] text::escaped(t)
    ||| pattern == json_schema::STRING@
    ||| pattern == json_schema::INTEGER@
    ||| pattern == json_schema::NUMBER@
    ||| pattern == json_schema::BOOLEAN@
    ||| pattern == json_schema::NULL@
}

/// Whether a byte string is a word that a plain pattern is known to match: the text that was escaped,
/// or one of the shortest of a scalar.
pub open spec fn plain_word(pattern: Seq<char>, w: Seq<u8>) -> bool {
    ||| exists|t: Seq<char>| pattern == #[trigger] text::escaped(t) && w == utf8::encode_utf8(t)
    ||| pattern == json_schema::STRING@ && w == utf8::encode_utf8("\"\""@)
    ||| pattern == json_schema::INTEGER@ && w == utf8::encode_utf8("0"@)
    ||| pattern == json_schema::NUMBER@ && w == utf8::encode_utf8("0"@)
    ||| pattern == json_schema::BOOLEAN@ && w == utf8::encode_utf8("true"@)
    ||| pattern == json_schema::NULL@ && w == utf8::encode_utf8("null"@)
}

/// A plain pattern has a word.
pub proof fn lemma_plain_word(pattern: Seq<char>) -> (w: Seq<u8>)
    requires
        plain_pattern(pattern),
    ensures
        plain_word(pattern, w),
{
    if exists|t: Seq<char>| pattern == #[trigger] text::escaped(t) {
        let t = choose|t: Seq<char>| pattern == #[trigger] text::escaped(t);
        utf8::encode_utf8(t)
    } else if pattern == json_schema::STRING@ {
        utf8::encode_utf8("\"\""@)
    } else if pattern == json_schema::INTEGER@ || pattern == json_schema::NUMBER@ {
        utf8::encode_utf8("0"@)
    } else if pattern == json_schema::BOOLEAN@ {
        utf8::encode_utf8("true"@)
    } else {
        utf8::encode_utf8("null"@)
    }
}

/// Whether every atom of an expression is plain, and no part of it is the empty language.
pub open spec fn solid(e: RegularExpression) -> bool
    decreases e,
{
    match e {
        RegularExpression::Empty => false,
        RegularExpression::Epsilon => true,
        RegularExpression::Atom { forward, .. } => plain_pattern(forward@),
        RegularExpression::Concat(parts) => forall|i: int|
            0 <= i < parts@.len() ==> solid(#[trigger] parts@[i]),
        RegularExpression::Union(branches) => branches@.len() > 0 && forall|i: int|
            0 <= i < branches@.len() ==> solid(#[trigger] branches@[i]),
        RegularExpression::Star(inner) => solid(*inner),
    }
}

/// Whether an expression is the empty language, or solid.
pub open spec fn plain(e: RegularExpression) -> bool {
    e is Empty || solid(e)
}

/// The text of a solid expression is a pattern.
pub proof fn lemma_solid_pattern(e: RegularExpression)
    requires
        solid(e),
    ensures
        regular::spec_pattern(e) is Some,
    decreases e, 1nat, 0nat,
{
    match e {
        RegularExpression::Concat(parts) => {
            lemma_solid_list(e, parts@.len());
        },
        RegularExpression::Union(branches) => {
            lemma_solid_list(e, branches@.len());
        },
        RegularExpression::Star(inner) => {
            lemma_solid_pattern(*inner);
        },
        _ => {},
    }
}

proof fn lemma_solid_list(e: RegularExpression, n: nat)
    requires
        solid(e),
        e matches RegularExpression::Concat(parts) ==> n <= parts@.len(),
        e matches RegularExpression::Union(branches) ==> n <= branches@.len(),
        e is Concat || e is Union,
    ensures
        e is Concat ==> regular::concat_pattern(e, n) is Some,
        e is Union ==> regular::union_pattern(e, n) is Some,
    decreases e, 0nat, n,
{
    if n > 0 {
        lemma_solid_list(e, (n - 1) as nat);
        match e {
            RegularExpression::Concat(parts) => {
                lemma_solid_pattern(parts@[n - 1]);
            },
            RegularExpression::Union(branches) => {
                lemma_solid_pattern(branches@[n - 1]);
            },
            _ => {},
        }
    }
}

/// Whether an automaton accepts what every solid expression with the text `pattern` denotes.
pub open spec fn composes(dfa: DFA<Vec<u32>>, pattern: Seq<char>) -> bool {
    forall|e: RegularExpression, w: Seq<u8>|
        solid(e) && regular::spec_pattern(e) == Some(pattern) ==> (dense_accepts(dfa, w)
            <==> #[trigger] regular::denotes(e, pattern_lex(), false, w, 0, w.len() as int))
}

/// Whether an automaton accepts what the syntax of patterns says of a text: what every way to read it
/// matches.
pub open spec fn obeys(dfa: DFA<Vec<u32>>, pattern: Seq<char>) -> bool {
    forall|tree: Syntax, w: Seq<u8>|
        syntax::valid(tree) && syntax::written(tree) == pattern ==> (dense_accepts(dfa, w)
            <==> #[trigger] syntax::reads(tree, w))
}

/// `NFA::new`: the nondeterministic automaton of a pattern, or the text of the error where the
/// pattern cannot be read.
#[verifier::external_body]
pub(crate) fn build_nfa(pattern: &str) -> (result: Result<NFA, String>)
    ensures
        result is Ok <==> nfa_trouble(pattern@) is None,
        result matches Ok(nfa) ==> nfa_pattern(nfa) == pattern@,
        result matches Err(message) ==> nfa_trouble(pattern@) == Some(message@),
{
    NFA::new(pattern).map_err(|error| error.to_string())
}

/// `NFA::states`: the states of the automaton.
#[verifier::external_body]
fn list_states(nfa: &NFA) -> (states: Vec<NfaState>)
    ensures
        states@ == nfa_states(nfa_pattern(*nfa)),
{
    nfa.states().iter().map(|state| match state {
        State::ByteRange { .. } => NfaState::ByteRange,
        State::Sparse(sparse) => NfaState::Sparse(sparse.transitions.len()),
        State::Dense(dense) => NfaState::Dense(dense.transitions.len()),
        State::Look { .. } => NfaState::Look,
        State::Union { alternates } => NfaState::Union(alternates.len()),
        State::BinaryUnion { .. } => NfaState::BinaryUnion,
        State::Capture { .. } => NfaState::Capture,
        State::Fail => NfaState::Fail,
        State::Match { .. } => NfaState::Match,
    }).collect()
}

/// For each state of the automaton, how many edges leave it.
pub(crate) fn state_degrees(nfa: &NFA) -> (degrees: Vec<usize>)
    ensures
        degrees@ == nfa_degrees(nfa_pattern(*nfa)),
{
    let states = list_states(nfa);
    let mut degrees: Vec<usize> = Vec::new();
    while degrees.len() < states.len()
        invariant
            degrees@.len() <= states@.len(),
            forall|i: int| 0 <= i < degrees@.len() ==> #[trigger] degrees@[i] == degree(states@[i]),
        decreases states@.len() - degrees@.len(),
    {
        let count: usize = match states[degrees.len()] {
            NfaState::ByteRange => 1,
            NfaState::Sparse(count) => count,
            NfaState::Dense(count) => count,
            NfaState::Look => 1,
            NfaState::Union(count) => count,
            NfaState::BinaryUnion => 2,
            NfaState::Capture => 1,
            NfaState::Fail => 0,
            NfaState::Match => 0,
        };
        degrees.push(count);
    }
    assert(degrees@ =~= nfa_degrees(nfa_pattern(*nfa)));
    degrees
}

/// What determinising came to, with the message of an error as a mathematical value.
pub open spec fn outcome(result: Result<DFA<Vec<u32>>, Option<String>>) -> Result<
    DFA<Vec<u32>>,
    Option<Seq<char>>,
> {
    match result {
        Ok(dfa) => Ok(dfa),
        Err(None) => Err(None),
        Err(Some(message)) => Err(Some(message@)),
    }
}

/// Whether determinising the automaton of a pattern within a size in bytes can come to an outcome:
/// on some machine it does.
pub uninterp spec fn determinizes(
    pattern: Seq<char>,
    size: usize,
    outcome: Result<DFA<Vec<u32>>, Option<Seq<char>>>,
) -> bool;

/// `Builder::build_from_nfa`, for anchored searches that report every match, within a size in
/// bytes. The automaton accepts what the pattern matches as a whole. A pattern that is put together
/// from characters, brackets, groups, bars and repetitions matches what the documented syntax says of
/// these. The error is the builder's message, or none where the size was too small. Whether the
/// automaton fits in the size rests on the machine's word size: of the outcome it is only said that
/// it is one that the pattern and the size can come to.
#[verifier::external_body]
pub(crate) fn determinize(nfa: &NFA, size: usize) -> (result: Result<DFA<Vec<u32>>, Option<String>>)
    ensures
        determinizes(nfa_pattern(*nfa), size, outcome(result)),
        result matches Ok(dfa) ==> obeys(dfa, nfa_pattern(*nfa)),
        result matches Ok(dfa) ==> forall|w: Seq<u8>|
            pattern_matches(nfa_pattern(*nfa), w) <==> #[trigger] dense_accepts(dfa, w),
{
    Builder::new()
        .configure(
            Config::new()
                .match_kind(MatchKind::All)
                .start_kind(StartKind::Anchored)
                .dfa_size_limit(Some(size))
                .determinize_size_limit(Some(size)),
        )
        .build_from_nfa(nfa)
        .map_err(|error| if error.is_size_limit_exceeded() { None } else { Some(error.to_string()) })
}

/// The text of the error on which `regex-automata` makes no search automaton of a pattern, if it
/// makes none.
pub uninterp spec fn search_trouble(pattern: Seq<char>) -> Option<Seq<char>>;

/// Whether `regex-automata` makes a search automaton of a pattern.
pub open spec fn searchable(pattern: Seq<char>) -> bool {
    search_trouble(pattern) is None
}

/// Whether the search automaton of a pattern accepts the whole of a byte string.
pub uninterp spec fn search_matches(pattern: Seq<char>, w: Seq<u8>) -> bool;

/// `DFA::new`: the automaton of a pattern for searches that prefer the leftmost match, or the text
/// of the error where there is none.
#[verifier::external_body]
pub(crate) fn build_search(pattern: &str) -> (result: Result<DFA<Vec<u32>>, String>)
    ensures
        result is Ok <==> search_trouble(pattern@) is None,
        result matches Err(message) ==> search_trouble(pattern@) == Some(message@),
        result matches Ok(dfa) ==> forall|w: Seq<u8>|
            search_matches(pattern@, w) <==> #[trigger] dense_accepts(dfa, w),
{
    DFA::new(pattern).map_err(|error| error.to_string())
}

/// `Automaton::universal_start_state` for anchored searches.
#[verifier::external_body]
pub(crate) fn start_state(dfa: &DFA<Vec<u32>>) -> (state: Option<u32>)
    ensures
        state == dense_start(*dfa),
        state matches Some(s) ==> dense_states(*dfa).contains(s),
{
    dfa.universal_start_state(Anchored::Yes).map(|state| state.as_u32())
}

/// `Automaton::next_state`: every state of the automaton has a next state in it, whatever the byte.
#[verifier::external_body]
pub(crate) fn next_state(dfa: &DFA<Vec<u32>>, state: u32, byte: u8) -> (next: u32)
    requires
        dense_states(*dfa).contains(state),
    ensures
        next == dense_next(*dfa, state, byte),
        dense_states(*dfa).contains(next),
{
    dfa.next_state(StateID::must(state as usize), byte).as_u32()
}

/// `Automaton::is_dead_state`.
#[verifier::external_body]
fn is_dead_state(dfa: &DFA<Vec<u32>>, state: u32) -> (dead: bool)
    requires
        dense_states(*dfa).contains(state),
    ensures
        dead == dense_dead(*dfa, state),
{
    dfa.is_dead_state(StateID::must(state as usize))
}

/// `Automaton::is_quit_state`.
#[verifier::external_body]
fn is_quit_state(dfa: &DFA<Vec<u32>>, state: u32) -> (quit: bool)
    requires
        dense_states(*dfa).contains(state),
    ensures
        quit == dense_quit(*dfa, state),
{
    dfa.is_quit_state(StateID::must(state as usize))
}

/// `Automaton::next_eoi_state`: every state of the automaton has a state in it that follows at the
/// end of the input.
#[verifier::external_body]
fn next_eoi_state(dfa: &DFA<Vec<u32>>, state: u32) -> (next: u32)
    requires
        dense_states(*dfa).contains(state),
    ensures
        next == dense_end(*dfa, state),
        dense_states(*dfa).contains(next),
{
    dfa.next_eoi_state(StateID::must(state as usize)).as_u32()
}

/// `Automaton::is_match_state`.
#[verifier::external_body]
fn is_match_state(dfa: &DFA<Vec<u32>>, state: u32) -> (matches: bool)
    requires
        dense_states(*dfa).contains(state),
    ensures
        matches == dense_match(*dfa, state),
{
    dfa.is_match_state(StateID::must(state as usize))
}

/// Whether the search is over.
pub(crate) fn is_over(dfa: &DFA<Vec<u32>>, state: u32) -> (over: bool)
    requires
        dense_states(*dfa).contains(state),
    ensures
        over == dense_over(*dfa, state),
{
    is_dead_state(dfa, state) || is_quit_state(dfa, state)
}

/// Whether a match ends here if the input does.
pub(crate) fn is_final(dfa: &DFA<Vec<u32>>, state: u32) -> (accepting: bool)
    requires
        dense_states(*dfa).contains(state),
    ensures
        accepting == dense_final(*dfa, state),
{
    is_match_state(dfa, next_eoi_state(dfa, state))
}

} // verus!
