//! How masks, tokens, recognizers and texts agree.

use vstd::prelude::*;

use crate::automaton::CompiledByteDfa;
use crate::earley;
use crate::engine;
use crate::error::RuntimeError;
use crate::guide;
use crate::guide::{Guide, GuideRuntime};
use crate::index;
use crate::lalr_recognizer;
use crate::lalr_recognizer::LalrRecognizer;
use crate::mask;
use crate::recognizer;
use crate::recognizer::{Advance, RecognizerState};
use crate::schema::SchemaArena;
use crate::viability;
use crate::vocabulary;
use crate::vocabulary::TokenEntry;

verus! {

/// Whether a recognizer misses nothing of its language, and can end what it begins.
pub open spec fn certain(state: RecognizerState) -> bool {
    &&& state.wf()
    &&& state.faithful()
    &&& state.fruitful()
}

/// Whether some text of a schema begins with a byte string.
pub open spec fn begins(arena: &SchemaArena, h: Seq<u8>) -> bool {
    exists|rest: Seq<u8>| #[trigger] engine::accepted(arena, h + rest)
}

/// What a recognizer of a schema can go on with begins a text of the schema.
proof fn lemma_begins(arena: &SchemaArena, state: &RecognizerState, h: Seq<u8>)
    requires
        engine::recognizes_schema(state, arena),
    ensures
        begins(arena, h) <==> state.viable(h),
{
    if begins(arena, h) {
        let rest = choose|rest: Seq<u8>| #[trigger] engine::accepted(arena, h + rest);
        assert(state.generates(h + rest));
    }
    if state.viable(h) {
        let rest = choose|rest: Seq<u8>| #[trigger] state.generates(h + rest);
        assert(engine::accepted(arena, h + rest));
    }
}

/// What follows a recognizer of a schema recognizes the same schema.
proof fn lemma_follows_schema(arena: &SchemaArena, before: &RecognizerState, after: &RecognizerState)
    requires
        engine::recognizes_schema(before, arena),
        after.wf(),
        after.follows(before),
    ensures
        engine::recognizes_schema(after, arena),
{
    assert forall|w: Seq<u8>| #[trigger] after.generates(w) <==> engine::accepted(arena, w) by {
        assert(before.generates(w) <==> engine::accepted(arena, w));
    }
}

/// Tables answer a byte by yes just where some text of the language begins with what was read and
/// that byte. The byte is counted if it was read, and nothing is if it was not.
pub proof fn law_tables_answer_exactly(
    before: &LalrRecognizer,
    after: &LalrRecognizer,
    w: Seq<u8>,
    byte: u8,
    answer: bool,
)
    requires
        before.wf(),
        after.wf(),
        before.faithful(),
        before.compiled.grammar.fertile(),
        before.compiled.grammar.worded(),
        before.recognizes(w),
        after.compiled == before.compiled,
        after.took(before, byte, answer),
    ensures
        answer <==> exists|rest: Seq<u8>| #[trigger]
            before.compiled.grammar.generates(w.push(byte) + rest),
        answer ==> after.recognizes(w.push(byte)) && after.stats.bytes
            == lalr_recognizer::one_more(before.stats.bytes),
        !answer ==> after.stats == before.stats,
{
    if answer {
        let rest = viability::law_tables_read_viable(after, w.push(byte));
        assert(before.compiled.grammar.generates(w.push(byte) + rest));
    }
}

/// Tables accept just the texts of the language, unless the reductions at the end overrun the limits,
/// and what they accept is live.
pub proof fn law_tables_accept_exactly(recognizer: &LalrRecognizer, h: Seq<u8>)
    requires
        recognizer.wf(),
        recognizer.faithful(),
        recognizer.recognizes(h),
        recognizer.unhindered(),
    ensures
        recognizer.accepting() <==> recognizer.compiled.grammar.generates(h),
        recognizer.accepting() ==> recognizer.live(),
{
    if recognizer.accepting() {
        lalr_recognizer::law_accepted_is_generated(recognizer, h);
    }
    if recognizer.compiled.grammar.generates(h) {
        lalr_recognizer::law_generated_is_accepted(recognizer, h);
    }
}

/// A recognizer that is not hindered by limits accepts just the texts of its language, and is live
/// just where some text begins with what was read.
pub proof fn law_state_is_exact(state: &RecognizerState, h: Seq<u8>)
    requires
        certain(*state),
        state.recognizes(h),
        state.unhindered(),
    ensures
        state.accepting() <==> state.generates(h),
        state.live() <==> state.viable(h),
{
    match state {
        RecognizerState::Dfa(found) => {
            let dfa = found.dfa;
            if state.live() {
                let rest = choose|rest: Seq<u8>|
                    dfa.accepts_at(#[trigger] dfa.run(found.state, rest));
                dfa.lemma_run_concat(0, h, rest);
                assert(state.generates(h + rest));
            }
            if state.viable(h) {
                let rest = choose|rest: Seq<u8>| #[trigger] state.generates(h + rest);
                dfa.lemma_run_concat(0, h, rest);
                assert(dfa.accepts_at(dfa.run(found.state, rest)));
            }
        },
        RecognizerState::Lalr(found) => {
            law_tables_accept_exactly(found, h);
            if state.live() {
                if found.accepting() {
                    assert(h + Seq::<u8>::empty() =~= h);
                    assert(state.generates(h + Seq::<u8>::empty()));
                } else {
                    let (u, k) = choose|u: Seq<u32>, k: int| found.split(h, u, k);
                    let rest = viability::law_tables_read_viable(found, h);
                    assert(state.generates(h + rest));
                }
            }
            if state.viable(h) {
                let rest = choose|rest: Seq<u8>| #[trigger] state.generates(h + rest);
                lalr_recognizer::law_viable_is_live(found, h, rest);
            }
        },
        RecognizerState::Earley(found) => {
            earley::law_accepting_is_generated(found, h);
            if state.live() {
                let rest = viability::law_chart_live_is_viable(found, h);
                assert(state.generates(h + rest));
            }
            if state.viable(h) {
                let rest = choose|rest: Seq<u8>| #[trigger] state.generates(h + rest);
                earley::law_viable_is_live(found, h, rest);
            }
        },
    }
}

/// Bytes that are offered together to a recognizer of a schema, which has read `p`, are rejected just
/// where no text of the schema begins with `p` and them, and are accepting just where `p` and they
/// are a text. What is rejected or refused leaves the recognizer as it was. Of limits that hinder it,
/// and of the errors that they give, nothing is said.
pub proof fn law_chunk_is_answered_exactly(
    arena: &SchemaArena,
    before: RecognizerState,
    after: RecognizerState,
    p: Seq<u8>,
    bytes: Seq<u8>,
    result: Result<Advance, RuntimeError>,
)
    requires
        engine::recognizes_schema(&before, arena),
        before.recognizes(p),
        recognizer::reads_chunk(before, after, bytes, result),
        bytes.len() > 0,
    ensures
        result is Ok ==> {
            &&& result == Ok::<Advance, RuntimeError>(Advance::Rejected) <==> !begins(
                arena,
                p + bytes,
            )
            &&& result == Ok::<Advance, RuntimeError>(Advance::Accepting) ==> engine::accepted(
                arena,
                p + bytes,
            )
            &&& after.unhindered() && engine::accepted(arena, p + bytes) ==> result == Ok::<
                Advance,
                RuntimeError,
            >(Advance::Accepting)
        },
        result is Err || result == Ok::<Advance, RuntimeError>(Advance::Rejected) ==> after.alike(
            &before,
        ),
        result is Ok && result != Ok::<Advance, RuntimeError>(Advance::Rejected)
            ==> engine::recognizes_schema(&after, arena) && after.recognizes(p + bytes),
{
    lemma_begins(arena, &before, p + bytes);
    lemma_follows_schema(arena, &before, &after);
    if let Ok(advance) = result {
        if engine::accepted(arena, p + bytes) {
            assert((p + bytes) + Seq::<u8>::empty() =~= p + bytes);
            assert(engine::accepted(arena, (p + bytes) + Seq::<u8>::empty()));
        }
        if advance != Advance::Rejected {
            assert(after.recognizes(p + bytes));
            recognizer::law_going_is_viable(&after, p + bytes);
            let rest = choose|rest: Seq<u8>| #[trigger] after.generates((p + bytes) + rest);
            assert(engine::accepted(arena, (p + bytes) + rest));
            if advance == Advance::Accepting {
                engine::law_accepted_conforms(arena, &after, p + bytes);
            }
            if after.unhindered() && engine::accepted(arena, p + bytes) {
                law_state_is_exact(&after, p + bytes);
            }
        }
    }
}

/// Where a chunk of bytes ends does not matter: a recognizer that reads two chunks one after the
/// other rejects neither if another one, of the same schema and at the same place, read both
/// together, and then it says of the second what that one said of both, and accepts and is live
/// alike. Of calls that give errors, and of limits that hinder a recognizer, nothing is said.
pub proof fn law_chunks_do_not_matter(
    arena: &SchemaArena,
    whole: (RecognizerState, RecognizerState),
    parts: (RecognizerState, RecognizerState, RecognizerState),
    p: Seq<u8>,
    first: Seq<u8>,
    second: Seq<u8>,
    said: Advance,
    said_first: Advance,
    said_second: Advance,
)
    requires
        engine::recognizes_schema(&whole.0, arena),
        engine::recognizes_schema(&parts.0, arena),
        whole.0.recognizes(p),
        parts.0.recognizes(p),
        recognizer::reads_chunk(whole.0, whole.1, first + second, Ok(said)),
        said != Advance::Rejected,
        recognizer::reads_chunk(parts.0, parts.1, first, Ok(said_first)),
        recognizer::reads_chunk(parts.1, parts.2, second, Ok(said_second)),
        whole.1.unhindered(),
        parts.2.unhindered(),
    ensures
        said_first != Advance::Rejected,
        said_second == said,
        parts.2.accepting() == whole.1.accepting(),
        parts.2.live() == whole.1.live(),
{
    let h = p + (first + second);
    assert((p + first) + second =~= h);
    lemma_follows_schema(arena, &whole.0, &whole.1);
    lemma_follows_schema(arena, &parts.0, &parts.1);
    lemma_follows_schema(arena, &parts.1, &parts.2);
    assert(whole.1.recognizes(h));
    if first.len() + second.len() > 0 {
        recognizer::law_going_is_viable(&whole.1, h);
        lemma_begins(arena, &whole.1, h);
        let rest = choose|rest: Seq<u8>| #[trigger] engine::accepted(arena, h + rest);
        assert(h + rest =~= (p + first) + (second + rest));
        assert(engine::accepted(arena, (p + first) + (second + rest)));
        assert(begins(arena, p + first));
        lemma_begins(arena, &parts.0, p + first);
        lemma_begins(arena, &parts.1, h);
    }
    assert(said_first != Advance::Rejected);
    assert(parts.1.recognizes(p + first));
    assert(said_second != Advance::Rejected);
    assert(parts.2.recognizes((p + first) + second));
    law_state_is_exact(&whole.1, h);
    law_state_is_exact(&parts.2, h);
    lemma_begins(arena, &whole.1, h);
    lemma_begins(arena, &parts.2, h);
    assert(whole.1.generates(h) <==> engine::accepted(arena, h));
    assert(parts.2.generates(h) <==> engine::accepted(arena, h));
}

/// Backends that serve a schema agree: where both have read the same bytes, they reject the same
/// further bytes, say the same of the others, and accept and are live alike, unless limits hinder
/// one of them.
pub proof fn law_backends_answer_alike(
    arena: &SchemaArena,
    one: (RecognizerState, RecognizerState),
    other: (RecognizerState, RecognizerState),
    h: Seq<u8>,
    bytes: Seq<u8>,
    said: Advance,
    other_said: Advance,
)
    requires
        engine::recognizes_schema(&one.0, arena),
        engine::recognizes_schema(&other.0, arena),
        one.0.recognizes(h),
        other.0.recognizes(h),
        bytes.len() > 0,
        recognizer::reads_chunk(one.0, one.1, bytes, Ok(said)),
        recognizer::reads_chunk(other.0, other.1, bytes, Ok(other_said)),
    ensures
        said == Advance::Rejected <==> other_said == Advance::Rejected,
        said != Advance::Rejected ==> one.1.recognizes(h + bytes) && other.1.recognizes(h + bytes),
        said != Advance::Rejected && one.1.unhindered() && other.1.unhindered() ==> {
            &&& said == other_said
            &&& one.1.accepting() == other.1.accepting()
            &&& one.1.live() == other.1.live()
        },
{
    law_chunk_is_answered_exactly(arena, one.0, one.1, h, bytes, Ok(said));
    law_chunk_is_answered_exactly(arena, other.0, other.1, h, bytes, Ok(other_said));
    if said != Advance::Rejected && one.1.unhindered() && other.1.unhindered() {
        law_backends_stand_alike(arena, &one.1, &other.1, h + bytes);
    }
}

/// Backends that serve a schema and have read the same accept alike and are live alike, unless limits
/// hinder one of them.
pub proof fn law_backends_stand_alike(
    arena: &SchemaArena,
    one: &RecognizerState,
    other: &RecognizerState,
    h: Seq<u8>,
)
    requires
        engine::recognizes_schema(one, arena),
        engine::recognizes_schema(other, arena),
        one.recognizes(h),
        other.recognizes(h),
        one.unhindered(),
        other.unhindered(),
    ensures
        one.accepting() == other.accepting(),
        one.live() == other.live(),
{
    law_state_is_exact(one, h);
    law_state_is_exact(other, h);
    lemma_begins(arena, one, h);
    lemma_begins(arena, other, h);
    assert(one.generates(h) <==> engine::accepted(arena, h));
    assert(other.generates(h) <==> engine::accepted(arena, h));
}

/// Whether a token may come next: the sequence may end, or some text goes on with its bytes.
pub open spec fn offers(
    root: RecognizerState,
    h: Seq<u8>,
    eos: u32,
    entries: Seq<TokenEntry>,
    id: u32,
) -> bool {
    ||| id == eos && root.accepting()
    ||| exists|bytes: Seq<u8>| #[trigger]
        vocabulary::names(entries, bytes, id) && root.viable(h + bytes)
}

/// What a recognizer reads on from a state that is certain begins a text.
proof fn lemma_read_viable(root: RecognizerState, state: RecognizerState, h: Seq<u8>, bytes: Seq<u8>)
    requires
        certain(root),
        root.recognizes(h),
        mask::reads_to(root, bytes, state),
        state.going(),
        bytes.len() > 0,
    ensures
        root.viable(h + bytes),
{
    assert(state.recognizes(h + bytes));
    recognizer::law_going_is_viable(&state, h + bytes);
    let rest = choose|rest: Seq<u8>| #[trigger] state.generates((h + bytes) + rest);
    assert(root.generates((h + bytes) + rest));
}

/// A mask has just the tokens that may come next, where no limit keeps the recognizer from going on.
pub proof fn law_mask_is_exact(
    root: RecognizerState,
    h: Seq<u8>,
    eos: u32,
    entries: Seq<TokenEntry>,
    words: Seq<u32>,
)
    requires
        certain(root),
        root.recognizes(h),
        mask::masks(root, eos, entries, words),
        forall|i: int| 0 <= i < entries.len() ==> (#[trigger] entries[i]).bytes@.len() > 0,
        forall|bytes: Seq<u8>| !#[trigger] mask::stalls(root, bytes),
    ensures
        forall|id: u32| #[trigger]
            mask::bit(words, id) <==> offers(root, h, eos, entries, id),
{
    assert forall|id: u32| #[trigger] mask::bit(words, id) <==> offers(
        root,
        h,
        eos,
        entries,
        id,
    ) by {
        if mask::bit(words, id) {
            assert(mask::allowed(root, eos, entries, id));
            if !(id == eos && root.accepting()) {
                let bytes = choose|bytes: Seq<u8>| #[trigger]
                    vocabulary::names(entries, bytes, id) && mask::leads_on(root, bytes);
                let state = choose|state: RecognizerState| #[trigger]
                    mask::reads_to(root, bytes, state) && state.live();
                assert(state.going());
                assert(bytes.len() > 0);
                lemma_read_viable(root, state, h, bytes);
            }
        }
        if offers(root, h, eos, entries, id) && !(id == eos && root.accepting()) {
            let bytes = choose|bytes: Seq<u8>| #[trigger]
                vocabulary::names(entries, bytes, id) && root.viable(h + bytes);
            assert(!mask::stalls(root, bytes));
        }
    }
}

/// Whether a guide is exact over a vocabulary: its index holds what an automaton allows, or its
/// recognizer misses nothing and is not hindered by limits. No token has the identifier of the end.
pub open spec fn exact_over(guide: &Guide, entries: Seq<TokenEntry>) -> bool {
    &&& forall|bytes: Seq<u8>| !#[trigger]
        vocabulary::names(entries, bytes, guide.eos_token_id)
    &&& match guide.runtime {
        GuideRuntime::Dfa { index, .. } => exists|dfa: CompiledByteDfa| #[trigger]
            engine::index_serves(&*index, &dfa, entries) && dfa.wf(),
        GuideRuntime::Parser { recognizer } => {
            &&& certain(*recognizer)
            &&& forall|bytes: Seq<u8>| !#[trigger] mask::stalls(*recognizer, bytes)
            &&& guide.vocabulary->0.derives(entries)
        },
    }
}

/// Whether a token leads an automaton from a state to one from which a text can be ended.
pub open spec fn reads_token(
    dfa: &CompiledByteDfa,
    state: u32,
    entries: Seq<TokenEntry>,
    id: u32,
) -> bool {
    exists|bytes: Seq<u8>| #[trigger]
        vocabulary::names(entries, bytes, id) && dfa.live_at(dfa.run(state, bytes))
}

/// A walk through an automaton is a run that does not leave it.
proof fn lemma_walk_runs(dfa: &CompiledByteDfa, state: u32, bytes: Seq<u8>)
    requires
        dfa.wf(),
        state < dfa.states(),
    ensures
        match index::walk(dfa, state, bytes) {
            Some(next) => next == dfa.run(state, bytes) && next < dfa.states(),
            None => dfa.run(state, bytes) >= dfa.states(),
        },
    decreases bytes.len(),
{
    if bytes.len() > 0 {
        lemma_walk_runs(dfa, state, bytes.drop_last());
        if index::walk(dfa, state, bytes.drop_last()) is None {
            let before = dfa.run(state, bytes.drop_last());
            dfa.lemma_outside_run(before, seq![bytes.last()]);
            assert(seq![bytes.last()].drop_last() =~= Seq::<u8>::empty());
            assert(dfa.run(before, seq![bytes.last()].drop_last()) == before);
        }
    }
}

/// What is live is a state of the automaton.
proof fn lemma_live_inside(dfa: &CompiledByteDfa, state: u32)
    requires
        dfa.wf(),
        dfa.live_at(state),
    ensures
        state < dfa.states(),
{
    let w = choose|w: Seq<u8>| dfa.accepts_at(#[trigger] dfa.run(state, w));
    if state >= dfa.states() {
        dfa.lemma_outside_run(state, w);
    }
}

/// The states of an index behind tokens are those that tokens reach.
proof fn lemma_index_state(
    index: &index::Index,
    dfa: &CompiledByteDfa,
    entries: Seq<TokenEntry>,
    tokens: Seq<u32>,
)
    requires
        dfa.wf(),
        index.exact(dfa, entries),
        guide::index_after(index, tokens) is Some,
    ensures
        index::reachable(dfa, entries, guide::index_after(index, tokens)->0),
        guide::index_after(index, tokens)->0 < dfa.states(),
    decreases tokens.len(),
{
    if tokens.len() == 0 {
        assert(index::reaches(dfa, entries, 0, index.initial_state));
    } else {
        lemma_index_state(index, dfa, entries, tokens.drop_last());
        let before = guide::index_after(index, tokens.drop_last())->0;
        let id = tokens.last();
        if id != index.eos_token_id {
            let row = index.transitions@[before]@;
            let state = row[id];
            assert(index::row_exact(dfa, entries, index.eos_token_id, before, row));
            assert(index::leads(dfa, entries, before, id, state));
            let i = choose|i: int|
                0 <= i < entries.len() && (#[trigger] entries[i]).id == id && index::target(
                    dfa,
                    before,
                    entries[i].bytes@,
                ) == Some(state);
            let n = choose|n: nat| #[trigger] index::reaches(dfa, entries, n, before);
            assert(index::target(dfa, before, entries[i].bytes@) == Some(state));
            assert(index::reaches(dfa, entries, n + 1, state));
            lemma_live_inside(dfa, state);
        }
    }
}

/// A row of an index holds just the tokens that lead its automaton on.
proof fn lemma_index_token(guide: &Guide, dfa: &CompiledByteDfa, entries: Seq<TokenEntry>, id: u32)
    requires
        guide.wf(),
        dfa.wf(),
        guide.runtime matches GuideRuntime::Dfa { index, .. } && engine::index_serves(
            &*index,
            dfa,
            entries,
        ),
        id != guide.eos_token_id,
        !guide.finished,
    ensures
        guide.runtime matches GuideRuntime::Dfa { index, state } && (reads_token(
            dfa,
            state,
            entries,
            id,
        ) <==> index.transitions@.dom().contains(state) && index.transitions@[state]@.dom().contains(
            id,
        )),
{
    if let GuideRuntime::Dfa { index, state } = guide.runtime {
        let tokens = guide.committed_token_ids@;
        if dfa.live_at(0) {
            lemma_index_state(&*index, dfa, entries, tokens);
            assert(index::reachable(dfa, entries, state));
            assert(index.transitions@.dom().contains(state));
            let row = index.transitions@[state]@;
            assert(index::row_exact(dfa, entries, index.eos_token_id, state, row));
            if row.dom().contains(id) {
                assert(index::leads(dfa, entries, state, id, row[id]));
                let i = choose|i: int|
                    0 <= i < entries.len() && (#[trigger] entries[i]).id == id && index::target(
                        dfa,
                        state,
                        entries[i].bytes@,
                    ) == Some(row[id]);
                lemma_walk_runs(dfa, state, entries[i].bytes@);
                assert(vocabulary::names(entries, entries[i].bytes@, id));
            }
            if reads_token(dfa, state, entries, id) {
                let bytes = choose|bytes: Seq<u8>| #[trigger]
                    vocabulary::names(entries, bytes, id) && dfa.live_at(dfa.run(state, bytes));
                let i = choose|i: int|
                    0 <= i < entries.len() && (#[trigger] entries[i]).bytes@ == bytes
                        && entries[i].id == id;
                lemma_walk_runs(dfa, state, bytes);
                lemma_live_inside(dfa, dfa.run(state, bytes));
                assert(index::leads(dfa, entries, state, id, dfa.run(state, bytes)));
            }
        } else {
            lemma_index_stays(&*index, tokens);
            assert(state == 0);
            if reads_token(dfa, state, entries, id) {
                let bytes = choose|bytes: Seq<u8>| #[trigger]
                    vocabulary::names(entries, bytes, id) && dfa.live_at(dfa.run(state, bytes));
                let w = choose|w: Seq<u8>|
                    dfa.accepts_at(#[trigger] dfa.run(dfa.run(state, bytes), w));
                dfa.lemma_run_concat(state, bytes, w);
                assert(dfa.accepts_at(dfa.run(state, bytes + w)));
            }
        }
    }
}

/// An index that holds nothing stays in its first state.
proof fn lemma_index_stays(index: &index::Index, tokens: Seq<u32>)
    requires
        index.empty(),
        guide::index_after(index, tokens) is Some,
    ensures
        guide::index_after(index, tokens) == Some(index.initial_state),
    decreases tokens.len(),
{
    if tokens.len() > 0 {
        lemma_index_stays(index, tokens.drop_last());
    }
}

/// Each bit of a guide's mask: that of the end is set just where the sequence may end, and that of a
/// token just where the sequence has not ended and the token may come next.
pub proof fn law_guide_mask_is_exact(guide: &Guide, entries: Seq<TokenEntry>, words: Seq<u32>)
    requires
        guide.wf(),
        guide.mask_is(words),
        exact_over(guide, entries),
    ensures
        mask::bit(words, guide.eos_token_id) <==> guide.accepting(),
        guide.runtime matches GuideRuntime::Parser { recognizer } ==> forall|id: u32|
            id != guide.eos_token_id ==> (#[trigger] mask::bit(words, id) <==> !guide.finished
                && offers(
                *recognizer,
                guide.committed_bytes@,
                guide.eos_token_id,
                entries,
                id,
            )),
        guide.runtime matches GuideRuntime::Dfa { index, state } ==> forall|
            dfa: CompiledByteDfa,
            id: u32,
        |
            #![trigger engine::index_serves(&*index, &dfa, entries), mask::bit(words, id)]
            engine::index_serves(&*index, &dfa, entries) && dfa.wf() && id != guide.eos_token_id
                ==> (mask::bit(words, id) <==> !guide.finished && reads_token(
                &dfa,
                state,
                entries,
                id,
            )),
{
    match guide.runtime {
        GuideRuntime::Dfa { index, state } => {
            if !guide.finished {
                lemma_index_end(guide, entries);
                assert forall|dfa: CompiledByteDfa, id: u32|
                    #![trigger engine::index_serves(&*index, &dfa, entries), mask::bit(words, id)]
                    engine::index_serves(&*index, &dfa, entries) && dfa.wf() && id
                        != guide.eos_token_id implies (mask::bit(words, id) <==> reads_token(
                    &dfa,
                    state,
                    entries,
                    id,
                )) by {
                    lemma_index_token(guide, &dfa, entries, id);
                }
            }
        },
        GuideRuntime::Parser { recognizer } => {
            if !guide.finished {
                assert(mask::masks(*recognizer, guide.eos_token_id, entries, words));
                law_mask_is_exact(
                    *recognizer,
                    guide.committed_bytes@,
                    guide.eos_token_id,
                    entries,
                    words,
                );
                assert(mask::bit(words, guide.eos_token_id) <==> offers(
                    *recognizer,
                    guide.committed_bytes@,
                    guide.eos_token_id,
                    entries,
                    guide.eos_token_id,
                ));
            }
        },
    }
}

/// The end is in a row of an index just where the state accepts.
proof fn lemma_index_end(guide: &Guide, entries: Seq<TokenEntry>)
    requires
        guide.wf(),
        exact_over(guide, entries),
        guide.runtime is Dfa,
        !guide.finished,
    ensures
        guide.runtime matches GuideRuntime::Dfa { index, state } && (guide.accepting()
            <==> index.transitions@.dom().contains(state) && index.transitions@[state]@.dom().contains(
            guide.eos_token_id,
        )),
{
    if let GuideRuntime::Dfa { index, state } = guide.runtime {
        let dfa = choose|dfa: CompiledByteDfa| #[trigger]
            engine::index_serves(&*index, &dfa, entries) && dfa.wf();
        let eos = guide.eos_token_id;
        assert(index.eos_token_id == eos);
        if dfa.live_at(0) {
            assert((state as u64) as u32 == state);
            assert(index.final_states@.contains(state as u64) <==> index::reachable(
                &dfa,
                entries,
                state,
            ) && dfa.accepts_at(state));
            if index.transitions@.dom().contains(state) {
                let row = index.transitions@[state]@;
                assert(index::row_exact(&dfa, entries, eos, state, row));
                if row.dom().contains(eos) && !dfa.accepts_at(state) {
                    assert(index::leads(&dfa, entries, state, eos, row[eos]));
                    let i = choose|i: int|
                        0 <= i < entries.len() && (#[trigger] entries[i]).id == eos
                            && index::target(&dfa, state, entries[i].bytes@) == Some(row[eos]);
                    assert(vocabulary::names(entries, entries[i].bytes@, eos));
                }
            }
        }
    }
}

/// A token is taken just where the mask has it: where the sequence is not too long, and no limit
/// halts the recognizer. If it is taken it is committed, and the sequence has ended just where it is
/// the end; if not, the guide stands where it stood.
pub proof fn law_mask_tells_what_advances(
    before: &Guide,
    after: &Guide,
    entries: Seq<TokenEntry>,
    token_id: u32,
    result: Result<(), RuntimeError>,
    words: Seq<u32>,
)
    requires
        before.wf(),
        before.mask_is(words),
        guide::advances(before, after, token_id, result),
        exact_over(before, entries),
        before.committed_token_ids@.len() < before.limits.max_committed_tokens,
        !recognizer_halts(before, token_id, result),
    ensures
        result is Ok <==> mask::bit(words, token_id),
        result is Ok ==> after.committed_token_ids@ == before.committed_token_ids@.push(token_id)
            && after.finished == (token_id == before.eos_token_id),
        result is Err ==> *after == *before || after.same(before),
{
    law_guide_mask_is_exact(before, entries, words);
    if !before.finished {
        if let GuideRuntime::Parser { recognizer } = before.runtime {
            let root = *recognizer;
            let h = before.committed_bytes@;
            let eos = before.eos_token_id;
            if token_id != eos {
                assert(mask::bit(words, token_id) <==> offers(root, h, eos, entries, token_id));
                if guide::refusal(before, token_id) is None {
                    lemma_known_token(before, after, entries, token_id, result);
                } else if offers(root, h, eos, entries, token_id) {
                    let bytes = choose|bytes: Seq<u8>| #[trigger]
                        vocabulary::names(entries, bytes, token_id) && root.viable(h + bytes);
                    assert(before.reverse()[token_id as int] is Some);
                }
            }
        }
    }
}

/// A token of the vocabulary is taken just where some text goes on with its bytes.
proof fn lemma_known_token(
    before: &Guide,
    after: &Guide,
    entries: Seq<TokenEntry>,
    token_id: u32,
    result: Result<(), RuntimeError>,
)
    requires
        before.wf(),
        !before.finished,
        before.runtime is Parser,
        exact_over(before, entries),
        guide::advances(before, after, token_id, result),
        token_id != before.eos_token_id,
        guide::refusal(before, token_id) is None,
        !recognizer_halts(before, token_id, result),
    ensures
        before.runtime matches GuideRuntime::Parser { recognizer } && (result is Ok <==> offers(
            *recognizer,
            before.committed_bytes@,
            before.eos_token_id,
            entries,
            token_id,
        )),
{
    if let GuideRuntime::Parser { recognizer } = before.runtime {
        let root = *recognizer;
        let h = before.committed_bytes@;
        let bytes = guide::token_bytes(before.reverse(), token_id);
        assert(vocabulary::names(entries, bytes, token_id));
        assert(bytes.len() > 0) by {
            let i = choose|i: int|
                0 <= i < entries.len() && (#[trigger] entries[i]).bytes@ == bytes && entries[i].id
                    == token_id;
        }
        assert forall|other: Seq<u8>| #[trigger]
            vocabulary::names(entries, other, token_id) implies other == bytes by {}
        if result is Ok {
            if let GuideRuntime::Parser { recognizer: then } = after.runtime {
                lemma_read_viable(root, *then, h, bytes);
            }
        }
    }
}

/// Whether a recognizer halts on a token with the error that is given back.
pub open spec fn recognizer_halts(
    before: &Guide,
    token_id: u32,
    result: Result<(), RuntimeError>,
) -> bool {
    result matches Err(error) && (before.runtime matches GuideRuntime::Parser { recognizer }
        && recognizer::halts(
        *recognizer,
        guide::token_bytes(before.reverse(), token_id),
        error,
    ))
}

/// Whether guides come one from another by tokens that were taken.
pub open spec fn advanced_through(guides: Seq<Guide>, tokens: Seq<u32>) -> bool {
    &&& guides.len() == tokens.len() + 1
    &&& forall|k: int| 0 <= k < guides.len() ==> (#[trigger] guides[k]).wf()
    &&& forall|k: int|
        #![trigger guides[k]]
        0 <= k < tokens.len() ==> guides[k + 1].kindred(&guides[k]) && guide::advances(
            &guides[k],
            &guides[k + 1],
            tokens[k],
            Ok(()),
        )
}

/// Guides that took tokens have these behind those of the first, and remember as many as they may.
proof fn lemma_advanced(guides: Seq<Guide>, tokens: Seq<u32>, k: int)
    requires
        advanced_through(guides, tokens),
        0 <= k <= tokens.len(),
    ensures
        guides[k].committed_token_ids@ == guides[0].committed_token_ids@ + tokens.take(k),
        guides[k].kindred(&guides[0]),
        guides[k].max_rollback == guides[0].max_rollback,
        k <= guides[0].max_rollback ==> guides[k].history@.len() >= k,
        k > 0 ==> !guides[0].finished,
    decreases k,
{
    if k == 0 {
        assert(guides[0].committed_token_ids@ + tokens.take(0)
            =~= guides[0].committed_token_ids@);
        guides[0].lemma_kindred_self();
    } else {
        lemma_advanced(guides, tokens, k - 1);
        let before = guides[k - 1];
        assert(guide::advances(&guides[k - 1], &guides[k - 1 + 1], tokens[k - 1], Ok(())));
        assert(guides[k].committed_token_ids@ =~= guides[0].committed_token_ids@ + tokens.take(k));
        guides[k].lemma_kindred_join(&before, &guides[0]);
    }
}

/// Tokens that are taken and then taken back leave the guide where it was: as many as were taken, if
/// it may remember so many, can be taken back, and then the tokens, the bytes, the end, the
/// fingerprint and every bit of the mask are as before.
pub proof fn law_rollback_is_a_round_trip(
    guides: Seq<Guide>,
    tokens: Seq<u32>,
    back: Guide,
    result: Result<(), RuntimeError>,
)
    requires
        advanced_through(guides, tokens),
        tokens.len() <= guides[0].max_rollback,
        back.wf(),
        back.kindred(&guides.last()),
        guide::rolls_back(&guides.last(), &back, tokens.len() as usize, result),
    ensures
        result is Ok,
        back.kindred(&guides[0]),
        back.committed_token_ids@ == guides[0].committed_token_ids@,
        back.committed_bytes@ == guides[0].committed_bytes@,
        back.finished == guides[0].finished,
        back.fingerprint() == guides[0].fingerprint(),
{
    let n = tokens.len() as int;
    let first = guides[0];
    lemma_advanced(guides, tokens, n);
    back.lemma_kindred_join(&guides.last(), &first);
    assert(guides.last() == guides[n]);
    assert(guides[n].committed_token_ids@.take(first.committed_token_ids@.len() as int)
        =~= first.committed_token_ids@);
    assert(tokens.take(n) =~= tokens);
    if n == 0 {
        assert(back.committed_token_ids@ =~= first.committed_token_ids@);
    }
    guide::law_rollback_returns(&first, &back);
    guide::law_same_tokens_same_fingerprint(&back, &first);
}

/// Guides that stand behind the same tokens offer the same: where both are exact over a vocabulary
/// and not hindered by limits, their masks have the same bits and the sequence may end alike.
pub proof fn law_same_tokens_same_offers(
    one: &Guide,
    other: &Guide,
    entries: Seq<TokenEntry>,
    words: Seq<u32>,
    other_words: Seq<u32>,
)
    requires
        one.wf(),
        other.wf(),
        other.kindred(one),
        other.committed_token_ids@ == one.committed_token_ids@,
        exact_over(one, entries),
        exact_over(other, entries),
        one.runtime matches GuideRuntime::Parser { recognizer } ==> recognizer.unhindered(),
        other.runtime matches GuideRuntime::Parser { recognizer } ==> recognizer.unhindered(),
        one.mask_is(words),
        other.mask_is(other_words),
    ensures
        one.accepting() == other.accepting(),
        forall|id: u32| #[trigger] mask::bit(words, id) == mask::bit(other_words, id),
{
    guide::law_rollback_returns(one, other);
    law_guide_mask_is_exact(one, entries, words);
    law_guide_mask_is_exact(other, entries, other_words);
    if let (GuideRuntime::Parser { recognizer: a }, GuideRuntime::Parser { recognizer: b }) = (
        one.runtime,
        other.runtime,
    ) {
        let h = one.committed_bytes@;
        let eos = one.eos_token_id;
        law_state_is_exact(&*a, h);
        law_state_is_exact(&*b, h);
        assert(a.generates(h) == b.generates(h));
        assert forall|id: u32| #[trigger] mask::bit(words, id) == mask::bit(other_words, id) by {
            if id != eos {
                lemma_offers_alike(*a, *b, h, eos, entries, id);
            }
        }
    }
}

/// Recognizers of the same language that stand at the same place offer the same tokens.
proof fn lemma_offers_alike(
    a: RecognizerState,
    b: RecognizerState,
    h: Seq<u8>,
    eos: u32,
    entries: Seq<TokenEntry>,
    id: u32,
)
    requires
        guide::same_language(b, a),
        id != eos,
    ensures
        offers(a, h, eos, entries, id) == offers(b, h, eos, entries, id),
{
    assert forall|w: Seq<u8>| #[trigger] a.viable(w) == b.viable(w) by {
        if a.viable(w) {
            let rest = choose|rest: Seq<u8>| #[trigger] a.generates(w + rest);
            assert(b.generates(w + rest));
        }
        if b.viable(w) {
            let rest = choose|rest: Seq<u8>| #[trigger] b.generates(w + rest);
            assert(a.generates(w + rest));
        }
    }
    if offers(a, h, eos, entries, id) {
        let bytes = choose|bytes: Seq<u8>| #[trigger]
            vocabulary::names(entries, bytes, id) && a.viable(h + bytes);
        assert(b.viable(h + bytes));
    }
    if offers(b, h, eos, entries, id) {
        let bytes = choose|bytes: Seq<u8>| #[trigger]
            vocabulary::names(entries, bytes, id) && b.viable(h + bytes);
        assert(a.viable(h + bytes));
    }
}

/// Whether a byte string is made of the bytes of tokens, one after the other. The end has none.
pub open spec fn spelled(
    entries: Seq<TokenEntry>,
    eos: u32,
    tokens: Seq<u32>,
    w: Seq<u8>,
) -> bool
    decreases tokens.len(),
{
    if tokens.len() == 0 {
        w.len() == 0
    } else if tokens.last() == eos {
        spelled(entries, eos, tokens.drop_last(), w)
    } else {
        exists|k: int|
            0 <= k <= w.len() && #[trigger] vocabulary::names(entries, w.skip(k), tokens.last())
                && spelled(entries, eos, tokens.drop_last(), w.take(k))
    }
}

/// The state of an index behind tokens is that of its automaton behind their bytes.
proof fn lemma_index_spells(
    index: &index::Index,
    dfa: &CompiledByteDfa,
    entries: Seq<TokenEntry>,
    tokens: Seq<u32>,
) -> (w: Seq<u8>)
    requires
        dfa.wf(),
        index.exact(dfa, entries),
        index.initial_state == 0,
        guide::index_after(index, tokens) is Some,
    ensures
        spelled(entries, index.eos_token_id, tokens, w),
        guide::index_after(index, tokens)->0 == dfa.run(0, w),
    decreases tokens.len(),
{
    if tokens.len() == 0 {
        let none = Seq::<u8>::empty();
        assert(dfa.run(0, none) == 0);
        none
    } else {
        let front = lemma_index_spells(index, dfa, entries, tokens.drop_last());
        let before = guide::index_after(index, tokens.drop_last())->0;
        let id = tokens.last();
        if id == index.eos_token_id {
            front
        } else {
            lemma_index_state(index, dfa, entries, tokens.drop_last());
            assert(index.transitions@.dom().contains(before));
            let row = index.transitions@[before]@;
            assert(index::row_exact(dfa, entries, index.eos_token_id, before, row));
            assert(index::leads(dfa, entries, before, id, row[id]));
            let i = choose|i: int|
                0 <= i < entries.len() && (#[trigger] entries[i]).id == id && index::target(
                    dfa,
                    before,
                    entries[i].bytes@,
                ) == Some(row[id]);
            let bytes = entries[i].bytes@;
            lemma_walk_runs(dfa, before, bytes);
            dfa.lemma_run_concat(0, front, bytes);
            let w = front + bytes;
            let k = front.len() as int;
            assert(w.skip(k) =~= bytes);
            assert(w.take(k) =~= front);
            assert(vocabulary::names(entries, w.skip(k), id));
            w
        }
    }
}

/// An automaton that serves a schema is live just where some text begins with what was read.
proof fn lemma_live_begins(arena: &SchemaArena, dfa: &CompiledByteDfa, w: Seq<u8>)
    requires
        engine::dfa_serves(dfa, arena),
    ensures
        dfa.live_at(dfa.run(0, w)) <==> begins(arena, w),
{
    if dfa.live_at(dfa.run(0, w)) {
        let rest = choose|rest: Seq<u8>|
            dfa.accepts_at(#[trigger] dfa.run(dfa.run(0, w), rest));
        dfa.lemma_run_concat(0, w, rest);
        assert(dfa.accepts(w + rest));
        assert(engine::accepted(arena, w + rest));
    }
    if begins(arena, w) {
        let rest = choose|rest: Seq<u8>| #[trigger] engine::accepted(arena, w + rest);
        assert(dfa.accepts(w + rest));
        dfa.lemma_run_concat(0, w, rest);
        assert(dfa.accepts_at(dfa.run(dfa.run(0, w), rest)));
    }
}

/// Whether a token continues what was read to the beginning of a text.
pub open spec fn continues_text(
    arena: &SchemaArena,
    entries: Seq<TokenEntry>,
    w: Seq<u8>,
    id: u32,
) -> bool {
    exists|bytes: Seq<u8>| #[trigger]
        vocabulary::names(entries, bytes, id) && begins(arena, w + bytes)
}

/// The mask of a guide that recognizes a schema has just the tokens with whose bytes some text of
/// the schema goes on, and the end where the sequence may end.
pub proof fn law_parser_mask_holds_what_texts_go_on_with(
    arena: &SchemaArena,
    guide: &Guide,
    entries: Seq<TokenEntry>,
    words: Seq<u32>,
)
    requires
        guide.wf(),
        !guide.finished,
        guide.mask_is(words),
        exact_over(guide, entries),
        guide.runtime matches GuideRuntime::Parser { recognizer } && engine::recognizes_schema(
            &*recognizer,
            arena,
        ),
    ensures
        mask::bit(words, guide.eos_token_id) <==> guide.accepting(),
        forall|id: u32|
            id != guide.eos_token_id ==> (#[trigger] mask::bit(words, id) <==> continues_text(
                arena,
                entries,
                guide.committed_bytes@,
                id,
            )),
{
    law_guide_mask_is_exact(guide, entries, words);
    if let GuideRuntime::Parser { recognizer } = guide.runtime {
        let h = guide.committed_bytes@;
        assert forall|id: u32|
            id != guide.eos_token_id implies (#[trigger] mask::bit(words, id) <==> continues_text(
            arena,
            entries,
            h,
            id,
        )) by {
            if offers(*recognizer, h, guide.eos_token_id, entries, id) {
                let bytes = choose|bytes: Seq<u8>| #[trigger]
                    vocabulary::names(entries, bytes, id) && recognizer.viable(h + bytes);
                lemma_begins(arena, &*recognizer, h + bytes);
            }
            if continues_text(arena, entries, h, id) {
                let bytes = choose|bytes: Seq<u8>| #[trigger]
                    vocabulary::names(entries, bytes, id) && begins(arena, h + bytes);
                lemma_begins(arena, &*recognizer, h + bytes);
            }
        }
    }
}

/// The mask of a guide over the index of a schema has just the tokens with whose bytes some text of
/// the schema goes on behind the bytes of the tokens so far, and the end where these are a text.
pub proof fn law_index_mask_holds_what_texts_go_on_with(
    arena: &SchemaArena,
    guide: &Guide,
    dfa: &CompiledByteDfa,
    entries: Seq<TokenEntry>,
    words: Seq<u32>,
) -> (w: Seq<u8>)
    requires
        guide.wf(),
        !guide.finished,
        guide.mask_is(words),
        exact_over(guide, entries),
        engine::dfa_serves(dfa, arena),
        dfa.live_at(0),
        guide.runtime matches GuideRuntime::Dfa { index, .. } && engine::index_serves(
            &*index,
            dfa,
            entries,
        ),
    ensures
        spelled(entries, guide.eos_token_id, guide.committed_token_ids@, w),
        mask::bit(words, guide.eos_token_id) <==> engine::accepted(arena, w),
        forall|id: u32|
            id != guide.eos_token_id ==> (#[trigger] mask::bit(words, id) <==> continues_text(
                arena,
                entries,
                w,
                id,
            )),
{
    law_guide_mask_is_exact(guide, entries, words);
    let index = guide.runtime->Dfa_index;
    let state = guide.runtime->Dfa_state;
    let tokens = guide.committed_token_ids@;
    let w = lemma_index_spells(&*index, dfa, entries, tokens);
    assert(state == dfa.run(0, w));
    lemma_index_state(&*index, dfa, entries, tokens);
    assert((state as u64) as u32 == state);
    assert(index.final_states@.contains(state as u64) <==> dfa.accepts_at(state));
    assert(dfa.accepts(w) <==> engine::accepted(arena, w));
    assert forall|id: u32|
        id != guide.eos_token_id implies (#[trigger] mask::bit(words, id) <==> continues_text(
        arena,
        entries,
        w,
        id,
    )) by {
        assert(engine::index_serves(&*index, dfa, entries) && dfa.wf());
        assert(mask::bit(words, id) <==> reads_token(dfa, state, entries, id));
        if reads_token(dfa, state, entries, id) {
            let bytes = choose|bytes: Seq<u8>| #[trigger]
                vocabulary::names(entries, bytes, id) && dfa.live_at(dfa.run(state, bytes));
            dfa.lemma_run_concat(0, w, bytes);
            lemma_live_begins(arena, dfa, w + bytes);
        }
        if continues_text(arena, entries, w, id) {
            let bytes = choose|bytes: Seq<u8>| #[trigger]
                vocabulary::names(entries, bytes, id) && begins(arena, w + bytes);
            dfa.lemma_run_concat(0, w, bytes);
            lemma_live_begins(arena, dfa, w + bytes);
        }
    }
    w
}

} // verus!
