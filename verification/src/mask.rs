//! Masks over a vocabulary: which tokens a recognizer allows next.

use vstd::prelude::*;

use crate::count;
use crate::earley;
use crate::error::{RuntimeError, RuntimeResource};
use crate::recognizer;
use crate::recognizer::{Advance, RecognizerCheckpoint, RecognizerState};
use crate::schema::RuntimeLimits;
use crate::trie::{DerivedVocabulary, TokenTrie, TrieEdge, TrieNode};
use crate::vocabulary;
use crate::vocabulary::TokenEntry;

verus! {

/// What was counted while masks were filled.
#[derive(Clone, Copy, Debug, PartialEq, Eq, Structural)]
pub struct MaskStats {
    pub queries: u64,
    pub cache_hits: u64,
    pub cache_misses: u64,
    pub cache_bytes: u64,
    pub trie_edges_visited: u64,
    pub trie_edges_pruned: u64,
    pub token_ids_enabled: u64,
    pub peak_stack_depth: u64,
    pub errors: u64,
}

impl Default for MaskStats {
    fn default() -> (stats: Self)
        ensures
            stats == MaskStats::nothing(),
    {
        MaskStats {
            queries: 0,
            cache_hits: 0,
            cache_misses: 0,
            cache_bytes: 0,
            trie_edges_visited: 0,
            trie_edges_pruned: 0,
            token_ids_enabled: 0,
            peak_stack_depth: 0,
            errors: 0,
        }
    }
}

impl MaskStats {
    /// Nothing counted yet.
    pub open spec fn nothing() -> Self {
        MaskStats {
            queries: 0,
            cache_hits: 0,
            cache_misses: 0,
            cache_bytes: 0,
            trie_edges_visited: 0,
            trie_edges_pruned: 0,
            token_ids_enabled: 0,
            peak_stack_depth: 0,
            errors: 0,
        }
    }
}

/// Whether the bit of an identifier is set in a word.
pub open spec fn word_bit(word: u32, bit: u32) -> bool {
    word & (1u32 << bit) != 0
}

/// Whether the bit of an identifier is set in a mask.
pub open spec fn bit(mask: Seq<u32>, id: u32) -> bool {
    id / 32 < mask.len() && word_bit(mask[(id / 32) as int], id % 32)
}

/// Setting a bit sets that bit and no other.
proof fn lemma_set(word: u32, at: u32, other: u32)
    requires
        at < 32,
        other < 32,
    ensures
        word_bit(word | (1u32 << at), other) <==> other == at || word_bit(word, other),
{
    assert((word | (1u32 << at)) & (1u32 << other) != 0 <==> other == at || word & (1u32 << other)
        != 0) by (bit_vector)
        requires
            at < 32,
            other < 32,
    ;
}

/// No bit of a word of zeros is set.
pub proof fn lemma_zero(at: u32)
    requires
        at < 32,
    ensures
        !word_bit(0, at),
{
    assert(0u32 & (1u32 << at) == 0) by (bit_vector);
}

/// Sets the bit of an identifier, if the mask is wide enough.
pub fn set_mask_bit(destination: &mut Vec<u32>, token_id: u32) -> (result: Result<(), RuntimeError>)
    ensures
        final(destination)@.len() == old(destination)@.len(),
        result is Ok <==> token_id / 32 < old(destination)@.len(),
        result is Ok ==> forall|id: u32| #[trigger]
            bit(final(destination)@, id) <==> id == token_id || bit(old(destination)@, id),
        result is Err ==> final(destination)@ == old(destination)@,
        result matches Err(error) ==> error == (RuntimeError::InternalInvariant {
            message: "token ID exceeds the validated mask width",
        }),
{
    let word: usize = (token_id / 32) as usize;
    let at: u32 = token_id % 32;
    if word >= destination.len() {
        return Err(
            RuntimeError::InternalInvariant {
                message: "token ID exceeds the validated mask width",
            },
        );
    }
    let ghost before = destination@;
    let value: u32 = destination[word];
    destination.set(word, value | (1u32 << at));
    proof {
        assert forall|id: u32| #[trigger] bit(destination@, id) <==> id == token_id || bit(
            before,
            id,
        ) by {
            if id / 32 == token_id / 32 {
                lemma_set(value, at, id % 32);
            }
        }
    }
    Ok(())
}

/// A node on the way through the trie, and the state in which it was reached.
#[derive(Debug)]
struct TrieFrame {
    node: usize,
    next_edge: usize,
    emitted: bool,
    checkpoint: RecognizerCheckpoint,
}

/// What the walk through the trie is about.
struct Walk {
    root: RecognizerState,
    trie: TokenTrie,
    paths: Seq<Seq<u8>>,
}

/// The walk through the trie of a vocabulary from a state.
spec fn walk_of(root: RecognizerState, vocabulary: &DerivedVocabulary, paths: Seq<Seq<u8>>) -> Walk {
    Walk { root, trie: *vocabulary.trie, paths }
}

/// Whether a state is one that a recognizer reaches by reading bytes.
pub open spec fn reads_to(root: RecognizerState, bytes: Seq<u8>, state: RecognizerState) -> bool {
    &&& state.wf()
    &&& state.follows(&root)
    &&& forall|h: Seq<u8>| root.recognizes(h) ==> state.recognizes(#[trigger] (h + bytes))
}

/// Whether a recognizer reads bytes to a live state.
pub open spec fn leads_on(root: RecognizerState, bytes: Seq<u8>) -> bool {
    exists|state: RecognizerState| #[trigger] reads_to(root, bytes, state) && state.live()
}

/// Whether limits keep a recognizer that reads bytes from going on.
pub open spec fn stalls(root: RecognizerState, bytes: Seq<u8>) -> bool {
    exists|state: RecognizerState| #[trigger] reads_to(root, bytes, state) && state.hindered()
}

/// Whether a bit may be set: the sequence may end, or a token leads on.
pub open spec fn allowed(
    root: RecognizerState,
    eos: u32,
    entries: Seq<TokenEntry>,
    id: u32,
) -> bool {
    ||| id == eos && root.accepting()
    ||| exists|bytes: Seq<u8>| #[trigger]
        vocabulary::names(entries, bytes, id) && leads_on(root, bytes)
}

/// Whether a mask is that of a recognizer's state: every bit is allowed, the end of the sequence is
/// set where the input is accepted, and so is every token with which some string of the language
/// goes on, unless limits keep the recognizer from going on.
pub open spec fn masks(
    root: RecognizerState,
    eos: u32,
    entries: Seq<TokenEntry>,
    mask: Seq<u32>,
) -> bool {
    &&& forall|id: u32| #[trigger] bit(mask, id) ==> allowed(root, eos, entries, id)
    &&& root.accepting() ==> bit(mask, eos)
    &&& root.faithful() ==> forall|h: Seq<u8>, bytes: Seq<u8>, id: u32|
        #![trigger vocabulary::names(entries, bytes, id), root.viable(h + bytes)]
        root.recognizes(h) && vocabulary::names(entries, bytes, id) && root.viable(h + bytes)
            ==> bit(mask, id) || stalls(root, bytes)
}

/// Whether no string of the language goes on with the bytes of a node.
spec fn barred(walk: Walk, n: int) -> bool {
    walk.root.faithful() ==> forall|h: Seq<u8>|
        walk.root.recognizes(h) ==> !walk.root.viable(#[trigger] (h + walk.paths[n]))
}

/// Whether the identifiers of a node are in the mask, unless the recognizer was not live there.
spec fn emitted_at(walk: Walk, mask: Seq<u32>, n: int) -> bool {
    ||| forall|id: u32| #[trigger] walk.trie.ids_of(n).contains(id) ==> bit(mask, id)
    ||| exists|state: RecognizerState| #[trigger]
        reads_to(walk.root, walk.paths[n], state) && !state.live()
}

/// Whether an edge of a node was followed or refused.
spec fn handled(walk: Walk, reached: Set<int>, n: int, e: int) -> bool {
    let child = walk.trie.edges_of(n)[e].child as int;
    reached.contains(child) || barred(walk, child)
}

/// Whether a frame of the stack still has an edge of a node to follow.
spec fn pending(stack: Seq<TrieFrame>, n: int, e: int) -> bool {
    exists|k: int| 0 <= k < stack.len() && (#[trigger] stack[k]).node == n && stack[k].next_edge <= e
}

/// Whether a frame of the stack still has a node's identifiers to emit.
spec fn unemitted(stack: Seq<TrieFrame>, n: int) -> bool {
    exists|k: int| 0 <= k < stack.len() && (#[trigger] stack[k]).node == n && !stack[k].emitted
}

/// Whether the frames of the stack hold the states in which their nodes were reached.
#[verifier::opaque]
spec fn framed(walk: Walk, stack: Seq<TrieFrame>, saved: Seq<RecognizerState>) -> bool {
    &&& saved.len() == stack.len()
    &&& forall|k: int|
        0 <= k < stack.len() ==> {
            &&& (#[trigger] stack[k]).node < walk.trie.nodes@.len()
            &&& stack[k].checkpoint.captures(&saved[k])
            &&& reads_to(walk.root, walk.paths[stack[k].node as int], saved[k])
        }
    &&& forall|k: int| 0 < k < stack.len() ==> (#[trigger] saved[k]).follows(&saved[k - 1])
    &&& forall|k: int| 0 <= k < stack.len() - 1 ==> (#[trigger] stack[k]).emitted
}

/// Whether every node that was reached is worked off, or is on the stack.
#[verifier::opaque]
spec fn walking(walk: Walk, stack: Seq<TrieFrame>, reached: Set<int>, mask: Seq<u32>) -> bool {
    &&& forall|n: int| #[trigger]
        reached.contains(n) ==> 0 <= n < walk.trie.nodes@.len() && (unemitted(stack, n)
            || emitted_at(walk, mask, n))
    &&& forall|n: int, e: int|
        #![trigger walk.trie.edges_of(n)[e]]
        reached.contains(n) && 0 <= e < walk.trie.nodes@[n].edge_len ==> pending(stack, n, e)
            || handled(walk, reached, n, e)
    &&& reached.contains(0)
}

/// Once nothing is left to follow, every node that can be reached was reached.
proof fn lemma_walked(walk: Walk, reached: Set<int>, mask: Seq<u32>, h: Seq<u8>, n: int)
    requires
        walking(walk, Seq::empty(), reached, mask),
        walk.trie.wf(),
        walk.trie.spells(walk.paths),
        walk.root.faithful(),
        walk.root.recognizes(h),
        0 <= n < walk.trie.nodes@.len(),
        walk.root.viable(h + walk.paths[n]),
    ensures
        reached.contains(n),
        emitted_at(walk, mask, n),
    decreases n,
{
    reveal(walking);
    let none = Seq::<TrieFrame>::empty();
    if n > 0 {
        assert(walk.trie.has_parent(n));
        let (p, e) = choose|p: int, e: int|
            #![trigger walk.trie.edges_of(p)[e]]
            0 <= p < walk.trie.nodes@.len() && 0 <= e < walk.trie.nodes@[p].edge_len
                && walk.trie.edges_of(p)[e].child == n;
        let byte = walk.trie.edges_of(p)[e].byte;
        assert(walk.paths[n] == walk.paths[p].push(byte));
        let rest = choose|rest: Seq<u8>| #[trigger]
            walk.root.generates((h + walk.paths[n]) + rest);
        assert((h + walk.paths[n]) + rest =~= (h + walk.paths[p]) + (seq![byte] + rest));
        assert(walk.root.viable(h + walk.paths[p]));
        lemma_walked(walk, reached, mask, h, p);
        assert(!pending(none, p, e));
        assert(handled(walk, reached, p, e));
    }
    assert(!unemitted(none, n));
}

/// Only the limits of tables keep a recognizer from seeing that it is live.
proof fn lemma_stalls(root: RecognizerState, h: Seq<u8>, bytes: Seq<u8>, state: RecognizerState)
    requires
        reads_to(root, bytes, state),
        root.recognizes(h),
        root.viable(h + bytes),
        !state.live(),
    ensures
        stalls(root, bytes),
{
    let rest = choose|rest: Seq<u8>| #[trigger] root.generates((h + bytes) + rest);
    assert(state.recognizes(h + bytes));
    assert(state.generates((h + bytes) + rest));
    match state {
        RecognizerState::Dfa(recognizer) => {
            recognizer.dfa.lemma_run_concat(0, h + bytes, rest);
            assert(recognizer.dfa.accepts_at(recognizer.dfa.run(recognizer.state, rest)));
        },
        RecognizerState::Lalr(recognizer) => {
            assert(state.hindered());
        },
        RecognizerState::Earley(recognizer) => {
            earley::law_viable_is_live(&recognizer, h + bytes, rest);
        },
    }
}

/// A walk that has ended, with bits that are all allowed, leaves the mask of the state.
proof fn lemma_masks(
    walk: Walk,
    reached: Set<int>,
    eos: u32,
    entries: Seq<TokenEntry>,
    mask: Seq<u32>,
)
    requires
        walking(walk, Seq::empty(), reached, mask),
        walk.trie.wf(),
        walk.trie.spells(walk.paths),
        walk.trie.labels(walk.paths, entries),
        forall|id: u32| #[trigger] bit(mask, id) ==> allowed(walk.root, eos, entries, id),
        walk.root.accepting() ==> bit(mask, eos),
    ensures
        masks(walk.root, eos, entries, mask),
{
    let root = walk.root;
    if root.faithful() {
        assert forall|h: Seq<u8>, bytes: Seq<u8>, id: u32|
            #![trigger vocabulary::names(entries, bytes, id), root.viable(h + bytes)]
            root.recognizes(h) && vocabulary::names(entries, bytes, id) && root.viable(
                h + bytes,
            ) implies bit(mask, id) || stalls(root, bytes) by {
            let i = choose|i: int|
                0 <= i < entries.len() && (#[trigger] entries[i]).bytes@ == bytes && entries[i].id
                    == id;
            assert(walk.trie.has_label(walk.paths, entries[i].bytes@, entries[i].id));
            let n = choose|n: int|
                0 <= n < walk.trie.nodes@.len() && walk.paths[n] == bytes
                    && #[trigger] walk.trie.ids_of(n).contains(id);
            lemma_walked(walk, reached, mask, h, n);
            if !bit(mask, id) {
                let state = choose|state: RecognizerState| #[trigger]
                    reads_to(root, walk.paths[n], state) && !state.live();
                lemma_stalls(root, h, bytes, state);
            }
        }
    }
}

/// Adds to a count, up to the largest machine integer.
fn bump(count: u64) -> (more: u64)
    ensures
        more == (if count == u64::MAX {
            count
        } else {
            (count + 1) as u64
        }),
{
    count.saturating_add(1)
}

/// Sets the bits of a node's identifiers.
fn emit(
    trie: &TokenTrie,
    node: usize,
    destination: &mut Vec<u32>,
    stats: &mut MaskStats,
) -> (result: Result<(), RuntimeError>)
    requires
        trie.wf(),
        node < trie.nodes@.len(),
        forall|id: u32| #[trigger]
            trie.ids_of(node as int).contains(id) ==> id / 32 < old(destination)@.len(),
    ensures
        result is Ok,
        final(stats).trie_edges_visited == old(stats).trie_edges_visited,
        final(destination)@.len() == old(destination)@.len(),
        forall|id: u32| #[trigger]
            bit(final(destination)@, id) ==> bit(old(destination)@, id) || trie.ids_of(
                node as int,
            ).contains(id),
        forall|id: u32| #[trigger] bit(old(destination)@, id) ==> bit(final(destination)@, id),
        forall|id: u32| #[trigger]
            trie.ids_of(node as int).contains(id) ==> bit(final(destination)@, id),
{
    let found: TrieNode = trie.nodes[node];
    let length: usize = trie.terminal_ids.len();
    let ghost ids = trie.ids_of(node as int);
    let ghost before = destination@;
    let mut offset: u32 = 0;
    while offset < found.token_len
        invariant
            trie.wf(),
            node < trie.nodes@.len(),
            found == trie.nodes@[node as int],
            ids == trie.ids_of(node as int),
            length == trie.terminal_ids@.len(),
            before == old(destination)@,
            offset <= found.token_len,
            destination@.len() == before.len(),
            stats.trie_edges_visited == old(stats).trie_edges_visited,
            forall|id: u32| #[trigger] ids.contains(id) ==> id / 32 < before.len(),
            forall|id: u32| #[trigger] bit(destination@, id) ==> bit(before, id) || ids.contains(id),
            forall|id: u32| #[trigger] bit(before, id) ==> bit(destination@, id),
            forall|x: int| 0 <= x < offset ==> bit(destination@, #[trigger] ids[x]),
        decreases found.token_len - offset,
    {
        assert(found.token_start + found.token_len <= length);
        let id: u32 = trie.terminal_ids[found.token_start as usize + offset as usize];
        assert(ids[offset as int] == id);
        assert(ids.contains(id));
        match set_mask_bit(destination, id) {
            Ok(()) => {},
            Err(error) => {
                return Err(error);
            },
        }
        stats.token_ids_enabled = bump(stats.token_ids_enabled);
        offset += 1;
    }
    Ok(())
}

/// The last frame's identifiers are emitted.
proof fn lemma_emitted(
    walk: Walk,
    stack: Seq<TrieFrame>,
    after: Seq<TrieFrame>,
    reached: Set<int>,
    mask: Seq<u32>,
    more: Seq<u32>,
)
    requires
        walking(walk, stack, reached, mask),
        stack.len() > 0,
        after.len() == stack.len(),
        forall|k: int| 0 <= k < stack.len() - 1 ==> #[trigger] after[k] == stack[k],
        after.last().node == stack.last().node,
        after.last().next_edge == stack.last().next_edge,
        forall|id: u32| #[trigger] bit(mask, id) ==> bit(more, id),
        emitted_at(walk, more, stack.last().node as int),
    ensures
        walking(walk, after, reached, more),
{
    reveal(walking);
    let last = stack.len() - 1;
    assert forall|n: int| #[trigger] reached.contains(n) implies 0 <= n < walk.trie.nodes@.len() && (
    unemitted(after, n) || emitted_at(walk, more, n)) by {
        if unemitted(stack, n) && n != stack.last().node {
            let k = choose|k: int|
                0 <= k < stack.len() && (#[trigger] stack[k]).node == n && !stack[k].emitted;
            assert(after[k].node == n);
        }
    }
    assert forall|n: int, e: int|
        #![trigger walk.trie.edges_of(n)[e]]
        reached.contains(n) && 0 <= e < walk.trie.nodes@[n].edge_len implies pending(after, n, e)
        || handled(walk, reached, n, e) by {
        if pending(stack, n, e) {
            let k = choose|k: int|
                0 <= k < stack.len() && (#[trigger] stack[k]).node == n && stack[k].next_edge <= e;
            assert(after[k].node == n);
        }
    }
}

/// A frame without edges to follow leaves the stack.
proof fn lemma_popped(
    walk: Walk,
    stack: Seq<TrieFrame>,
    reached: Set<int>,
    mask: Seq<u32>,
)
    requires
        walking(walk, stack, reached, mask),
        stack.len() > 0,
        stack.last().emitted,
        stack.last().next_edge >= walk.trie.nodes@[stack.last().node as int].edge_len,
    ensures
        walking(walk, stack.drop_last(), reached, mask),
{
    reveal(walking);
    let after = stack.drop_last();
    assert forall|n: int| #[trigger] reached.contains(n) implies 0 <= n < walk.trie.nodes@.len() && (
    unemitted(after, n) || emitted_at(walk, mask, n)) by {
        if unemitted(stack, n) {
            let k = choose|k: int|
                0 <= k < stack.len() && (#[trigger] stack[k]).node == n && !stack[k].emitted;
            assert(after[k].node == n);
        }
    }
    assert forall|n: int, e: int|
        #![trigger walk.trie.edges_of(n)[e]]
        reached.contains(n) && 0 <= e < walk.trie.nodes@[n].edge_len implies pending(after, n, e)
        || handled(walk, reached, n, e) by {
        if pending(stack, n, e) {
            let k = choose|k: int|
                0 <= k < stack.len() && (#[trigger] stack[k]).node == n && stack[k].next_edge <= e;
            assert(after[k].node == n);
        }
    }
}

/// An edge of the last frame is refused, or its child is reached.
proof fn lemma_followed(
    walk: Walk,
    stack: Seq<TrieFrame>,
    after: Seq<TrieFrame>,
    reached: Set<int>,
    more: Set<int>,
    mask: Seq<u32>,
)
    requires
        walking(walk, stack, reached, mask),
        walk.trie.wf(),
        stack.len() > 0,
        stack.last().emitted,
        stack.last().node < walk.trie.nodes@.len(),
        stack.last().next_edge < walk.trie.nodes@[stack.last().node as int].edge_len,
        after.len() >= stack.len(),
        forall|k: int| 0 <= k < stack.len() - 1 ==> #[trigger] after[k] == stack[k],
        after[stack.len() - 1].node == stack.last().node,
        after[stack.len() - 1].next_edge == stack.last().next_edge + 1,
        ({
            let child = walk.trie.edges_of(stack.last().node as int)[stack.last().next_edge as int].child as int;
            ||| more == reached && barred(walk, child)
            ||| more == reached.insert(child) && after.len() == stack.len() + 1 && after.last().node
                == child && !after.last().emitted && after.last().next_edge == 0
        }),
    ensures
        walking(walk, after, more, mask),
{
    reveal(walking);
    let top = stack.last();
    let child = walk.trie.edges_of(top.node as int)[top.next_edge as int].child as int;
    assert forall|n: int| #[trigger] more.contains(n) implies 0 <= n < walk.trie.nodes@.len() && (
    unemitted(after, n) || emitted_at(walk, mask, n)) by {
        if more != reached && n == child {
            assert(after[stack.len() as int].node == n);
        } else {
            assert(reached.contains(n));
            if unemitted(stack, n) {
                let k = choose|k: int|
                    0 <= k < stack.len() && (#[trigger] stack[k]).node == n && !stack[k].emitted;
                assert(after[k].node == n);
            }
        }
    }
    assert forall|n: int, e: int|
        #![trigger walk.trie.edges_of(n)[e]]
        more.contains(n) && 0 <= e < walk.trie.nodes@[n].edge_len implies pending(after, n, e)
        || handled(walk, more, n, e) by {
        if more != reached && n == child {
            assert(after[stack.len() as int].node == n);
        } else {
            assert(reached.contains(n));
            if pending(stack, n, e) {
                let k = choose|k: int|
                    0 <= k < stack.len() && (#[trigger] stack[k]).node == n && stack[k].next_edge
                        <= e;
                if k == stack.len() - 1 && e == top.next_edge {
                    assert(handled(walk, more, n, e));
                } else {
                    assert(after[k].node == n);
                }
            } else {
                assert(handled(walk, reached, n, e));
            }
        }
    }
}

/// What is known of the last frame.
proof fn lemma_top(walk: Walk, stack: Seq<TrieFrame>, saved: Seq<RecognizerState>)
    requires
        framed(walk, stack, saved),
        stack.len() > 0,
    ensures
        saved.len() == stack.len(),
        stack.last().node < walk.trie.nodes@.len(),
        stack.last().checkpoint.captures(&saved.last()),
        reads_to(walk.root, walk.paths[stack.last().node as int], saved.last()),
        saved.last().follows(&walk.root),
        framed(walk, stack.drop_last(), saved.drop_last()),
        stack.len() > 1 ==> saved.last().follows(&saved.drop_last().last())
            && stack.drop_last().last().emitted,
{
    reveal(framed);
    let k = stack.len() - 1;
    assert(stack[k].node < walk.trie.nodes@.len());
    if k > 0 {
        assert(saved[k].follows(&saved[k - 1]));
    }
    assert forall|x: int| 0 < x < stack.drop_last().len() implies (
    #[trigger] saved.drop_last()[x]).follows(&saved.drop_last()[x - 1]) by {
        assert(saved[x].follows(&saved[x - 1]));
    }
    assert forall|x: int| 0 <= x < stack.drop_last().len() implies {
        &&& (#[trigger] stack.drop_last()[x]).node < walk.trie.nodes@.len()
        &&& stack.drop_last()[x].checkpoint.captures(&saved.drop_last()[x])
        &&& reads_to(
            walk.root,
            walk.paths[stack.drop_last()[x].node as int],
            saved.drop_last()[x],
        )
    } by {
        assert(stack[x].node < walk.trie.nodes@.len());
    }
}

/// Frames that differ only in what they have done hold the same states.
proof fn lemma_reframed(
    walk: Walk,
    stack: Seq<TrieFrame>,
    after: Seq<TrieFrame>,
    saved: Seq<RecognizerState>,
)
    requires
        framed(walk, stack, saved),
        stack.len() > 0,
        after.len() == stack.len(),
        forall|k: int| 0 <= k < stack.len() - 1 ==> #[trigger] after[k] == stack[k],
        after.last().node == stack.last().node,
        after.last().checkpoint == stack.last().checkpoint,
    ensures
        framed(walk, after, saved),
{
    reveal(framed);
    assert forall|x: int| 0 <= x < after.len() implies {
        &&& (#[trigger] after[x]).node < walk.trie.nodes@.len()
        &&& after[x].checkpoint.captures(&saved[x])
        &&& reads_to(walk.root, walk.paths[after[x].node as int], saved[x])
    } by {
        assert(stack[x].node < walk.trie.nodes@.len());
    }
}

/// A frame is added.
proof fn lemma_pushed(
    walk: Walk,
    stack: Seq<TrieFrame>,
    frame: TrieFrame,
    saved: Seq<RecognizerState>,
    state: RecognizerState,
)
    requires
        framed(walk, stack, saved),
        frame.node < walk.trie.nodes@.len(),
        frame.checkpoint.captures(&state),
        reads_to(walk.root, walk.paths[frame.node as int], state),
        stack.len() > 0 ==> state.follows(&saved.last()) && stack.last().emitted,
    ensures
        framed(walk, stack.push(frame), saved.push(state)),
{
    reveal(framed);
    let after = stack.push(frame);
    let more = saved.push(state);
    assert forall|x: int| 0 <= x < after.len() implies {
        &&& (#[trigger] after[x]).node < walk.trie.nodes@.len()
        &&& after[x].checkpoint.captures(&more[x])
        &&& reads_to(walk.root, walk.paths[after[x].node as int], more[x])
    } by {
        if x < stack.len() {
            assert(stack[x].node < walk.trie.nodes@.len());
        }
    }
    assert forall|x: int| 0 < x < after.len() implies (#[trigger] more[x]).follows(&more[x - 1]) by {
        if x < stack.len() {
            assert(saved[x].follows(&saved[x - 1]));
        }
    }
}

/// How many edges leave those of the first `count` nodes that are in a set.
pub open spec fn edge_total(trie: TokenTrie, nodes: Set<int>, count: int) -> nat
    decreases count,
{
    if count <= 0 {
        0
    } else {
        edge_total(trie, nodes, count - 1) + if nodes.contains(count - 1) {
            trie.nodes@[count - 1].edge_len as nat
        } else {
            0
        }
    }
}

/// Whether a recognizer reads bytes, and could read on.
pub open spec fn reads_on(root: RecognizerState, bytes: Seq<u8>) -> bool {
    exists|state: RecognizerState| #[trigger]
        reads_to(root, bytes, state) && (bytes.len() > 0 ==> state.going())
}

/// Whether a recognizer reads the bytes that lead to each node of a set.
pub open spec fn explored(
    root: RecognizerState,
    trie: TokenTrie,
    paths: Seq<Seq<u8>>,
    nodes: Set<int>,
) -> bool {
    forall|n: int| #[trigger]
        nodes.contains(n) ==> 0 <= n < trie.nodes@.len() && reads_on(root, paths[n])
}

/// Whether a set holds the first node, and with a node the nodes behind it, but those with whose bytes
/// no text goes on.
pub open spec fn exhausted(
    root: RecognizerState,
    trie: TokenTrie,
    paths: Seq<Seq<u8>>,
    nodes: Set<int>,
) -> bool {
    &&& nodes.contains(0)
    &&& explored(root, trie, paths, nodes)
    &&& forall|n: int, e: int|
        #![trigger trie.edges_of(n)[e]]
        nodes.contains(n) && 0 <= e < trie.nodes@[n].edge_len ==> nodes.contains(
            trie.edges_of(n)[e].child as int,
        ) || refused_path(root, paths[trie.edges_of(n)[e].child as int])
}

/// Whether no text goes on with bytes.
pub open spec fn refused_path(root: RecognizerState, bytes: Seq<u8>) -> bool {
    root.faithful() ==> forall|h: Seq<u8>|
        root.recognizes(h) ==> !root.viable(#[trigger] (h + bytes))
}

/// Whether a walk through a trie went through all that can be read, in so many edges, within the
/// limit.
pub open spec fn walked_through(
    root: RecognizerState,
    trie: TokenTrie,
    limits: RuntimeLimits,
    paths: Seq<Seq<u8>>,
    nodes: Set<int>,
    edges: nat,
) -> bool {
    &&& trie.spells(paths)
    &&& exhausted(root, trie, paths, nodes)
    &&& edges == edge_total(trie, nodes, trie.nodes@.len() as int)
    &&& edges <= limits.max_mask_trie_edges
}

/// Whether more edges leave nodes whose bytes can be read than the limit allows.
pub open spec fn too_wide(
    root: RecognizerState,
    trie: TokenTrie,
    limits: RuntimeLimits,
    paths: Seq<Seq<u8>>,
    nodes: Set<int>,
) -> bool {
    &&& trie.spells(paths)
    &&& explored(root, trie, paths, nodes)
    &&& edge_total(trie, nodes, trie.nodes@.len() as int) > limits.max_mask_trie_edges
}

/// The errors on which a walk ends: more edges leave what can be read than are allowed, or the
/// recognizer refuses a byte on the way to a node.
pub open spec fn walk_error(
    root: RecognizerState,
    trie: TokenTrie,
    limits: RuntimeLimits,
    error: RuntimeError,
) -> bool {
    ||| error == (RuntimeError::ResourceLimitExceeded {
        resource: RuntimeResource::MaskTraversal,
        observed: count::saturated((limits.max_mask_trie_edges + 1) as nat) as usize,
        limit: limits.max_mask_trie_edges,
    }) && exists|paths: Seq<Seq<u8>>, nodes: Set<int>| #[trigger]
        too_wide(root, trie, limits, paths, nodes)
    ||| exists|paths: Seq<Seq<u8>>, n: int| #[trigger]
        blocked(root, trie, paths, n, error)
}

/// Whether the recognizer refuses a byte on the way to a node with an error.
pub open spec fn blocked(
    root: RecognizerState,
    trie: TokenTrie,
    paths: Seq<Seq<u8>>,
    n: int,
    error: RuntimeError,
) -> bool {
    &&& trie.spells(paths)
    &&& 0 <= n < trie.nodes@.len()
    &&& recognizer::halts(root, paths[n], error)
}

/// How many edges the frames have still to follow.
spec fn left(trie: TokenTrie, stack: Seq<TrieFrame>) -> int
    decreases stack.len(),
{
    if stack.len() == 0 {
        0
    } else {
        left(trie, stack.drop_last()) + trie.nodes@[stack.last().node as int].edge_len
            - stack.last().next_edge
    }
}

/// Whether an edge that was followed leads from a node that was reached to a node.
spec fn came(walk: Walk, stack: Seq<TrieFrame>, reached: Set<int>, c: int) -> bool {
    exists|n: int, e: int|
        #![trigger walk.trie.edges_of(n)[e]]
        0 <= n < walk.trie.nodes@.len() && 0 <= e < walk.trie.nodes@[n].edge_len
            && walk.trie.edges_of(n)[e].child == c && reached.contains(n) && !pending(stack, n, e)
}

/// Whether the edges that were followed are counted.
#[verifier::opaque]
spec fn counting(walk: Walk, stack: Seq<TrieFrame>, reached: Set<int>, visited: int) -> bool {
    &&& forall|i: int, j: int| 0 <= i < j < stack.len() ==> stack[i].node < stack[j].node
    &&& forall|k: int|
        0 <= k < stack.len() ==> (#[trigger] stack[k]).node < walk.trie.nodes@.len()
            && stack[k].next_edge <= walk.trie.nodes@[stack[k].node as int].edge_len
            && reached.contains(stack[k].node as int)
    &&& forall|c: int| #[trigger]
        reached.contains(c) && c != 0 ==> came(walk, stack, reached, c)
    &&& visited + left(walk.trie, stack) == edge_total(
        walk.trie,
        reached,
        walk.trie.nodes@.len() as int,
    )
}

/// One more node adds its edges.
proof fn lemma_edge_total_insert(trie: TokenTrie, nodes: Set<int>, c: int, count: int)
    requires
        !nodes.contains(c),
    ensures
        edge_total(trie, nodes.insert(c), count) == edge_total(trie, nodes, count) + if 0 <= c
            < count {
            trie.nodes@[c].edge_len as nat
        } else {
            0
        },
    decreases count,
{
    if count > 0 {
        lemma_edge_total_insert(trie, nodes, c, count - 1);
    }
}

/// No edges leave no nodes.
proof fn lemma_edge_total_none(trie: TokenTrie, count: int)
    ensures
        edge_total(trie, Set::empty(), count) == 0,
    decreases count,
{
    if count > 0 {
        lemma_edge_total_none(trie, count - 1);
    }
}

/// Frames have edges to follow, or none.
proof fn lemma_left(walk: Walk, stack: Seq<TrieFrame>)
    requires
        forall|k: int|
            0 <= k < stack.len() ==> (#[trigger] stack[k]).next_edge
                <= walk.trie.nodes@[stack[k].node as int].edge_len,
    ensures
        left(walk.trie, stack) >= 0,
    decreases stack.len(),
{
    if stack.len() > 0 {
        let lower = stack.drop_last();
        assert forall|k: int| 0 <= k < lower.len() implies (#[trigger] lower[k]).next_edge
            <= walk.trie.nodes@[lower[k].node as int].edge_len by {
            assert(lower[k] == stack[k]);
        }
        lemma_left(walk, lower);
        assert(stack.last() == stack[stack.len() - 1]);
    }
}

/// What is counted at the start.
proof fn lemma_count_start(walk: Walk, stack: Seq<TrieFrame>)
    requires
        walk.trie.wf(),
        stack.len() == 1,
        stack[0].node == 0,
        stack[0].next_edge == 0,
    ensures
        counting(walk, stack, Set::empty().insert(0), 0),
{
    reveal(counting);
    reveal_with_fuel(left, 2);
    let none = Set::<int>::empty();
    let count = walk.trie.nodes@.len() as int;
    lemma_edge_total_none(walk.trie, count);
    lemma_edge_total_insert(walk.trie, none, 0, count);
    assert(stack.drop_last().len() == 0);
}

/// What was emitted is not counted.
proof fn lemma_count_emitted(
    walk: Walk,
    stack: Seq<TrieFrame>,
    after: Seq<TrieFrame>,
    reached: Set<int>,
    visited: int,
)
    requires
        counting(walk, stack, reached, visited),
        stack.len() > 0,
        after.len() == stack.len(),
        after.drop_last() == stack.drop_last(),
        after.last().node == stack.last().node,
        after.last().next_edge == stack.last().next_edge,
    ensures
        counting(walk, after, reached, visited),
{
    reveal(counting);
    assert forall|k: int| 0 <= k < stack.len() implies (#[trigger] after[k]).node == stack[k].node
        && after[k].next_edge == stack[k].next_edge by {
        if k < stack.len() - 1 {
            assert(after[k] == after.drop_last()[k]);
            assert(stack[k] == stack.drop_last()[k]);
        }
    }
    assert forall|n: int, e: int| pending(after, n, e) implies #[trigger] pending(stack, n, e) by {
        let k = choose|k: int|
            0 <= k < after.len() && (#[trigger] after[k]).node == n && after[k].next_edge <= e;
        assert(stack[k].node == n);
    }
    assert forall|c: int| #[trigger] reached.contains(c) && c != 0 implies came(walk, after, reached, c) by {
        assert(came(walk, stack, reached, c));
        let (n, e) = choose|n: int, e: int|
            #![trigger walk.trie.edges_of(n)[e]]
            0 <= n < walk.trie.nodes@.len() && 0 <= e < walk.trie.nodes@[n].edge_len
                && walk.trie.edges_of(n)[e].child == c && reached.contains(n) && !pending(
                stack,
                n,
                e,
            );
        assert(!pending(after, n, e));
    }
}

/// A frame without edges to follow counts for nothing.
proof fn lemma_count_popped(walk: Walk, stack: Seq<TrieFrame>, reached: Set<int>, visited: int)
    requires
        counting(walk, stack, reached, visited),
        stack.len() > 0,
        stack.last().next_edge >= walk.trie.nodes@[stack.last().node as int].edge_len,
    ensures
        counting(walk, stack.drop_last(), reached, visited),
{
    reveal(counting);
    let after = stack.drop_last();
    assert(stack.last() == stack[stack.len() - 1]);
    assert forall|k: int| 0 <= k < after.len() implies (#[trigger] after[k]).node
        < walk.trie.nodes@.len() && after[k].next_edge <= walk.trie.nodes@[
    after[k].node as int].edge_len && reached.contains(after[k].node as int) by {
        assert(after[k] == stack[k]);
    }
    assert forall|i: int, j: int| 0 <= i < j < after.len() implies after[i].node < after[j].node by {
        assert(stack[i].node < stack[j].node);
    }
    assert forall|c: int| #[trigger] reached.contains(c) && c != 0 implies came(walk, after, reached, c) by {
        assert(came(walk, stack, reached, c));
        let (n, e) = choose|n: int, e: int|
            #![trigger walk.trie.edges_of(n)[e]]
            0 <= n < walk.trie.nodes@.len() && 0 <= e < walk.trie.nodes@[n].edge_len
                && walk.trie.edges_of(n)[e].child == c && reached.contains(n) && !pending(
                stack,
                n,
                e,
            );
        if pending(after, n, e) {
            let k = choose|k: int|
                0 <= k < after.len() && (#[trigger] after[k]).node == n && after[k].next_edge <= e;
            assert(stack[k].node == n);
        }
        assert(!pending(after, n, e));
    }
}

/// An edge that is followed is counted once, and no node is reached twice.
proof fn lemma_count_followed(
    walk: Walk,
    stack: Seq<TrieFrame>,
    after: Seq<TrieFrame>,
    reached: Set<int>,
    visited: int,
)
    requires
        walk.trie.wf(),
        walk.trie.branches(),
        counting(walk, stack, reached, visited),
        stack.len() > 0,
        stack.last().next_edge < walk.trie.nodes@[stack.last().node as int].edge_len,
        after.len() == stack.len(),
        after.drop_last() == stack.drop_last(),
        after.last().node == stack.last().node,
        after.last().next_edge == stack.last().next_edge + 1,
    ensures
        counting(walk, after, reached, visited + 1),
        visited + 1 <= edge_total(walk.trie, reached, walk.trie.nodes@.len() as int),
        !reached.contains(
            walk.trie.edges_of(stack.last().node as int)[stack.last().next_edge as int].child as int,
        ),
        came(
            walk,
            after,
            reached,
            walk.trie.edges_of(stack.last().node as int)[stack.last().next_edge as int].child as int,
        ),
{
    reveal(counting);
    let node = stack.last().node as int;
    let offset = stack.last().next_edge as int;
    let child = walk.trie.edges_of(node)[offset].child as int;
    let top = stack.len() - 1;
    assert(stack[top] == stack.last());
    assert forall|k: int| 0 <= k < top implies #[trigger] after[k] == stack[k] by {
        assert(after[k] == after.drop_last()[k]);
        assert(stack[k] == stack.drop_last()[k]);
    }
    assert(pending(stack, node, offset)) by {
        assert(stack[top].node == node);
    }
    assert forall|n: int, e: int| pending(after, n, e) implies #[trigger] pending(stack, n, e) by {
        let k = choose|k: int|
            0 <= k < after.len() && (#[trigger] after[k]).node == n && after[k].next_edge <= e;
        assert(stack[k].node == n && stack[k].next_edge <= e);
    }
    if reached.contains(child) {
        assert(0 <= node < child);
        assert(came(walk, stack, reached, child));
        let (n, e) = choose|n: int, e: int|
            #![trigger walk.trie.edges_of(n)[e]]
            0 <= n < walk.trie.nodes@.len() && 0 <= e < walk.trie.nodes@[n].edge_len
                && walk.trie.edges_of(n)[e].child == child && reached.contains(n) && !pending(
                stack,
                n,
                e,
            );
        assert(walk.trie.edges_of(n)[e].child == walk.trie.edges_of(node)[offset].child);
        assert(n == node && e == offset);
    }
    assert(!pending(after, node, offset)) by {
        if pending(after, node, offset) {
            let k = choose|k: int|
                0 <= k < after.len() && (#[trigger] after[k]).node == node && after[k].next_edge
                    <= offset;
            if k < top {
                assert(stack[k].node < stack[top].node);
            }
        }
    }
    assert(came(walk, after, reached, child));
    assert forall|c: int| #[trigger] reached.contains(c) && c != 0 implies came(walk, after, reached, c) by {
        assert(came(walk, stack, reached, c));
        let (n, e) = choose|n: int, e: int|
            #![trigger walk.trie.edges_of(n)[e]]
            0 <= n < walk.trie.nodes@.len() && 0 <= e < walk.trie.nodes@[n].edge_len
                && walk.trie.edges_of(n)[e].child == c && reached.contains(n) && !pending(
                stack,
                n,
                e,
            );
        assert(!pending(after, n, e));
    }
    assert forall|i: int, j: int| 0 <= i < j < after.len() implies after[i].node < after[j].node by {
        assert(stack[i].node < stack[j].node);
    }
    lemma_left(walk, after);
}

/// A node that is reached has its edges to follow.
proof fn lemma_count_pushed(
    walk: Walk,
    stack: Seq<TrieFrame>,
    frame: TrieFrame,
    reached: Set<int>,
    visited: int,
)
    requires
        counting(walk, stack, reached, visited),
        stack.len() > 0,
        stack.last().node < frame.node < walk.trie.nodes@.len(),
        frame.next_edge == 0,
        !reached.contains(frame.node as int),
        came(walk, stack, reached, frame.node as int),
    ensures
        counting(walk, stack.push(frame), reached.insert(frame.node as int), visited),
{
    reveal(counting);
    let after = stack.push(frame);
    let child = frame.node as int;
    let grown = reached.insert(child);
    lemma_edge_total_insert(walk.trie, reached, child, walk.trie.nodes@.len() as int);
    assert(after.drop_last() =~= stack);
    assert(stack.last() == stack[stack.len() - 1]);
    assert forall|i: int, j: int| 0 <= i < j < after.len() implies after[i].node < after[j].node by {
        if j < stack.len() {
            assert(stack[i].node < stack[j].node);
        } else if i < stack.len() - 1 {
            assert(stack[i].node < stack[stack.len() - 1].node);
        }
    }
    assert forall|k: int| 0 <= k < after.len() implies (#[trigger] after[k]).node
        < walk.trie.nodes@.len() && after[k].next_edge <= walk.trie.nodes@[
    after[k].node as int].edge_len && grown.contains(after[k].node as int) by {
        if k < stack.len() {
            assert(after[k] == stack[k]);
        }
    }
    assert forall|c: int| #[trigger] grown.contains(c) && c != 0 implies came(walk, after, grown, c) by {
        assert(came(walk, stack, reached, c));
        let (n, e) = choose|n: int, e: int|
            #![trigger walk.trie.edges_of(n)[e]]
            0 <= n < walk.trie.nodes@.len() && 0 <= e < walk.trie.nodes@[n].edge_len
                && walk.trie.edges_of(n)[e].child == c && reached.contains(n) && !pending(
                stack,
                n,
                e,
            );
        assert(!pending(after, n, e)) by {
            if pending(after, n, e) {
                let k = choose|k: int|
                    0 <= k < after.len() && (#[trigger] after[k]).node == n && after[k].next_edge
                        <= e;
                if k < stack.len() {
                    assert(stack[k].node == n && stack[k].next_edge <= e);
                } else {
                    assert(n == child);
                }
            }
        }
    }
}

/// A count with more added, up to the largest number.
pub open spec fn added(count: u64, more: nat) -> u64 {
    if count + more > u64::MAX {
        u64::MAX
    } else {
        (count + more) as u64
    }
}

/// Once nothing is left to follow, all that can be read was reached, and every edge is counted.
proof fn lemma_exhausted(walk: Walk, reached: Set<int>, mask: Seq<u32>, visited: int)
    requires
        walking(walk, Seq::empty(), reached, mask),
        counting(walk, Seq::empty(), reached, visited),
        explored(walk.root, walk.trie, walk.paths, reached),
    ensures
        exhausted(walk.root, walk.trie, walk.paths, reached),
        visited == edge_total(walk.trie, reached, walk.trie.nodes@.len() as int),
{
    reveal(walking);
    reveal(counting);
    let none = Seq::<TrieFrame>::empty();
    assert forall|n: int, e: int|
        #![trigger walk.trie.edges_of(n)[e]]
        reached.contains(n) && 0 <= e < walk.trie.nodes@[n].edge_len implies reached.contains(
        walk.trie.edges_of(n)[e].child as int,
    ) || refused_path(walk.root, walk.paths[walk.trie.edges_of(n)[e].child as int]) by {
        assert(!pending(none, n, e));
        assert(handled(walk, reached, n, e));
    }
}

/// Walks the trie from the recognizer's state, and sets the bits of the tokens that lead on.
fn walk_trie(
    recognizer: &mut RecognizerState,
    trie: &TokenTrie,
    destination: &mut Vec<u32>,
    limits: &RuntimeLimits,
    stats: &mut MaskStats,
    root: RecognizerCheckpoint,
    Ghost(walk): Ghost<Walk>,
    Ghost(eos): Ghost<u32>,
    Ghost(entries): Ghost<Seq<TokenEntry>>,
) -> (result: Result<(), RuntimeError>)
    requires
        old(recognizer).wf(),
        walk.root == *old(recognizer),
        walk.trie == *trie,
        trie.wf(),
        trie.spells(walk.paths),
        trie.labels(walk.paths, entries),
        trie.branches(),
        forall|bytes: Seq<u8>, id: u32| #[trigger]
            vocabulary::names(entries, bytes, id) ==> id / 32 < old(destination)@.len(),
        root.captures(old(recognizer)),
        forall|id: u32| #[trigger]
            bit(old(destination)@, id) ==> allowed(walk.root, eos, entries, id),
        walk.root.accepting() ==> bit(old(destination)@, eos),
    ensures
        final(recognizer).wf(),
        final(recognizer).follows(old(recognizer)),
        final(destination)@.len() == old(destination)@.len(),
        result is Ok ==> masks(walk.root, eos, entries, final(destination)@),
        result is Ok ==> exists|nodes: Set<int>, edges: nat| #[trigger]
            walked_through(*old(recognizer), *trie, *limits, walk.paths, nodes, edges)
                && final(stats).trie_edges_visited == added(old(stats).trie_edges_visited, edges),
        result matches Err(error) ==> walk_error(*old(recognizer), *trie, *limits, error),
{
    let ghost mut saved: Seq<RecognizerState> = Seq::empty();
    let ghost mut reached: Set<int> = Set::empty();
    let mut stack: Vec<TrieFrame> = Vec::new();
    let ghost length = destination@.len();
    proof {
        assert(framed(walk, stack@, saved)) by {
            reveal(framed);
        }
        recognizer.lemma_follows_self();
        recognizer.lemma_alike_self();
        assert forall|h: Seq<u8>| walk.root.recognizes(h) implies recognizer.recognizes(
            #[trigger] (h + walk.paths[0]),
        ) by {
            assert(h + walk.paths[0] =~= h);
        }
        let frame = TrieFrame { node: 0, next_edge: 0, emitted: false, checkpoint: root };
        lemma_pushed(walk, stack@, frame, saved, *recognizer);
        saved = saved.push(*recognizer);
        reached = reached.insert(0);
    }
    stack.push(TrieFrame { node: 0, next_edge: 0, emitted: false, checkpoint: root });
    proof {
        assert(walking(walk, stack@, reached, destination@)) by {
            reveal(walking);
            assert(stack@[0].node == 0);
            assert(unemitted(stack@, 0));
            assert forall|n: int, e: int|
                #![trigger walk.trie.edges_of(n)[e]]
                reached.contains(n) && 0 <= e < walk.trie.nodes@[n].edge_len implies pending(
                stack@,
                n,
                e,
            ) || handled(walk, reached, n, e) by {
                assert(stack@[0].node == n);
            }
        }
    }
    proof {
        lemma_count_start(walk, stack@);
        assert(reads_on(walk.root, walk.paths[0])) by {
            assert(reads_to(walk.root, walk.paths[0], *recognizer));
        }
    }
    let mut visited: usize = 0;
    while stack.len() > 0
        invariant
            walk.trie == *trie,
            walk.root == *old(recognizer),
            walk.root.wf(),
            trie.wf(),
            trie.spells(walk.paths),
            trie.labels(walk.paths, entries),
            framed(walk, stack@, saved),
            walking(walk, stack@, reached, destination@),
            counting(walk, stack@, reached, visited as int),
            explored(walk.root, walk.trie, walk.paths, reached),
            visited <= limits.max_mask_trie_edges,
            stats.trie_edges_visited == added(old(stats).trie_edges_visited, visited as nat),
            trie.branches(),
            forall|bytes: Seq<u8>, id: u32| #[trigger]
                vocabulary::names(entries, bytes, id) ==> id / 32 < destination@.len(),
            recognizer.wf(),
            recognizer.follows(&walk.root),
            stack@.len() > 0 ==> recognizer.follows(&saved.last()),
            stack@.len() > 0 && !stack@.last().emitted ==> recognizer.alike(&saved.last()),
            forall|id: u32| #[trigger]
                bit(destination@, id) ==> allowed(walk.root, eos, entries, id),
            walk.root.accepting() ==> bit(destination@, eos),
            destination@.len() == length == old(destination)@.len(),
        decreases usize::MAX - visited, stack@.len(),
    {
        let depth: u64 = stack.len() as u64;
        if depth > stats.peak_stack_depth {
            stats.peak_stack_depth = depth;
        }
        let top: usize = stack.len() - 1;
        let node_index: usize = stack[top].node;
        proof {
            lemma_top(walk, stack@, saved);
        }
        let node: TrieNode = trie.nodes[node_index];
        let ghost state = saved.last();
        if !stack[top].emitted {
            let ghost mask = destination@;
            let ghost before = stack@;
            proof {
                recognizer.lemma_alike(&state);
            }
            if recognizer.is_live() {
                assert forall|id: u32| #[trigger] trie.ids_of(node_index as int).contains(
                    id,
                ) implies id / 32 < destination@.len() by {
                    assert(vocabulary::names(entries, walk.paths[node_index as int], id));
                }
                match emit(trie, node_index, destination, stats) {
                    Ok(()) => {},
                    Err(error) => {
                        return Err(error);
                    },
                }
                proof {
                    let path = walk.paths[node_index as int];
                    assert(leads_on(walk.root, path));
                    assert forall|id: u32| #[trigger] bit(destination@, id) implies allowed(
                        walk.root,
                        eos,
                        entries,
                        id,
                    ) by {
                        if !bit(mask, id) {
                            assert(trie.ids_of(node_index as int).contains(id));
                            assert(vocabulary::names(entries, path, id));
                        }
                    }
                }
            }
            stack[top].emitted = true;
            proof {
                lemma_emitted(walk, before, stack@, reached, mask, destination@);
                lemma_reframed(walk, before, stack@, saved);
                assert(stack@.drop_last() =~= before.drop_last());
                lemma_count_emitted(walk, before, stack@, reached, visited as int);
            }
        }
        if stack[top].next_edge >= node.edge_len as usize {
            let ghost moved = *recognizer;
            match recognizer.restore(&stack[top].checkpoint) {
                Ok(()) => {},
                Err(error) => {
                    assert(!stack@.last().checkpoint.foreign(&moved));
                    return Err(error);
                },
            }
            proof {
                lemma_top(walk, stack@, saved);
                lemma_popped(walk, stack@, reached, destination@);
                lemma_count_popped(walk, stack@, reached, visited as int);
                recognizer.lemma_alike_follows(&state, &walk.root);
                if stack@.len() > 1 {
                    recognizer.lemma_alike_follows(&state, &saved.drop_last().last());
                }
                saved = saved.drop_last();
            }
            stack.pop();
            continue;
        }
        let offset: usize = stack[top].next_edge;
        let edges: usize = trie.edges.len();
        assert(node.edge_start + node.edge_len <= edges);
        let edge: TrieEdge = trie.edges[node.edge_start as usize + offset];
        assert(edge == trie.edges_of(node_index as int)[offset as int]);
        let ghost before = stack@;
        stack[top].next_edge = offset + 1;
        proof {
            assert(stack@.drop_last() =~= before.drop_last());
            lemma_count_followed(walk, before, stack@, reached, visited as int);
        }
        if visited >= limits.max_mask_trie_edges || visited == usize::MAX {
            assert(too_wide(walk.root, walk.trie, *limits, walk.paths, reached));
            return Err(
                RuntimeError::ResourceLimitExceeded {
                    resource: RuntimeResource::MaskTraversal,
                    observed: visited.saturating_add(1),
                    limit: limits.max_mask_trie_edges,
                },
            );
        }
        visited = visited + 1;
        stats.trie_edges_visited = bump(stats.trie_edges_visited);
        let ghost moved = *recognizer;
        match recognizer.restore(&stack[top].checkpoint) {
            Ok(()) => {},
            Err(error) => {
                assert(!stack@.last().checkpoint.foreign(&moved));
                return Err(error);
            },
        }
        let ghost restored = *recognizer;
        proof {
            restored.lemma_alike(&state);
            restored.lemma_alike_is_next(&state);
            lemma_reframed(walk, before, stack@, saved);
        }
        let mut one: Vec<u8> = Vec::new();
        one.push(edge.byte);
        let ghost path = walk.paths[node_index as int];
        let ghost more_path = walk.paths[edge.child as int];
        proof {
            assert(one@ =~= seq![edge.byte]);
            assert(more_path == path.push(edge.byte));
            assert(more_path =~= path + one@);
        }
        let advanced = match recognizer.try_advance_bytes(one.as_slice()) {
            Ok(advanced) => advanced,
            Err(error) => {
                proof {
                    recognizer.lemma_follows_join(&restored, &state);
                    recognizer.lemma_follows_join(&state, &walk.root);
                    restored.lemma_follows_join(&state, &walk.root);
                    assert forall|h: Seq<u8>| walk.root.recognizes(h) implies restored.recognizes(
                        #[trigger] (h + path),
                    ) by {
                        assert(state.recognizes(h + path));
                    }
                    assert(more_path.take((path.len() + one@.len()) as int) =~= path + one@);
                    recognizer::lemma_halts_behind(
                        walk.root,
                        restored,
                        path,
                        one@,
                        more_path,
                        error,
                    );
                    assert(blocked(
                        walk.root,
                        walk.trie,
                        walk.paths,
                        edge.child as int,
                        error,
                    ));
                }
                return Err(error);
            },
        };
        proof {
            recognizer.lemma_follows_join(&restored, &state);
            recognizer.lemma_follows_join(&state, &walk.root);
        }
        if advanced == Advance::Rejected {
            stats.trie_edges_pruned = bump(stats.trie_edges_pruned);
            proof {
                lemma_barred(walk, restored, state, node_index as int, edge.child as int, one@);
                lemma_followed(walk, before, stack@, reached, reached, destination@);
            }
            continue;
        }
        let checkpoint = recognizer.checkpoint();
        let frame = TrieFrame { node: edge.child as usize, next_edge: 0, emitted: false, checkpoint };
        proof {
            assert forall|h: Seq<u8>| walk.root.recognizes(h) implies recognizer.recognizes(
                #[trigger] (h + more_path),
            ) by {
                assert(state.recognizes(h + path));
                assert(restored.recognizes(h + path));
                assert((h + path) + one@ =~= h + more_path);
            }
            lemma_pushed(walk, stack@, frame, saved, *recognizer);
            saved = saved.push(*recognizer);
            recognizer.lemma_alike_self();
            recognizer.lemma_follows_self();
        }
        let ghost grown = reached.insert(edge.child as int);
        proof {
            lemma_count_pushed(walk, stack@, frame, reached, visited as int);
            assert(reads_on(walk.root, walk.paths[edge.child as int])) by {
                assert(reads_to(walk.root, walk.paths[edge.child as int], *recognizer));
            }
        }
        stack.push(frame);
        proof {
            lemma_followed(walk, before, stack@, reached, grown, destination@);
            reached = grown;
        }
    }
    proof {
        assert(stack@ =~= Seq::<TrieFrame>::empty());
        lemma_exhausted(walk, reached, destination@, visited as int);
        assert(walked_through(
            walk.root,
            walk.trie,
            *limits,
            walk.paths,
            reached,
            visited as nat,
        ));
        lemma_masks(walk, reached, eos, entries, destination@);
    }
    Ok(())
}

/// A byte that was refused bars the node behind it.
proof fn lemma_barred(
    walk: Walk,
    restored: RecognizerState,
    state: RecognizerState,
    n: int,
    child: int,
    one: Seq<u8>,
)
    requires
        reads_to(walk.root, walk.paths[n], state),
        restored.alike(&state),
        restored.faithful() ==> forall|h: Seq<u8>|
            restored.recognizes(h) ==> !restored.viable(#[trigger] (h + one)),
        walk.paths[child] == walk.paths[n] + one,
    ensures
        barred(walk, child),
{
    restored.lemma_alike(&state);
    if walk.root.faithful() {
        assert(restored.faithful());
        assert forall|h: Seq<u8>| walk.root.recognizes(h) implies !walk.root.viable(
            #[trigger] (h + walk.paths[child]),
        ) by {
            let read = h + walk.paths[n];
            assert(state.recognizes(read));
            assert(restored.recognizes(read));
            assert(!restored.viable(read + one));
            assert(read + one =~= h + walk.paths[child]);
            if walk.root.viable(h + walk.paths[child]) {
                let rest = choose|rest: Seq<u8>| #[trigger]
                    walk.root.generates((h + walk.paths[child]) + rest);
                assert(restored.generates((read + one) + rest));
            }
        }
    }
}

/// Sets the bits of the tokens that a recognizer allows next, and leaves the recognizer as it was.
pub(crate) fn fill_structural_mask(
    recognizer: &mut RecognizerState,
    vocabulary: &DerivedVocabulary,
    destination: &mut Vec<u32>,
    limits: &RuntimeLimits,
    stats: &mut MaskStats,
    Ghost(entries): Ghost<Seq<TokenEntry>>,
) -> (result: Result<(), RuntimeError>)
    requires
        old(recognizer).wf(),
        vocabulary.derives(entries),
        forall|id: u32| !#[trigger] bit(old(destination)@, id),
        vocabulary.mask_words <= old(destination)@.len(),
    ensures
        final(recognizer).wf(),
        final(recognizer).alike(old(recognizer)),
        final(destination)@.len() == old(destination)@.len(),
        result is Ok ==> masks(
            *old(recognizer),
            vocabulary.eos_token_id,
            entries,
            final(destination)@,
        ),
        result is Ok ==> exists|paths: Seq<Seq<u8>>, nodes: Set<int>, edges: nat| #[trigger]
            walked_through(*old(recognizer), *vocabulary.trie, *limits, paths, nodes, edges)
                && final(stats).trie_edges_visited == added(old(stats).trie_edges_visited, edges),
        result matches Err(error) ==> walk_error(
            *old(recognizer),
            *vocabulary.trie,
            *limits,
            error,
        ),
{
    let root = recognizer.checkpoint();
    let ghost before = *recognizer;
    let ghost eos = vocabulary.eos_token_id;
    proof {
        recognizer.lemma_alike_self();
    }
    if recognizer.is_accepting() {
        match set_mask_bit(destination, vocabulary.eos_token_id) {
            Ok(()) => {},
            Err(error) => {
                return Err(error);
            },
        }
        stats.token_ids_enabled = bump(stats.token_ids_enabled);
    }
    let ghost paths = choose|paths: Seq<Seq<u8>>| #[trigger]
        vocabulary.trie.spells(paths) && vocabulary.trie.labels(paths, entries);
    let ghost walk = walk_of(before, vocabulary, paths);
    let saved = root.clone();
    let result = walk_trie(
        recognizer,
        &vocabulary.trie,
        destination,
        limits,
        stats,
        saved,
        Ghost(walk),
        Ghost(eos),
        Ghost(entries),
    );
    let ghost moved = *recognizer;
    match recognizer.restore(&root) {
        Ok(()) => {},
        Err(error) => {
            assert(!root.foreign(&moved));
            return Err(error);
        },
    }
    result
}

} // verus!
