//! The trie of a vocabulary, and the bytes of its identifiers.

use std::sync::Arc;

use vstd::prelude::*;

use crate::earley;
use crate::error::{CompileError, CompileStage, Error};
use crate::schema::CompileLimits;
use crate::sorting;
use crate::text;
use crate::vocabulary;
use crate::vocabulary::{TokenEntry, Vocabulary};

verus! {

/// A node of a trie: where its edges and its identifiers stand.
#[derive(Clone, Copy, Debug, PartialEq, Eq, Structural)]
pub struct TrieNode {
    pub edge_start: u32,
    pub edge_len: u32,
    pub token_start: u32,
    pub token_len: u32,
}

/// An edge of a trie.
#[derive(Clone, Copy, Debug, PartialEq, Eq, Structural)]
pub struct TrieEdge {
    pub byte: u8,
    pub child: u32,
}

/// A trie of byte strings with the identifiers of those that are tokens.
#[derive(Debug, PartialEq, Eq)]
pub struct TokenTrie {
    pub nodes: Vec<TrieNode>,
    pub edges: Vec<TrieEdge>,
    pub terminal_ids: Vec<u32>,
}

/// A vocabulary as a trie, with the bytes of every identifier.
#[derive(Debug, PartialEq, Eq)]
pub struct DerivedVocabulary {
    pub trie: Arc<TokenTrie>,
    pub reverse: Vec<Option<Arc<[u8]>>>,
    pub eos_token_id: u32,
    pub vocab_size: usize,
    pub mask_words: usize,
    pub total_token_bytes: usize,
}

impl TokenTrie {
    /// The edges of a node.
    pub open spec fn edges_of(&self, n: int) -> Seq<TrieEdge> {
        let node = self.nodes@[n];
        self.edges@.subrange(node.edge_start as int, node.edge_start + node.edge_len)
    }

    /// The identifiers at a node.
    pub open spec fn ids_of(&self, n: int) -> Seq<u32> {
        let node = self.nodes@[n];
        self.terminal_ids@.subrange(node.token_start as int, node.token_start + node.token_len)
    }

    /// Whether every node has its edges and identifiers, and edges lead on.
    pub open spec fn wf(&self) -> bool {
        &&& self.nodes@.len() > 0
        &&& forall|n: int|
            0 <= n < self.nodes@.len() ==> (#[trigger] self.nodes@[n]).edge_start
                + self.nodes@[n].edge_len <= self.edges@.len() && self.nodes@[n].token_start
                + self.nodes@[n].token_len <= self.terminal_ids@.len()
        &&& forall|n: int, e: int|
            #![trigger self.edges_of(n)[e]]
            0 <= n < self.nodes@.len() && 0 <= e < self.nodes@[n].edge_len ==> n
                < self.edges_of(n)[e].child < self.nodes@.len()
    }

    /// Whether `paths` says by which byte string each node is reached from the first.
    pub open spec fn spells(&self, paths: Seq<Seq<u8>>) -> bool {
        &&& paths.len() == self.nodes@.len()
        &&& paths[0] == Seq::<u8>::empty()
        &&& forall|n: int, e: int|
            #![trigger self.edges_of(n)[e]]
            0 <= n < self.nodes@.len() && 0 <= e < self.nodes@[n].edge_len
                ==> paths[self.edges_of(n)[e].child as int] == paths[n].push(
                self.edges_of(n)[e].byte,
            )
        &&& forall|c: int| 0 < c < self.nodes@.len() ==> #[trigger] self.has_parent(c)
    }

    /// Whether an edge leads to a node.
    pub open spec fn has_parent(&self, c: int) -> bool {
        exists|n: int, e: int|
            #![trigger self.edges_of(n)[e]]
            0 <= n < self.nodes@.len() && 0 <= e < self.nodes@[n].edge_len && self.edges_of(
                n,
            )[e].child == c
    }

    /// Whether one edge at most leads to each node.
    pub open spec fn branches(&self) -> bool {
        forall|n: int, e: int, m: int, f: int|
            #![trigger self.edges_of(n)[e], self.edges_of(m)[f]]
            0 <= n < self.nodes@.len() && 0 <= e < self.nodes@[n].edge_len && 0 <= m
                < self.nodes@.len() && 0 <= f < self.nodes@[m].edge_len && self.edges_of(
                n,
            )[e].child == self.edges_of(m)[f].child ==> n == m && e == f
    }

    /// Whether the nodes hold the identifiers of the byte strings that lead to them.
    pub open spec fn labels(&self, paths: Seq<Seq<u8>>, entries: Seq<TokenEntry>) -> bool {
        &&& forall|n: int, id: u32|
            0 <= n < self.nodes@.len() && #[trigger] self.ids_of(n).contains(id)
                ==> vocabulary::names(entries, paths[n], id)
        &&& forall|i: int|
            0 <= i < entries.len() ==> self.has_label(
                paths,
                (#[trigger] entries[i]).bytes@,
                entries[i].id,
            )
    }

    /// Whether edges and identifiers stand node by node, without gaps.
    pub open spec fn packed(&self) -> bool {
        &&& self.nodes@.len() == 0 ==> self.edges@.len() == 0 && self.terminal_ids@.len() == 0
        &&& self.nodes@.len() > 0 ==> {
            &&& self.nodes@[0].edge_start == 0
            &&& self.nodes@[0].token_start == 0
            &&& self.nodes@.last().edge_start + self.nodes@.last().edge_len == self.edges@.len()
            &&& self.nodes@.last().token_start + self.nodes@.last().token_len
                == self.terminal_ids@.len()
        }
        &&& forall|n: int, m: int|
            #![trigger self.nodes@[n], self.nodes@[m]]
            0 <= n < self.nodes@.len() && 0 <= m < self.nodes@.len() && m == n + 1
                ==> self.nodes@[m].edge_start == self.nodes@[n].edge_start + self.nodes@[n].edge_len
                && self.nodes@[m].token_start == self.nodes@[n].token_start
                + self.nodes@[n].token_len
    }

    /// Whether there is one node for each byte string with which a token begins, in the order of
    /// these strings, and the edges and the identifiers of each node ascend.
    pub open spec fn arranged(&self, entries: Seq<TokenEntry>) -> bool {
        &&& self.packed()
        &&& exists|paths: Seq<Seq<u8>>| #[trigger]
            self.spells(paths) && self.labels(paths, entries) && climbing(paths) && forall|
                prefix: Seq<u8>,
            | #[trigger] paths.contains(prefix) <==> prefixes(entries).contains(prefix)
        &&& forall|n: int|
            0 <= n < self.nodes@.len() ==> rising(#[trigger] self.edges_of(n))
        &&& forall|n: int|
            0 <= n < self.nodes@.len() ==> sorting::ascending(#[trigger] self.ids_of(n))
    }

    /// Whether a node that a byte string leads to holds an identifier.
    pub open spec fn has_label(&self, paths: Seq<Seq<u8>>, bytes: Seq<u8>, id: u32) -> bool {
        exists|n: int|
            0 <= n < self.nodes@.len() && paths[n] == bytes && #[trigger] self.ids_of(n).contains(id)
    }
}

/// Whether byte strings come in strictly ascending order.
pub open spec fn climbing(paths: Seq<Seq<u8>>) -> bool {
    forall|i: int, j: int|
        0 <= i < j < paths.len() ==> text::bytes_before(#[trigger] paths[i], #[trigger] paths[j])
}

/// Whether the bytes of edges come in strictly ascending order.
pub open spec fn rising(edges: Seq<TrieEdge>) -> bool {
    forall|e: int, f: int|
        0 <= e < f < edges.len() ==> (#[trigger] edges[e]).byte < (#[trigger] edges[f]).byte
}

/// Whether an identifier names two byte strings.
pub open spec fn ambiguous(entries: Seq<TokenEntry>, id: u32) -> bool {
    exists|i: int, j: int|
        0 <= i < entries.len() && 0 <= j < entries.len() && (#[trigger] entries[i]).id == id && (
        #[trigger] entries[j]).id == id && entries[i].bytes@ != entries[j].bytes@
}

/// The byte strings of tokens.
pub open spec fn spellings(entries: Seq<TokenEntry>) -> Set<Seq<u8>> {
    entries.map_values(|entry: TokenEntry| entry.bytes@).to_set()
}

/// The lengths of byte strings, added up.
pub open spec fn total_length(strings: Set<Seq<u8>>) -> nat
    decreases strings.len(),
{
    if !strings.finite() || strings.len() == 0 {
        0
    } else {
        strings.choose().len() + total_length(strings.remove(strings.choose()))
    }
}

/// Whether one of the first `count` tokens begins with a byte string.
pub open spec fn begins(entries: Seq<TokenEntry>, count: int, prefix: Seq<u8>) -> bool {
    exists|i: int| 0 <= i < count && prefix.is_prefix_of((#[trigger] entries[i]).bytes@)
}

/// The byte strings with which tokens begin, and the empty one.
pub open spec fn prefixes(entries: Seq<TokenEntry>) -> Set<Seq<u8>> {
    Set::new(|prefix: Seq<u8>| prefix.len() == 0 || begins(entries, entries.len() as int, prefix))
}

/// Whether `id` is the largest of the identifiers and `eos`.
pub open spec fn largest(entries: Seq<TokenEntry>, eos: u32, id: u32) -> bool {
    &&& eos <= id
    &&& forall|i: int| 0 <= i < entries.len() ==> (#[trigger] entries[i]).id <= id
    &&& id == eos || exists|i: int| 0 <= i < entries.len() && (#[trigger] entries[i]).id == id
}

/// Whether tokens come in the order of their bytes.
pub open spec fn in_order(entries: Seq<TokenEntry>) -> bool {
    forall|i: int, j: int|
        0 <= i < j < entries.len() ==> !text::bytes_before(
            (#[trigger] entries[j]).bytes@,
            (#[trigger] entries[i]).bytes@,
        )
}

/// The number of runs of tokens with the same bytes.
pub open spec fn runs(entries: Seq<TokenEntry>) -> nat
    decreases entries.len(),
{
    if entries.len() == 0 {
        0
    } else if entries.len() > 1 && entries[entries.len() - 2].bytes@ == entries.last().bytes@ {
        runs(entries.drop_last())
    } else {
        runs(entries.drop_last()) + 1
    }
}

/// One more byte string adds its length.
proof fn lemma_total_insert(strings: Set<Seq<u8>>, string: Seq<u8>)
    requires
        strings.finite(),
        !strings.contains(string),
    ensures
        total_length(strings.insert(string)) == total_length(strings) + string.len(),
    decreases strings.len(),
{
    let more = strings.insert(string);
    let first = more.choose();
    assert(more.contains(string));
    assert(more.len() > 0);
    assert(more.contains(first));
    if first == string {
        assert(more.remove(first) =~= strings);
    } else {
        let rest = strings.remove(first);
        assert(more.remove(first) =~= rest.insert(string));
        lemma_total_insert(rest, string);
        assert(rest.insert(first) =~= strings);
        lemma_total_insert(rest, first);
    }
}

/// Fewer byte strings are not longer.
proof fn lemma_total_subset(some: Set<Seq<u8>>, all: Set<Seq<u8>>)
    requires
        all.finite(),
        some.subset_of(all),
    ensures
        total_length(some) <= total_length(all),
    decreases some.len(),
{
    vstd::set_lib::lemma_len_subset(some, all);
    if some.len() > 0 {
        let first = some.choose();
        assert(some.contains(first));
        lemma_total_subset(some.remove(first), all.remove(first));
        assert(all.remove(first).insert(first) =~= all);
        lemma_total_insert(all.remove(first), first);
    }
}

/// Spelled is what some token spells, and the spellings are finitely many.
proof fn lemma_spellings(entries: Seq<TokenEntry>)
    ensures
        spellings(entries).finite(),
        forall|bytes: Seq<u8>| #[trigger]
            spellings(entries).contains(bytes) <==> exists|i: int|
                0 <= i < entries.len() && (#[trigger] entries[i]).bytes@ == bytes,
        forall|i: int|
            0 <= i < entries.len() ==> spellings(entries).contains((#[trigger] entries[i]).bytes@),
{
    let list = entries.map_values(|entry: TokenEntry| entry.bytes@);
    vstd::seq_lib::seq_to_set_is_finite(list);
    assert forall|bytes: Seq<u8>| #[trigger] spellings(entries).contains(bytes) <==> exists|i: int|
        0 <= i < entries.len() && (#[trigger] entries[i]).bytes@ == bytes by {
        if list.contains(bytes) {
            let i = choose|i: int| 0 <= i < list.len() && list[i] == bytes;
            assert(entries[i].bytes@ == bytes);
        }
        if exists|i: int| 0 <= i < entries.len() && (#[trigger] entries[i]).bytes@ == bytes {
            let i = choose|i: int| 0 <= i < entries.len() && (#[trigger] entries[i]).bytes@ == bytes;
            assert(list[i] == bytes);
        }
    }
}

/// More of the tokens spell what one more spells.
proof fn lemma_spellings_push(entries: Seq<TokenEntry>, count: int)
    requires
        0 <= count < entries.len(),
    ensures
        spellings(entries.take(count + 1)) == spellings(entries.take(count)).insert(
            entries[count].bytes@,
        ),
{
    let fewer = entries.take(count);
    let more = entries.take(count + 1);
    lemma_spellings(fewer);
    lemma_spellings(more);
    assert forall|bytes: Seq<u8>| spellings(more).contains(bytes) <==> spellings(fewer).insert(
        entries[count].bytes@,
    ).contains(bytes) by {
        if spellings(more).contains(bytes) {
            let i = choose|i: int| 0 <= i < more.len() && (#[trigger] more[i]).bytes@ == bytes;
            if i < count {
                assert(fewer[i].bytes@ == bytes);
            }
        }
        if spellings(fewer).contains(bytes) {
            let i = choose|i: int| 0 <= i < fewer.len() && (#[trigger] fewer[i]).bytes@ == bytes;
            assert(more[i].bytes@ == bytes);
        }
        if bytes == entries[count].bytes@ {
            assert(more[count].bytes@ == bytes);
        }
    }
    assert(spellings(more) =~= spellings(fewer).insert(entries[count].bytes@));
}

/// In order, the bytes of a token are new unless those of the token before it are the same.
proof fn lemma_new_spelling(entries: Seq<TokenEntry>, count: int)
    requires
        in_order(entries),
        0 <= count < entries.len(),
        count > 0 ==> entries[count - 1].bytes@ != entries[count].bytes@,
    ensures
        !spellings(entries.take(count)).contains(entries[count].bytes@),
{
    let fewer = entries.take(count);
    lemma_spellings(fewer);
    if spellings(fewer).contains(entries[count].bytes@) {
        let i = choose|i: int|
            0 <= i < fewer.len() && (#[trigger] fewer[i]).bytes@ == entries[count].bytes@;
        assert(entries[i].bytes@ == entries[count].bytes@);
        assert(entries[count - 1].bytes@ != entries[count].bytes@);
        text::lemma_before_total(entries[count - 1].bytes@, entries[count].bytes@);
        assert(!text::bytes_before(entries[count].bytes@, entries[count - 1].bytes@));
        assert(i < count - 1);
        assert(!text::bytes_before(entries[count - 1].bytes@, entries[i].bytes@));
    }
}

/// In order, every byte string has one run.
proof fn lemma_runs(entries: Seq<TokenEntry>)
    requires
        in_order(entries),
    ensures
        runs(entries) == spellings(entries).len(),
    decreases entries.len(),
{
    lemma_spellings(entries);
    if entries.len() == 0 {
        assert(spellings(entries) =~= Set::<Seq<u8>>::empty());
    } else {
        let count = entries.len() - 1;
        let fewer = entries.drop_last();
        assert(fewer =~= entries.take(count));
        assert(entries.take(count + 1) =~= entries);
        assert forall|i: int, j: int| 0 <= i < j < fewer.len() implies !text::bytes_before(
            (#[trigger] fewer[j]).bytes@,
            (#[trigger] fewer[i]).bytes@,
        ) by {
            assert(fewer[i] == entries[i] && fewer[j] == entries[j]);
        }
        lemma_runs(fewer);
        lemma_spellings(fewer);
        lemma_spellings_push(entries, count);
        if count > 0 && entries[count - 1].bytes@ == entries[count].bytes@ {
            assert(fewer[count - 1].bytes@ == entries[count].bytes@);
            assert(spellings(fewer).contains(entries[count].bytes@));
            assert(spellings(entries) =~= spellings(fewer));
        } else {
            lemma_new_spelling(entries, count);
        }
    }
}

/// A run counts once.
proof fn lemma_run(entries: Seq<TokenEntry>, from: int, count: int)
    requires
        0 <= from,
        1 <= count <= entries.len() - from,
        from > 0 ==> entries[from - 1].bytes@ != entries[from].bytes@,
        forall|i: int|
            from <= i < from + count ==> (#[trigger] entries[i]).bytes@ == entries[from].bytes@,
    ensures
        runs(entries.take(from + count)) == runs(entries.take(from)) + 1,
    decreases count,
{
    let more = entries.take(from + count);
    assert(more.drop_last() =~= entries.take(from + count - 1));
    assert(more.last() == entries[from + count - 1]);
    if more.len() > 1 {
        assert(more[more.len() - 2] == entries[from + count - 2]);
    }
    if count > 1 {
        lemma_run(entries, from, count - 1);
    }
}

impl DerivedVocabulary {
    /// Whether the trie and the table hold the vocabulary.
    pub open spec fn derives(&self, entries: Seq<TokenEntry>) -> bool {
        &&& self.trie.wf()
        &&& self.trie.branches()
        &&& exists|paths: Seq<Seq<u8>>| #[trigger]
            self.trie.spells(paths) && self.trie.labels(paths, entries)
        &&& self.reverse@.len() == self.vocab_size
        &&& forall|id: u32, bytes: Seq<u8>| #[trigger]
            vocabulary::names(entries, bytes, id) ==> id < self.vocab_size
                && self.reverse@[id as int] is Some && self.reverse@[id as int]->0@ == bytes
        &&& forall|id: u32|
            id < self.vocab_size && (#[trigger] self.reverse@[id as int]) is Some
                ==> vocabulary::names(entries, self.reverse@[id as int]->0@, id)
        &&& forall|i: int| 0 <= i < entries.len() ==> (#[trigger] entries[i]).bytes@.len() > 0
        &&& self.eos_token_id < self.vocab_size
        &&& self.mask_words == (self.vocab_size + 31) / 32
        &&& self.vocab_size <= u32::MAX + 1
    }
}

/// Whether a limit is passed: of the byte strings, of the length of one, of their lengths added up,
/// of the tokens, of the slots for identifiers, or of the nodes and the edges of the trie. A number
/// that does not fit is observed as the largest one.
pub open spec fn over(
    entries: Seq<TokenEntry>,
    eos: u32,
    limits: CompileLimits,
    observed: usize,
    limit: usize,
) -> bool {
    ||| limit == limits.max_trie_nodes && observed > limit && observed == spellings(entries).len()
    ||| limit == limits.max_token_bytes && observed > limit && exists|i: int|
        0 <= i < entries.len() && (#[trigger] entries[i]).bytes@.len() == observed
    ||| limit == limits.max_total_token_bytes && (observed > limit || observed == usize::MAX)
        && limit < total_length(spellings(entries)) && observed <= total_length(spellings(entries))
    ||| limit == limits.max_trie_terminal_ids && (observed > limit || observed > u32::MAX)
        && observed <= entries.len()
    ||| limit == limits.max_vocabulary_slots && exists|id: u32| #[trigger]
        largest(entries, eos, id) && (observed == id + 1 && observed > limit || observed
            == usize::MAX && id + 32 > usize::MAX)
    ||| limit == limits.max_trie_nodes && (observed > limit || observed > u32::MAX) && observed
        <= prefixes(entries).len()
    ||| limit == limits.max_trie_edges && (observed > limit || observed > u32::MAX) && observed
        < prefixes(entries).len()
}

/// Whether an error says why a vocabulary was refused.
pub open spec fn refused(
    entries: Seq<TokenEntry>,
    eos: u32,
    limits: CompileLimits,
    error: Error,
) -> bool {
    match error {
        Error::EmptyTokenDisallowed => exists|i: int|
            0 <= i < entries.len() && (#[trigger] entries[i]).bytes@.len() == 0,
        Error::AmbiguousTokenId { token_id } => ambiguous(entries, token_id),
        Error::Compile(CompileError::ResourceLimitExceeded { stage, observed, limit }) => stage
            == CompileStage::VocabularyProjection && over(entries, eos, limits, observed, limit),
        _ => false,
    }
}

/// Whether tokens keep within every limit.
pub open spec fn within(entries: Seq<TokenEntry>, eos: u32, limits: CompileLimits) -> bool {
    &&& spellings(entries).len() <= limits.max_trie_nodes
    &&& forall|i: int|
        0 <= i < entries.len() ==> (#[trigger] entries[i]).bytes@.len() <= limits.max_token_bytes
    &&& total_length(spellings(entries)) <= limits.max_total_token_bytes
    &&& entries.len() <= limits.max_trie_terminal_ids
    &&& forall|id: u32| #[trigger]
        largest(entries, eos, id) ==> id + 1 <= limits.max_vocabulary_slots
    &&& entries.len() > 0 ==> prefixes(entries).len() <= limits.max_trie_nodes
    &&& prefixes(entries).len() <= limits.max_trie_edges + 1
}

fn projection_limit(observed: usize, limit: usize) -> (error: Error)
    ensures
        error == Error::Compile(
            CompileError::ResourceLimitExceeded {
                stage: CompileStage::VocabularyProjection,
                observed,
                limit,
            },
        ),
{
    Error::Compile(
        CompileError::ResourceLimitExceeded {
            stage: CompileStage::VocabularyProjection,
            observed,
            limit,
        },
    )
}

fn enforce(observed: usize, limit: usize) -> (result: Result<(), Error>)
    ensures
        result is Ok <==> observed <= limit,
        result matches Err(error) ==> error == Error::Compile(
            CompileError::ResourceLimitExceeded {
                stage: CompileStage::VocabularyProjection,
                observed,
                limit,
            },
        ),
{
    if observed > limit {
        Err(projection_limit(observed, limit))
    } else {
        Ok(())
    }
}

fn checked_u32(value: usize, limit: usize) -> (result: Result<u32, Error>)
    ensures
        result is Ok <==> value <= u32::MAX,
        result matches Ok(id) ==> id == value,
        result matches Err(error) ==> error == Error::Compile(
            CompileError::ResourceLimitExceeded {
                stage: CompileStage::VocabularyProjection,
                observed: value,
                limit,
            },
        ),
{
    if value > u32::MAX as usize {
        Err(projection_limit(value, limit))
    } else {
        Ok(value as u32)
    }
}

/// A node while the trie grows.
#[derive(Debug)]
struct BuildNode {
    children: Vec<TrieEdge>,
    ids: Vec<u32>,
}

/// Whether growing nodes hang together, and `paths` says by which byte string each is reached.
spec fn grows(nodes: Seq<BuildNode>, paths: Seq<Seq<u8>>) -> bool {
    &&& nodes.len() > 0
    &&& paths.len() == nodes.len()
    &&& paths[0] == Seq::<u8>::empty()
    &&& forall|n: int, e: int|
        #![trigger nodes[n].children@[e]]
        0 <= n < nodes.len() && 0 <= e < nodes[n].children@.len() ==> n
            < nodes[n].children@[e].child < nodes.len() && paths[nodes[n].children@[e].child as int]
            == paths[n].push(nodes[n].children@[e].byte)
    &&& forall|c: int| 0 < c < nodes.len() ==> #[trigger] hangs(nodes, c)
    &&& edge_sum(nodes) + 1 == nodes.len()
    &&& forall|n: int| 0 <= n < nodes.len() ==> rising((#[trigger] nodes[n]).children@)
    &&& climbing(paths)
}

/// Whether `paths` are the byte strings with which the first `count` entries or `partial` begin.
spec fn covers(
    paths: Seq<Seq<u8>>,
    entries: Seq<TokenEntry>,
    count: int,
    partial: Seq<u8>,
) -> bool {
    forall|prefix: Seq<u8>| #[trigger]
        paths.contains(prefix) <==> prefix.len() == 0 || begins(entries, count, prefix)
            || prefix.is_prefix_of(partial)
}

spec fn hangs(nodes: Seq<BuildNode>, c: int) -> bool {
    exists|n: int, e: int|
        #![trigger nodes[n].children@[e]]
        0 <= n < nodes.len() && 0 <= e < nodes[n].children@.len() && nodes[n].children@[e].child == c
}

/// Whether the nodes hold the identifiers of the first `count` entries.
spec fn holds_first(
    nodes: Seq<BuildNode>,
    paths: Seq<Seq<u8>>,
    entries: Seq<TokenEntry>,
    count: int,
) -> bool {
    &&& forall|n: int, x: int|
        #![trigger nodes[n].ids@[x]]
        0 <= n < nodes.len() && 0 <= x < nodes[n].ids@.len() ==> vocabulary::names(
            entries,
            paths[n],
            nodes[n].ids@[x],
        )
    &&& forall|i: int|
        0 <= i < count ==> exists|n: int|
            0 <= n < nodes.len() && #[trigger] paths[n] == entries[i].bytes@
                && nodes[n].ids@.contains((#[trigger] entries[i]).id)
}

/// The number of edges of growing nodes.
spec fn edge_sum(nodes: Seq<BuildNode>) -> nat
    decreases nodes.len(),
{
    if nodes.len() == 0 {
        0
    } else {
        edge_sum(nodes.drop_last()) + nodes.last().children@.len()
    }
}

/// One more node adds its edges.
proof fn lemma_edge_sum_next(nodes: Seq<BuildNode>, count: int)
    requires
        0 <= count < nodes.len(),
    ensures
        edge_sum(nodes.take(count + 1)) == edge_sum(nodes.take(count)) + nodes[count].children@.len(),
{
    assert(nodes.take(count + 1).drop_last() =~= nodes.take(count));
}

/// Some of the nodes have no more edges than all.
proof fn lemma_edge_sum_part(nodes: Seq<BuildNode>, count: int)
    requires
        0 <= count <= nodes.len(),
    ensures
        edge_sum(nodes.take(count)) <= edge_sum(nodes),
    decreases nodes.len() - count,
{
    if count < nodes.len() {
        lemma_edge_sum_next(nodes, count);
        lemma_edge_sum_part(nodes, count + 1);
    } else {
        assert(nodes.take(count) =~= nodes);
    }
}

/// The edges of nodes of which at most one is changed.
proof fn lemma_edge_sum_change(a: Seq<BuildNode>, b: Seq<BuildNode>, n: int)
    requires
        a.len() == b.len(),
        forall|m: int|
            0 <= m < a.len() && m != n ==> (#[trigger] a[m]).children@.len()
                == b[m].children@.len(),
    ensures
        0 <= n < a.len() ==> edge_sum(a) + b[n].children@.len() == edge_sum(b)
            + a[n].children@.len(),
        !(0 <= n < a.len()) ==> edge_sum(a) == edge_sum(b),
    decreases a.len(),
{
    if a.len() > 0 {
        lemma_edge_sum_change(a.drop_last(), b.drop_last(), n);
        assert(a[a.len() - 1].children@.len() == b[a.len() - 1].children@.len() || n == a.len() - 1);
    }
}

/// The number of identifiers at growing nodes.
spec fn id_sum(nodes: Seq<BuildNode>) -> nat
    decreases nodes.len(),
{
    if nodes.len() == 0 {
        0
    } else {
        id_sum(nodes.drop_last()) + nodes.last().ids@.len()
    }
}

/// One more node adds its identifiers.
proof fn lemma_id_sum_next(nodes: Seq<BuildNode>, count: int)
    requires
        0 <= count < nodes.len(),
    ensures
        id_sum(nodes.take(count + 1)) == id_sum(nodes.take(count)) + nodes[count].ids@.len(),
{
    assert(nodes.take(count + 1).drop_last() =~= nodes.take(count));
}

/// Some of the nodes have no more identifiers than all.
proof fn lemma_id_sum_part(nodes: Seq<BuildNode>, count: int)
    requires
        0 <= count <= nodes.len(),
    ensures
        id_sum(nodes.take(count)) <= id_sum(nodes),
    decreases nodes.len() - count,
{
    if count < nodes.len() {
        lemma_id_sum_next(nodes, count);
        lemma_id_sum_part(nodes, count + 1);
    } else {
        assert(nodes.take(count) =~= nodes);
    }
}

/// The identifiers at nodes of which at most one is changed.
proof fn lemma_id_sum_change(a: Seq<BuildNode>, b: Seq<BuildNode>, n: int)
    requires
        a.len() == b.len(),
        forall|m: int|
            0 <= m < a.len() && m != n ==> (#[trigger] a[m]).ids@.len() == b[m].ids@.len(),
    ensures
        0 <= n < a.len() ==> id_sum(a) + b[n].ids@.len() == id_sum(b) + a[n].ids@.len(),
        !(0 <= n < a.len()) ==> id_sum(a) == id_sum(b),
    decreases a.len(),
{
    if a.len() > 0 {
        lemma_id_sum_change(a.drop_last(), b.drop_last(), n);
        assert(a[a.len() - 1].ids@.len() == b[a.len() - 1].ids@.len() || n == a.len() - 1);
    }
}

/// What begins byte strings is ordered as they are, unless it begins the other.
proof fn lemma_before_beginnings(p: Seq<u8>, q: Seq<u8>, left: Seq<u8>, right: Seq<u8>)
    requires
        p.is_prefix_of(left),
        q.is_prefix_of(right),
        text::bytes_before(p, q),
        !p.is_prefix_of(q),
    ensures
        text::bytes_before(left, right),
    decreases p.len(),
{
    if p.len() == 0 {
        assert(p =~= q.subrange(0, 0));
    } else {
        assert(left[0] == left.subrange(0, p.len() as int)[0]);
        assert(right[0] == right.subrange(0, q.len() as int)[0]);
        if p[0] == q[0] {
            assert(p.skip(1) =~= left.skip(1).subrange(0, p.len() - 1)) by {
                assert forall|i: int| 0 <= i < p.len() - 1 implies p.skip(1)[i] == left.skip(1)[i] by {
                    assert(left.subrange(0, p.len() as int)[i + 1] == p[i + 1]);
                }
            }
            assert(q.skip(1) =~= right.skip(1).subrange(0, q.len() - 1)) by {
                assert forall|i: int| 0 <= i < q.len() - 1 implies q.skip(1)[i] == right.skip(1)[i] by {
                    assert(right.subrange(0, q.len() as int)[i + 1] == q[i + 1]);
                }
            }
            if p.skip(1).is_prefix_of(q.skip(1)) {
                assert forall|i: int| 0 <= i < p.len() implies p[i] == q[i] by {
                    if i > 0 {
                        assert(p.skip(1)[i - 1] == q.skip(1).subrange(0, p.len() - 1)[i - 1]);
                    }
                }
                assert(p =~= q.subrange(0, p.len() as int));
            }
            lemma_before_beginnings(p.skip(1), q.skip(1), left.skip(1), right.skip(1));
        }
    }
}

/// What begins the beginning of a byte string begins it.
proof fn lemma_beginning(p: Seq<u8>, q: Seq<u8>, whole: Seq<u8>)
    requires
        p.is_prefix_of(q),
        q.is_prefix_of(whole),
    ensures
        p.is_prefix_of(whole),
{
    assert forall|i: int| 0 <= i < p.len() implies p[i] == whole[i] by {
        assert(q.subrange(0, p.len() as int)[i] == q[i]);
        assert(whole.subrange(0, q.len() as int)[i] == whole[i]);
    }
    assert(p =~= whole.subrange(0, p.len() as int));
}

/// What begins a byte string comes before it.
proof fn lemma_beginning_before(p: Seq<u8>, q: Seq<u8>)
    requires
        p.is_prefix_of(q),
        p.len() < q.len(),
    ensures
        text::bytes_before(p, q),
    decreases p.len(),
{
    if p.len() > 0 {
        assert(q.subrange(0, p.len() as int)[0] == q[0]);
        assert(p.skip(1) =~= q.skip(1).subrange(0, p.len() - 1)) by {
            assert forall|i: int| 0 <= i < p.len() - 1 implies p.skip(1)[i] == q.skip(1)[i] by {
                assert(q.subrange(0, p.len() as int)[i + 1] == p[i + 1]);
            }
        }
        lemma_beginning_before(p.skip(1), q.skip(1));
    }
}

/// The byte strings with which tokens begin are finitely many.
proof fn lemma_prefixes_finite(entries: Seq<TokenEntry>)
    ensures
        prefixes(entries).finite(),
    decreases entries.len(),
{
    if entries.len() == 0 {
        assert(prefixes(entries) =~= set![Seq::<u8>::empty()]) by {
            assert forall|p: Seq<u8>| prefixes(entries).contains(p) <==> set![
                Seq::<u8>::empty(),
            ].contains(p) by {
                if p.len() == 0 {
                    assert(p =~= Seq::<u8>::empty());
                }
            }
        }
    } else {
        let fewer = entries.drop_last();
        let bytes = entries.last().bytes@;
        let own = Seq::new(bytes.len() + 1, |k: int| bytes.take(k));
        lemma_prefixes_finite(fewer);
        vstd::seq_lib::seq_to_set_is_finite(own);
        let both = prefixes(fewer).union(own.to_set());
        assert forall|p: Seq<u8>| prefixes(entries).contains(p) implies both.contains(p) by {
            if p.len() > 0 {
                let i = choose|i: int|
                    0 <= i < entries.len() && p.is_prefix_of((#[trigger] entries[i]).bytes@);
                if i < fewer.len() {
                    assert(p.is_prefix_of(fewer[i].bytes@));
                } else {
                    assert(own[p.len() as int] =~= p);
                }
            }
        }
        vstd::set_lib::lemma_set_subset_finite(both, prefixes(entries));
    }
}

/// Ascending byte strings are different ones.
proof fn lemma_climbing(paths: Seq<Seq<u8>>)
    requires
        climbing(paths),
    ensures
        paths.no_duplicates(),
{
    assert forall|i: int, j: int|
        0 <= i < paths.len() && 0 <= j < paths.len() && i != j implies paths[i] != paths[j] by {
        text::lemma_before_total(paths[i], paths[i]);
        if i < j {
            assert(text::bytes_before(paths[i], paths[j]));
        } else {
            assert(text::bytes_before(paths[j], paths[i]));
        }
    }
}

/// There are no more ascending beginnings of tokens than there are beginnings.
proof fn lemma_at_most(paths: Seq<Seq<u8>>, entries: Seq<TokenEntry>)
    requires
        climbing(paths),
        forall|n: int| 0 <= n < paths.len() ==> prefixes(entries).contains(#[trigger] paths[n]),
    ensures
        paths.len() <= prefixes(entries).len(),
{
    lemma_climbing(paths);
    lemma_prefixes_finite(entries);
    paths.unique_seq_to_set();
    assert(paths.to_set().subset_of(prefixes(entries)));
    vstd::set_lib::lemma_len_subset(paths.to_set(), prefixes(entries));
}

/// The nodes of all entries are as many as the byte strings with which they begin.
proof fn lemma_all_covered(paths: Seq<Seq<u8>>, entries: Seq<TokenEntry>)
    requires
        climbing(paths),
        covers(paths, entries, entries.len() as int, Seq::empty()),
    ensures
        paths.len() == prefixes(entries).len(),
        forall|prefix: Seq<u8>| #[trigger]
            paths.contains(prefix) <==> prefixes(entries).contains(prefix),
{
    assert forall|prefix: Seq<u8>| #[trigger] paths.contains(prefix) <==> prefixes(
        entries,
    ).contains(prefix) by {}
    lemma_climbing(paths);
    paths.unique_seq_to_set();
    assert(paths.to_set() =~= prefixes(entries));
}

/// A byte string whose last byte leads nowhere yet comes after all that lead somewhere.
proof fn lemma_next_path(
    nodes: Seq<BuildNode>,
    paths: Seq<Seq<u8>>,
    entries: Seq<TokenEntry>,
    count: int,
    index: int,
    node: int,
)
    requires
        grows(nodes, paths),
        in_order(entries),
        0 <= count < entries.len(),
        0 <= index < entries[count].bytes@.len(),
        covers(paths, entries, count, entries[count].bytes@.take(index)),
        0 <= node < nodes.len(),
        paths[node] == entries[count].bytes@.take(index),
        forall|e: int|
            0 <= e < nodes[node].children@.len() ==> (#[trigger] nodes[node].children@[e]).byte
                != entries[count].bytes@[index],
    ensures
        forall|m: int|
            0 <= m < paths.len() ==> text::bytes_before(
                #[trigger] paths[m],
                entries[count].bytes@.take(index + 1),
            ),
        covers(
            paths.push(entries[count].bytes@.take(index + 1)),
            entries,
            count,
            entries[count].bytes@.take(index + 1),
        ),
        climbing(paths.push(entries[count].bytes@.take(index + 1))),
        paths.len() + 1 <= prefixes(entries).len(),
{
    let bytes = entries[count].bytes@;
    let fresh = bytes.take(index + 1);
    let more = paths.push(fresh);
    lemma_climbing(paths);
    assert(!paths.contains(fresh)) by {
        if paths.contains(fresh) {
            let c = choose|c: int| 0 <= c < paths.len() && paths[c] == fresh;
            assert(hangs(nodes, c));
            let (n, e) = choose|n: int, e: int|
                #![trigger nodes[n].children@[e]]
                0 <= n < nodes.len() && 0 <= e < nodes[n].children@.len()
                    && nodes[n].children@[e].child == c;
            assert(paths[c] == paths[n].push(nodes[n].children@[e].byte));
            assert(paths[n] =~= fresh.drop_last());
            assert(fresh.drop_last() =~= bytes.take(index));
            assert(n == node);
            assert(fresh.last() == nodes[n].children@[e].byte);
        }
    }
    assert forall|m: int| 0 <= m < paths.len() implies text::bytes_before(
        #[trigger] paths[m],
        fresh,
    ) by {
        let q = paths[m];
        assert(paths.contains(q));
        text::lemma_before_total(q, fresh);
        assert(fresh =~= bytes.subrange(0, fresh.len() as int));
        if text::bytes_before(fresh, q) {
            if begins(entries, count, q) {
                let i = choose|i: int|
                    0 <= i < count && q.is_prefix_of((#[trigger] entries[i]).bytes@);
                if fresh.is_prefix_of(q) {
                    lemma_beginning(fresh, q, entries[i].bytes@);
                    assert(begins(entries, count, fresh));
                } else {
                    lemma_before_beginnings(fresh, q, bytes, entries[i].bytes@);
                }
            } else if q.len() > 0 {
                assert(bytes.take(index) =~= fresh.subrange(0, index));
                lemma_beginning(q, bytes.take(index), fresh);
                lemma_beginning_before(q, fresh);
            }
        }
    }
    assert forall|i: int, j: int| 0 <= i < j < more.len() implies text::bytes_before(
        #[trigger] more[i],
        #[trigger] more[j],
    ) by {
        assert(more[i] == paths[i]);
        if j < paths.len() {
            assert(more[j] == paths[j]);
        }
    }
    lemma_covers_next(paths, more, entries, count, bytes, index);
    assert forall|n: int| 0 <= n < more.len() implies prefixes(entries).contains(
        #[trigger] more[n],
    ) by {
        assert(more.contains(more[n]));
        if begins(entries, count, more[n]) {
            let i = choose|i: int|
                0 <= i < count && more[n].is_prefix_of((#[trigger] entries[i]).bytes@);
            assert(begins(entries, entries.len() as int, more[n]));
        } else if more[n].len() > 0 {
            assert(fresh =~= bytes.subrange(0, fresh.len() as int));
            lemma_beginning(more[n], fresh, bytes);
            assert(begins(entries, entries.len() as int, more[n]));
        }
    }
    lemma_at_most(more, entries);
}

/// With one more byte, what a byte string begins with is covered where the longer one is there.
proof fn lemma_covers_next(
    paths: Seq<Seq<u8>>,
    more: Seq<Seq<u8>>,
    entries: Seq<TokenEntry>,
    count: int,
    bytes: Seq<u8>,
    index: int,
)
    requires
        0 <= index < bytes.len(),
        covers(paths, entries, count, bytes.take(index)),
        more == paths && paths.contains(bytes.take(index + 1)) || more == paths.push(
            bytes.take(index + 1),
        ),
    ensures
        covers(more, entries, count, bytes.take(index + 1)),
{
    let shorter = bytes.take(index);
    let longer = bytes.take(index + 1);
    assert(shorter =~= longer.subrange(0, index));
    assert forall|p: Seq<u8>| #[trigger] more.contains(p) <==> p.len() == 0 || begins(
        entries,
        count,
        p,
    ) || p.is_prefix_of(longer) by {
        earley::lemma_push_contains(paths, longer, p);
        if paths.contains(p) && p.is_prefix_of(shorter) {
            lemma_beginning(p, shorter, longer);
        }
        if p == longer {
            assert(p =~= longer.subrange(0, p.len() as int));
        }
        if p.is_prefix_of(longer) {
            if p.len() == longer.len() {
                assert(p =~= longer);
            } else {
                assert(p =~= shorter.subrange(0, p.len() as int)) by {
                    assert forall|i: int| 0 <= i < p.len() implies p[i] == shorter[i] by {
                        assert(longer.subrange(0, p.len() as int)[i] == longer[i]);
                    }
                }
            }
        }
    }
}

/// The child of a node on a byte.
fn find_child(node: &BuildNode, byte: u8) -> (found: Option<u32>)
    ensures
        found matches Some(child) ==> exists|e: int|
            0 <= e < node.children@.len() && #[trigger] node.children@[e] == (TrieEdge { byte, child })
                && forall|f: int| 0 <= f < e ==> (#[trigger] node.children@[f]).byte != byte,
        found is None ==> forall|e: int|
            0 <= e < node.children@.len() ==> (#[trigger] node.children@[e]).byte != byte,
{
    let mut index: usize = 0;
    while index < node.children.len()
        invariant
            index <= node.children@.len(),
            forall|f: int| 0 <= f < index ==> (#[trigger] node.children@[f]).byte != byte,
        decreases node.children@.len() - index,
    {
        if node.children[index].byte == byte {
            let child: u32 = node.children[index].child;
            assert(node.children@[index as int] == (TrieEdge { byte, child }));
            return Some(child);
        }
        index += 1;
    }
    None
}

/// Adds a child, in the order of the bytes.
fn add_child(node: &mut BuildNode, byte: u8, child: u32)
    ensures
        final(node).ids == old(node).ids,
        exists|at: int|
            0 <= at <= old(node).children@.len() && final(node).children@
                == #[trigger] old(node).children@.insert(at, (TrieEdge { byte, child })) && (forall|
                e: int,
            |
                0 <= e < at ==> (#[trigger] old(node).children@[e]).byte < byte) && (at
                < old(node).children@.len() ==> old(node).children@[at].byte >= byte),
{
    let mut at: usize = 0;
    while at < node.children.len() && node.children[at].byte < byte
        invariant
            at <= node.children@.len(),
            *node == *old(node),
            forall|e: int| 0 <= e < at ==> (#[trigger] node.children@[e]).byte < byte,
        decreases node.children@.len() - at,
    {
        at += 1;
    }
    node.children.insert(at, TrieEdge { byte, child });
}

/// A new child of a node keeps the trie together.
proof fn lemma_grown(
    before: Seq<BuildNode>,
    after: Seq<BuildNode>,
    paths: Seq<Seq<u8>>,
    n: int,
    at: int,
    byte: u8,
    child: u32,
)
    requires
        grows(before, paths),
        0 <= n < before.len(),
        child == before.len(),
        after.len() == before.len() + 1,
        forall|m: int| 0 <= m < before.len() && m != n ==> #[trigger] after[m] == before[m],
        0 <= at <= before[n].children@.len(),
        after[n].children@ == before[n].children@.insert(at, (TrieEdge { byte, child })),
        after[child as int].children@.len() == 0,
        forall|e: int|
            0 <= e < before[n].children@.len() ==> (#[trigger] before[n].children@[e]).byte != byte,
        forall|e: int| 0 <= e < at ==> (#[trigger] before[n].children@[e]).byte < byte,
        at < before[n].children@.len() ==> before[n].children@[at].byte >= byte,
        climbing(paths.push(paths[n].push(byte))),
    ensures
        grows(after, paths.push(paths[n].push(byte))),
{
    let more = paths.push(paths[n].push(byte));
    assert(rising(before[n].children@));
    assert(rising(after[n].children@)) by {
        let list = before[n].children@;
        let grown = after[n].children@;
        assert forall|e: int, f: int| 0 <= e < f < grown.len() implies (#[trigger] grown[e]).byte < (
        #[trigger] grown[f]).byte by {
            let a = if e < at {
                e
            } else {
                e - 1
            };
            let b = if f < at {
                f
            } else {
                f - 1
            };
            if e != at {
                assert(grown[e] == list[a]);
            }
            if f != at {
                assert(grown[f] == list[b]);
                if f > at {
                    assert(list[at].byte > byte);
                    assert(b == at || list[at].byte < list[b].byte);
                }
            }
        }
    }
    lemma_edge_sum_change(before, after.drop_last(), n);
    assert(after.drop_last()[n] == after[n]);
    assert forall|m: int| 0 <= m < after.len() implies rising((#[trigger] after[m]).children@) by {
        if m < before.len() && m != n {
            assert(after[m] == before[m]);
        }
    }
    assert forall|m: int, e: int|
        #![trigger after[m].children@[e]]
        0 <= m < after.len() && 0 <= e < after[m].children@.len() implies m
        < after[m].children@[e].child < after.len() && more[after[m].children@[e].child as int]
        == more[m].push(after[m].children@[e].byte) by {
        if m == n {
            if e < at {
                assert(after[m].children@[e] == before[m].children@[e]);
            } else if e > at {
                assert(after[m].children@[e] == before[m].children@[e - 1]);
            }
        } else if m < before.len() {
            assert(after[m].children@[e] == before[m].children@[e]);
        }
    }
    assert forall|c: int| 0 < c < after.len() implies #[trigger] hangs(after, c) by {
        if c == child {
            assert(after[n].children@[at].child == c);
        } else {
            assert(hangs(before, c));
            let (m, e) = choose|m: int, e: int|
                #![trigger before[m].children@[e]]
                0 <= m < before.len() && 0 <= e < before[m].children@.len()
                    && before[m].children@[e].child == c;
            if m == n && e >= at {
                assert(after[m].children@[e + 1] == before[m].children@[e]);
            } else {
                assert(after[m].children@[e] == before[m].children@[e]);
            }
        }
    }
}

/// What the next entry begins with is covered once it is followed to its end.
proof fn lemma_covered(paths: Seq<Seq<u8>>, entries: Seq<TokenEntry>, count: int)
    requires
        0 <= count < entries.len(),
        covers(paths, entries, count, entries[count].bytes@),
    ensures
        covers(paths, entries, count + 1, Seq::empty()),
{
    assert forall|p: Seq<u8>| #[trigger] paths.contains(p) <==> p.len() == 0 || begins(
        entries,
        count + 1,
        p,
    ) || p.is_prefix_of(Seq::<u8>::empty()) by {
        if begins(entries, count, p) {
            let i = choose|i: int| 0 <= i < count && p.is_prefix_of((#[trigger] entries[i]).bytes@);
            assert(p.is_prefix_of(entries[i].bytes@));
        }
        if p.is_prefix_of(entries[count].bytes@) {
            assert(begins(entries, count + 1, p));
        }
        if begins(entries, count + 1, p) {
            let i = choose|i: int|
                0 <= i < count + 1 && p.is_prefix_of((#[trigger] entries[i]).bytes@);
            if i < count {
                assert(begins(entries, count, p));
            }
        }
    }
}

/// Follows a byte string from the first node, and adds the nodes that are missing.
fn descend(
    nodes: &mut Vec<BuildNode>,
    bytes: &Vec<u8>,
    limits: &CompileLimits,
    Ghost(paths): Ghost<Seq<Seq<u8>>>,
    Ghost(entries): Ghost<Seq<TokenEntry>>,
    Ghost(count): Ghost<int>,
) -> (result: (Result<usize, Error>, Ghost<Seq<Seq<u8>>>))
    requires
        grows(old(nodes)@, paths),
        holds_first(old(nodes)@, paths, entries, count),
        0 <= count < entries.len(),
        bytes@ == entries[count].bytes@,
        in_order(entries),
        covers(paths, entries, count, Seq::empty()),
    ensures
        grows(final(nodes)@, result.1@),
        holds_first(final(nodes)@, result.1@, entries, count),
        id_sum(final(nodes)@) == id_sum(old(nodes)@),
        result.0 matches Ok(n) ==> {
            &&& n < final(nodes)@.len()
            &&& result.1@[n as int] == bytes@
            &&& covers(result.1@, entries, count + 1, Seq::empty())
            &&& final(nodes)@.len() == old(nodes)@.len() || final(nodes)@.len()
                <= limits.max_trie_nodes
        },
        result.0 matches Err(error) ==> forall|eos: u32| #[trigger]
            refused(entries, eos, *limits, error),
{
    let ghost mut known = paths;
    let mut node: usize = 0;
    let mut index: usize = 0;
    assert(bytes@.take(0) =~= Seq::<u8>::empty());
    assert(covers(known, entries, count, bytes@.take(0)));
    while index < bytes.len()
        invariant
            index <= bytes@.len(),
            grows(nodes@, known),
            holds_first(nodes@, known, entries, count),
            0 <= count < entries.len(),
            bytes@ == entries[count].bytes@,
            in_order(entries),
            covers(known, entries, count, bytes@.take(index as int)),
            id_sum(nodes@) == id_sum(old(nodes)@),
            nodes@.len() == old(nodes)@.len() || nodes@.len() <= limits.max_trie_nodes,
            node < nodes@.len(),
            known[node as int] == bytes@.take(index as int),
        decreases bytes@.len() - index,
    {
        let byte: u8 = bytes[index];
        assert(bytes@.take(index + 1) =~= bytes@.take(index as int).push(byte));
        match find_child(&nodes[node], byte) {
            Some(child) => {
                proof {
                    let e = choose|e: int|
                        0 <= e < nodes@[node as int].children@.len()
                            && #[trigger] nodes@[node as int].children@[e] == (TrieEdge {
                            byte,
                            child,
                        });
                    assert(nodes@[node as int].children@[e].child == child);
                    assert(known[child as int] == bytes@.take(index + 1));
                    lemma_covers_next(known, known, entries, count, bytes@, index as int);
                }
                node = child as usize;
            },
            None => {
                let fresh: usize = nodes.len();
                proof {
                    lemma_next_path(nodes@, known, entries, count, index as int, node as int);
                }
                match enforce(fresh.saturating_add(1), limits.max_trie_nodes) {
                    Ok(()) => {},
                    Err(error) => {
                        return (Err(error), Ghost(known));
                    },
                }
                let child: u32 = match checked_u32(fresh, limits.max_trie_nodes) {
                    Ok(child) => child,
                    Err(error) => {
                        return (Err(error), Ghost(known));
                    },
                };
                let ghost before = nodes@;
                nodes.push(BuildNode { children: Vec::new(), ids: Vec::new() });
                add_child(&mut nodes[node], byte, child);
                assert(nodes.len() == nodes@.len());
                proof {
                    let after = nodes@;
                    let at = choose|at: int|
                        0 <= at <= before[node as int].children@.len()
                            && after[node as int].children@ == #[trigger] before[node as int].children@.insert(
                            at,
                            (TrieEdge { byte, child }),
                        ) && (forall|e: int|
                            0 <= e < at ==> (#[trigger] before[node as int].children@[e]).byte
                                < byte) && (at < before[node as int].children@.len()
                            ==> before[node as int].children@[at].byte >= byte);
                    lemma_id_sum_change(before, after.drop_last(), -1);
                    assert(known.push(known[node as int].push(byte)) =~= known.push(
                        bytes@.take(index + 1),
                    ));
                    lemma_grown(before, after, known, node as int, at, byte, child);
                    let more = known.push(known[node as int].push(byte));
                    assert forall|n: int, x: int|
                        #![trigger after[n].ids@[x]]
                        0 <= n < after.len() && 0 <= x < after[n].ids@.len() implies
                        vocabulary::names(entries, more[n], after[n].ids@[x]) by {
                        assert(after[n].ids@[x] == before[n].ids@[x]);
                    }
                    assert forall|i: int| 0 <= i < count implies exists|n: int|
                        0 <= n < after.len() && #[trigger] more[n] == entries[i].bytes@
                            && after[n].ids@.contains((#[trigger] entries[i]).id) by {
                        let n = choose|n: int|
                            0 <= n < before.len() && #[trigger] known[n] == entries[i].bytes@
                                && before[n].ids@.contains(entries[i].id);
                        assert(more[n] == entries[i].bytes@);
                        assert(after[n].ids == before[n].ids);
                    }
                    known = more;
                }
                node = fresh;
            },
        }
        index += 1;
    }
    assert(bytes@.take(index as int) =~= bytes@);
    proof {
        lemma_covered(known, entries, count);
    }
    (Ok(node), Ghost(known))
}

/// What is measured of the tokens before the trie is built.
#[derive(Debug)]
struct Measure {
    total_bytes: usize,
    aliases: usize,
    max_id: u32,
}

/// The number of tokens with the same bytes from `from` on.
fn group_len(entries: &Vec<TokenEntry>, from: usize) -> (count: usize)
    requires
        from < entries@.len(),
    ensures
        1 <= count <= entries@.len() - from,
        forall|i: int| from <= i < from + count ==> (#[trigger] entries@[i]).bytes@ == entries@[from as int].bytes@,
        from + count < entries@.len() ==> entries@[from + count].bytes@
            != entries@[from as int].bytes@,
{
    let length: usize = entries.len();
    assert(from < length);
    let mut next: usize = from + 1;
    while next < entries.len()
        invariant
            from < next <= entries@.len(),
            forall|i: int|
                from <= i < next ==> (#[trigger] entries@[i]).bytes@ == entries@[from as int].bytes@,
        decreases entries@.len() - next,
    {
        if !text::same_bytes(entries[next].bytes.as_slice(), entries[from].bytes.as_slice()) {
            return next - from;
        }
        next += 1;
    }
    next - from
}

/// The number of runs of tokens with the same bytes: of sorted tokens, that of their byte strings.
fn distinct(entries: &Vec<TokenEntry>) -> (count: usize)
    ensures
        count == runs(entries@),
        in_order(entries@) ==> count == spellings(entries@).len(),
{
    let mut count: usize = 0;
    let mut from: usize = 0;
    assert(entries@.take(0) =~= Seq::<TokenEntry>::empty());
    while from < entries.len()
        invariant
            count <= from <= entries@.len(),
            0 < from < entries@.len() ==> entries@[from - 1].bytes@ != entries@[from as int].bytes@,
            count == runs(entries@.take(from as int)),
        decreases entries@.len() - from,
    {
        let length: usize = group_len(entries, from);
        proof {
            lemma_run(entries@, from as int, length as int);
            assert(entries@[from + length - 1].bytes@ == entries@[from as int].bytes@);
        }
        from += length;
        count += 1;
    }
    proof {
        assert(entries@.take(from as int) =~= entries@);
        if in_order(entries@) {
            lemma_runs(entries@);
        }
    }
    count
}

/// Measures sorted tokens, and refuses empty ones.
fn measure(entries: &Vec<TokenEntry>, eos: u32, limits: &CompileLimits) -> (result: Result<
    Measure,
    Error,
>)
    requires
        in_order(entries@),
    ensures
        result matches Ok(found) ==> {
            &&& largest(entries@, eos, found.max_id)
            &&& found.total_bytes == total_length(spellings(entries@))
            &&& found.aliases == entries@.len()
            &&& found.total_bytes <= limits.max_total_token_bytes
            &&& found.aliases <= limits.max_trie_terminal_ids
            &&& forall|i: int|
                0 <= i < entries@.len() ==> 0 < (#[trigger] entries@[i]).bytes@.len()
                    <= limits.max_token_bytes
        },
        result matches Err(error) ==> refused(entries@, eos, *limits, error),
{
    let mut found = Measure { total_bytes: 0, aliases: 0, max_id: eos };
    let mut from: usize = 0;
    proof {
        lemma_spellings(entries@);
        lemma_spellings(entries@.take(0));
        assert(spellings(entries@.take(0)) =~= Set::<Seq<u8>>::empty());
    }
    while from < entries.len()
        invariant
            in_order(entries@),
            from <= entries@.len(),
            0 < from < entries@.len() ==> entries@[from - 1].bytes@ != entries@[from as int].bytes@,
            found.total_bytes == total_length(spellings(entries@.take(from as int))),
            found.total_bytes <= limits.max_total_token_bytes,
            found.aliases == from <= limits.max_trie_terminal_ids,
            largest(entries@.take(from as int), eos, found.max_id),
            forall|i: int|
                0 <= i < from ==> 0 < (#[trigger] entries@[i]).bytes@.len()
                    <= limits.max_token_bytes,
        decreases entries@.len() - from,
    {
        let length: usize = group_len(entries, from);
        let bytes: usize = entries[from].bytes.len();
        if bytes == 0 {
            return Err(Error::EmptyTokenDisallowed);
        }
        match enforce(bytes, limits.max_token_bytes) {
            Ok(()) => {},
            Err(error) => {
                assert(entries@[from as int].bytes@.len() == bytes);
                return Err(error);
            },
        }
        proof {
            lemma_group_total(entries@, from as int, length as int);
        }
        found.total_bytes =
        match found.total_bytes.checked_add(bytes) {
            Some(total) => total,
            None => {
                return Err(projection_limit(usize::MAX, limits.max_total_token_bytes));
            },
        };
        match enforce(found.total_bytes, limits.max_total_token_bytes) {
            Ok(()) => {},
            Err(error) => {
                return Err(error);
            },
        }
        found.aliases =
        match found.aliases.checked_add(length) {
            Some(total) => total,
            None => {
                return Err(projection_limit(usize::MAX, limits.max_trie_terminal_ids));
            },
        };
        match enforce(found.aliases, limits.max_trie_terminal_ids) {
            Ok(()) => {},
            Err(error) => {
                return Err(error);
            },
        }
        let end: usize = from + length;
        let mut index: usize = from;
        while index < end
            invariant
                from <= index <= end <= entries@.len(),
                0 < bytes <= limits.max_token_bytes,
                bytes == entries@[from as int].bytes@.len(),
                largest(entries@.take(index as int), eos, found.max_id),
                found.total_bytes == total_length(spellings(entries@.take(end as int))),
                found.total_bytes <= limits.max_total_token_bytes,
                found.aliases == end <= limits.max_trie_terminal_ids,
                forall|i: int|
                    from <= i < end ==> (#[trigger] entries@[i]).bytes@
                        == entries@[from as int].bytes@,
                forall|i: int|
                    0 <= i < index ==> 0 < (#[trigger] entries@[i]).bytes@.len()
                        <= limits.max_token_bytes,
            decreases end - index,
        {
            let ghost then = found.max_id;
            if entries[index].id > found.max_id {
                found.max_id = entries[index].id;
            }
            proof {
                lemma_largest_next(entries@, index as int, eos, then, found.max_id);
            }
            index += 1;
        }
        assert(entries@[from + length - 1].bytes@ == entries@[from as int].bytes@);
        from = end;
    }
    assert(entries@.take(from as int) =~= entries@);
    Ok(found)
}

/// The bytes of a run are added to those before it.
proof fn lemma_group_total(entries: Seq<TokenEntry>, from: int, count: int)
    requires
        in_order(entries),
        0 <= from,
        1 <= count <= entries.len() - from,
        from > 0 ==> entries[from - 1].bytes@ != entries[from].bytes@,
        forall|i: int|
            from <= i < from + count ==> (#[trigger] entries[i]).bytes@ == entries[from].bytes@,
    ensures
        total_length(spellings(entries.take(from + count))) == total_length(
            spellings(entries.take(from)),
        ) + entries[from].bytes@.len(),
        total_length(spellings(entries.take(from + count))) <= total_length(spellings(entries)),
    decreases count,
{
    let more = entries.take(from + count);
    lemma_spellings(entries);
    lemma_spellings(more);
    lemma_spellings_push(entries, from + count - 1);
    let fewer = entries.take(from + count - 1);
    lemma_spellings(fewer);
    if count > 1 {
        lemma_group_total(entries, from, count - 1);
        assert(fewer[from].bytes@ == entries[from + count - 1].bytes@);
        assert(spellings(fewer).contains(entries[from + count - 1].bytes@));
        assert(spellings(more) =~= spellings(fewer));
    } else {
        lemma_new_spelling(entries, from);
        lemma_total_insert(spellings(fewer), entries[from].bytes@);
    }
    assert forall|bytes: Seq<u8>| spellings(more).contains(bytes) implies spellings(
        entries,
    ).contains(bytes) by {
        let i = choose|i: int| 0 <= i < more.len() && (#[trigger] more[i]).bytes@ == bytes;
        assert(entries[i].bytes@ == bytes);
    }
    lemma_total_subset(spellings(more), spellings(entries));
}

/// The largest identifier, with one more token.
proof fn lemma_largest_next(entries: Seq<TokenEntry>, count: int, eos: u32, then: u32, now: u32)
    requires
        0 <= count < entries.len(),
        largest(entries.take(count), eos, then),
        now == (if entries[count].id > then {
            entries[count].id
        } else {
            then
        }),
    ensures
        largest(entries.take(count + 1), eos, now),
{
    let fewer = entries.take(count);
    let more = entries.take(count + 1);
    assert forall|i: int| 0 <= i < more.len() implies (#[trigger] more[i]).id <= now by {
        if i < count {
            assert(fewer[i] == more[i]);
        }
    }
    if now == entries[count].id {
        assert(more[count].id == now);
    } else if now != eos {
        let i = choose|i: int| 0 <= i < fewer.len() && (#[trigger] fewer[i]).id == then;
        assert(more[i].id == now);
    }
}

/// Whether the table holds the bytes of the first `count` entries, and nothing else.
spec fn reverses(reverse: Seq<Option<Arc<[u8]>>>, entries: Seq<TokenEntry>, count: int) -> bool {
    &&& forall|i: int|
        0 <= i < count ==> (#[trigger] entries[i]).id < reverse.len()
            && reverse[entries[i].id as int] is Some && reverse[entries[i].id as int]->0@
            == entries[i].bytes@
    &&& forall|s: int|
        0 <= s < reverse.len() && (#[trigger] reverse[s]) is Some ==> s <= u32::MAX
            && vocabulary::names(entries, reverse[s]->0@, s as u32)
}

/// A table without bytes.
fn empty_table(size: usize) -> (table: Vec<Option<Arc<[u8]>>>)
    ensures
        table@.len() == size,
        forall|s: int| 0 <= s < size ==> (#[trigger] table@[s]) is None,
{
    let mut table: Vec<Option<Arc<[u8]>>> = Vec::new();
    while table.len() < size
        invariant
            table@.len() <= size,
            forall|s: int| 0 <= s < table@.len() ==> (#[trigger] table@[s]) is None,
        decreases size - table@.len(),
    {
        table.push(None);
    }
    table
}

/// Puts the bytes of an entry into the table.
fn remember(
    reverse: &mut Vec<Option<Arc<[u8]>>>,
    entries: &Vec<TokenEntry>,
    index: usize,
) -> (result: Result<(), Error>)
    requires
        index < entries@.len(),
        reverses(old(reverse)@, entries@, index as int),
        entries@[index as int].id < old(reverse)@.len(),
    ensures
        final(reverse)@.len() == old(reverse)@.len(),
        result is Ok ==> reverses(final(reverse)@, entries@, index + 1),
        result matches Err(error) ==> forall|eos: u32, limits: CompileLimits| #[trigger]
            refused(entries@, eos, limits, error),
{
    let entry = &entries[index];
    let slot: usize = entry.id as usize;
    if let Some(existing) = &reverse[slot] {
        if !text::same_bytes(&**existing, entry.bytes.as_slice()) {
            proof {
                let other = reverse@[slot as int]->0@;
                assert(vocabulary::names(entries@, other, entry.id));
                let i = choose|i: int|
                    0 <= i < entries@.len() && (#[trigger] entries@[i]).bytes@ == other
                        && entries@[i].id == entry.id;
                assert(entries@[i].bytes@ != entries@[index as int].bytes@);
                assert(ambiguous(entries@, entry.id));
            }
            return Err(Error::AmbiguousTokenId { token_id: entry.id });
        }
        return Ok(());
    }
    let shared = text::share(entry.bytes.as_slice());
    let ghost before = reverse@;
    reverse.set(slot, Some(shared));
    proof {
        assert(entries@[index as int].bytes@ == shared@);
        assert(vocabulary::names(entries@, shared@, entry.id));
        assert forall|i: int| 0 <= i < index + 1 implies (#[trigger] entries@[i]).id < reverse@.len()
            && reverse@[entries@[i].id as int] is Some && reverse@[entries@[i].id as int]->0@
            == entries@[i].bytes@ by {
            if i < index {
                assert(before[entries@[i].id as int] is Some);
            }
        }
    }
    Ok(())
}

/// Adds the entries to the trie and to the table.
fn grow(
    entries: &Vec<TokenEntry>,
    size: usize,
    limits: &CompileLimits,
) -> (result: Result<(Vec<BuildNode>, Vec<Option<Arc<[u8]>>>), Error>)
    requires
        forall|i: int| 0 <= i < entries@.len() ==> (#[trigger] entries@[i]).id < size,
        in_order(entries@),
    ensures
        result matches Ok(built) ==> built.1@.len() == size && reverses(
            built.1@,
            entries@,
            entries@.len() as int,
        ) && exists|paths: Seq<Seq<u8>>| #[trigger]
            grows(built.0@, paths) && holds_first(
                built.0@,
                paths,
                entries@,
                entries@.len() as int,
            ) && covers(paths, entries@, entries@.len() as int, Seq::empty()),
        result matches Ok(built) ==> id_sum(built.0@) == entries@.len() && (built.0@.len() == 1
            || built.0@.len() <= limits.max_trie_nodes),
        result matches Err(error) ==> forall|eos: u32| #[trigger]
            refused(entries@, eos, *limits, error),
{
    let mut reverse = empty_table(size);
    let mut nodes: Vec<BuildNode> = Vec::new();
    nodes.push(BuildNode { children: Vec::new(), ids: Vec::new() });
    let ghost mut paths: Seq<Seq<u8>> = seq![Seq::empty()];
    let mut index: usize = 0;
    assert(reverses(reverse@, entries@, 0));
    proof {
        assert(nodes@.drop_last() =~= Seq::<BuildNode>::empty());
        assert(edge_sum(nodes@.drop_last()) == 0);
        assert(id_sum(nodes@.drop_last()) == 0);
        assert(grows(nodes@, paths));
        assert forall|p: Seq<u8>| #[trigger] paths.contains(p) <==> p.len() == 0 || begins(
            entries@,
            0,
            p,
        ) || p.is_prefix_of(Seq::<u8>::empty()) by {
            if p.len() == 0 {
                assert(paths[0] =~= p);
            }
        }
    }
    while index < entries.len()
        invariant
            forall|i: int| 0 <= i < entries@.len() ==> (#[trigger] entries@[i]).id < size,
            index <= entries@.len(),
            reverse@.len() == size,
            reverses(reverse@, entries@, index as int),
            grows(nodes@, paths),
            holds_first(nodes@, paths, entries@, index as int),
            in_order(entries@),
            covers(paths, entries@, index as int, Seq::empty()),
            id_sum(nodes@) == index,
            nodes@.len() == 1 || nodes@.len() <= limits.max_trie_nodes,
        decreases entries@.len() - index,
    {
        let entry = &entries[index];
        let (found, more) = descend(
            &mut nodes,
            &entry.bytes,
            limits,
            Ghost(paths),
            Ghost(entries@),
            Ghost(index as int),
        );
        proof {
            paths = more@;
        }
        let node: usize = match found {
            Ok(node) => node,
            Err(error) => {
                return Err(error);
            },
        };
        match remember(&mut reverse, entries, index) {
            Ok(()) => {},
            Err(error) => {
                return Err(error);
            },
        }
        let ghost before = nodes@;
        nodes[node].ids.push(entry.id);
        proof {
            let after = nodes@;
            assert(after[node as int].ids@ == before[node as int].ids@.push(entry.id));
            assert(after[node as int].children == before[node as int].children);
            lemma_edge_sum_change(before, after, -1);
            lemma_id_sum_change(before, after, node as int);
            assert forall|n: int| 0 <= n < after.len() implies rising(
                (#[trigger] after[n]).children@,
            ) by {
                assert(after[n].children == before[n].children);
            }
            assert(vocabulary::names(entries@, paths[node as int], entry.id)) by {
                assert(entries@[index as int].bytes@ == paths[node as int]);
            }
            assert forall|n: int, e: int|
                #![trigger after[n].children@[e]]
                0 <= n < after.len() && 0 <= e < after[n].children@.len() implies n
                < after[n].children@[e].child < after.len()
                && paths[after[n].children@[e].child as int] == paths[n].push(
                after[n].children@[e].byte,
            ) by {
                assert(after[n].children@[e] == before[n].children@[e]);
            }
            assert forall|c: int| 0 < c < after.len() implies #[trigger] hangs(after, c) by {
                assert(hangs(before, c));
                let (m, e) = choose|m: int, e: int|
                    #![trigger before[m].children@[e]]
                    0 <= m < before.len() && 0 <= e < before[m].children@.len()
                        && before[m].children@[e].child == c;
                assert(after[m].children@[e] == before[m].children@[e]);
            }
            assert forall|n: int, x: int|
                #![trigger after[n].ids@[x]]
                0 <= n < after.len() && 0 <= x < after[n].ids@.len() implies vocabulary::names(
                entries@,
                paths[n],
                after[n].ids@[x],
            ) by {
                if n != node || x < before[n].ids@.len() {
                    assert(after[n].ids@[x] == before[n].ids@[x]);
                }
            }
            assert forall|i: int| 0 <= i < index + 1 implies exists|n: int|
                0 <= n < after.len() && #[trigger] paths[n] == entries@[i].bytes@
                    && after[n].ids@.contains((#[trigger] entries@[i]).id) by {
                if i < index {
                    let n = choose|n: int|
                        0 <= n < before.len() && #[trigger] paths[n] == entries@[i].bytes@
                            && before[n].ids@.contains(entries@[i].id);
                    let x = choose|x: int|
                        0 <= x < before[n].ids@.len() && before[n].ids@[x] == entries@[i].id;
                    assert(after[n].ids@[x] == entries@[i].id);
                    assert(paths[n] == entries@[i].bytes@);
                } else {
                    assert(after[node as int].ids@[before[node as int].ids@.len() as int] == entries@[i].id);
                    assert(paths[node as int] == entries@[i].bytes@);
                }
            }
        }
        index += 1;
    }
    let built = (nodes, reverse);
    assert(index == entries@.len());
    assert(grows(built.0@, paths) && holds_first(built.0@, paths, entries@, entries@.len() as int)
        && covers(paths, entries@, entries@.len() as int, Seq::empty()));
    Ok(built)
}

/// Whether the first nodes of a trie are the growing nodes, laid out.
spec fn laid_out(trie: &TokenTrie, nodes: Seq<BuildNode>, count: int) -> bool {
    &&& trie.nodes@.len() == count
    &&& forall|n: int|
        0 <= n < count ==> (#[trigger] trie.nodes@[n]).edge_start + trie.nodes@[n].edge_len
            <= trie.edges@.len() && trie.nodes@[n].token_start + trie.nodes@[n].token_len
            <= trie.terminal_ids@.len()
    &&& forall|n: int|
        0 <= n < count ==> #[trigger] trie.edges_of(n) == nodes[n].children@
    &&& forall|n: int, id: u32|
        0 <= n < count ==> (#[trigger] trie.ids_of(n).contains(id) <==> nodes[n].ids@.contains(id))
    &&& forall|n: int| 0 <= n < count ==> sorting::ascending(#[trigger] trie.ids_of(n))
    &&& trie.packed()
    &&& trie.edges@.len() == edge_sum(nodes.take(count))
    &&& trie.terminal_ids@.len() <= id_sum(nodes.take(count))
}

/// What is listed once is not longer than where it is listed.
proof fn lemma_unique_len(unique: Seq<u32>, list: Seq<u32>)
    requires
        sorting::ascending(unique),
        forall|x: u32| #[trigger] unique.contains(x) <==> list.contains(x),
    ensures
        unique.len() <= list.len(),
{
    assert(unique.no_duplicates());
    unique.unique_seq_to_set();
    assert(unique.to_set() =~= list.to_set());
    list.lemma_cardinality_of_set();
}

/// Lays the growing nodes out one after the other.
fn lay_out(nodes: &Vec<BuildNode>, limits: &CompileLimits, Ghost(entries): Ghost<Seq<TokenEntry>>) -> (result:
    Result<TokenTrie, Error>)
    requires
        edge_sum(nodes@) < prefixes(entries).len(),
        id_sum(nodes@) <= entries.len(),
    ensures
        result matches Ok(trie) ==> laid_out(&trie, nodes@, nodes@.len() as int),
        result matches Err(error) ==> forall|eos: u32| #[trigger]
            refused(entries, eos, *limits, error),
{
    let mut trie = TokenTrie { nodes: Vec::new(), edges: Vec::new(), terminal_ids: Vec::new() };
    let mut index: usize = 0;
    assert(nodes@.take(0) =~= Seq::<BuildNode>::empty());
    while index < nodes.len()
        invariant
            index <= nodes@.len(),
            edge_sum(nodes@) < prefixes(entries).len(),
            id_sum(nodes@) <= entries.len(),
            laid_out(&trie, nodes@, index as int),
        decreases nodes@.len() - index,
    {
        let ids: Vec<u32> = sorting::sorted_unique(copy_ids(&nodes[index].ids));
        proof {
            lemma_edge_sum_next(nodes@, index as int);
            lemma_edge_sum_part(nodes@, index + 1);
            lemma_id_sum_next(nodes@, index as int);
            lemma_id_sum_part(nodes@, index + 1);
            lemma_unique_len(ids@, nodes@[index as int].ids@);
        }
        let edge_start: u32 = match checked_u32(trie.edges.len(), limits.max_trie_edges) {
            Ok(start) => start,
            Err(error) => {
                return Err(error);
            },
        };
        let token_start: u32 = match checked_u32(
            trie.terminal_ids.len(),
            limits.max_trie_terminal_ids,
        ) {
            Ok(start) => start,
            Err(error) => {
                return Err(error);
            },
        };
        let edge_len: u32 = match checked_u32(nodes[index].children.len(), limits.max_trie_edges) {
            Ok(length) => length,
            Err(error) => {
                return Err(error);
            },
        };
        let token_len: u32 = match checked_u32(ids.len(), limits.max_trie_terminal_ids) {
            Ok(length) => length,
            Err(error) => {
                return Err(error);
            },
        };
        let ghost before = trie;
        let mut edge: usize = 0;
        while edge < nodes[index].children.len()
            invariant
                index < nodes@.len(),
                edge <= nodes@[index as int].children@.len(),
                trie.nodes == before.nodes,
                trie.terminal_ids == before.terminal_ids,
                trie.edges@ == before.edges@ + nodes@[index as int].children@.take(edge as int),
            decreases nodes@[index as int].children@.len() - edge,
        {
            trie.edges.push(nodes[index].children[edge]);
            edge += 1;
            assert(nodes@[index as int].children@.take(edge as int) =~= nodes@[index as int].children@.take(
                edge - 1,
            ).push(nodes@[index as int].children@[edge - 1]));
        }
        assert(nodes@[index as int].children@.take(edge as int) =~= nodes@[index as int].children@);
        let mut token: usize = 0;
        while token < ids.len()
            invariant
                token <= ids@.len(),
                trie.nodes == before.nodes,
                trie.edges@ == before.edges@ + nodes@[index as int].children@,
                trie.terminal_ids@ == before.terminal_ids@ + ids@.take(token as int),
            decreases ids@.len() - token,
        {
            trie.terminal_ids.push(ids[token]);
            token += 1;
            assert(ids@.take(token as int) =~= ids@.take(token - 1).push(ids@[token - 1]));
        }
        assert(ids@.take(token as int) =~= ids@);
        trie.nodes.push(TrieNode { edge_start, edge_len, token_start, token_len });
        proof {
            let n = index as int;
            assert(trie.edges_of(n) =~= nodes@[n].children@);
            assert(trie.ids_of(n) =~= ids@);
            assert forall|m: int| 0 <= m < index + 1 implies sorting::ascending(
                #[trigger] trie.ids_of(m),
            ) by {
                if m < index {
                    assert(trie.nodes@[m] == before.nodes@[m]);
                    assert(trie.ids_of(m) =~= before.ids_of(m));
                }
            }
            assert forall|m: int, k: int|
                #![trigger trie.nodes@[m], trie.nodes@[k]]
                0 <= m < trie.nodes@.len() && 0 <= k < trie.nodes@.len() && k == m + 1 implies
                trie.nodes@[k].edge_start == trie.nodes@[m].edge_start + trie.nodes@[m].edge_len
                && trie.nodes@[k].token_start == trie.nodes@[m].token_start
                + trie.nodes@[m].token_len by {
                assert(trie.nodes@[m] == before.nodes@[m]);
                if k < index {
                    assert(trie.nodes@[k] == before.nodes@[k]);
                }
            }
            assert forall|m: int| 0 <= m < index + 1 implies #[trigger] trie.edges_of(m)
                == nodes@[m].children@ by {
                if m < index {
                    assert(before.edges_of(m) == nodes@[m].children@);
                    assert(trie.nodes@[m] == before.nodes@[m]);
                    assert(trie.edges_of(m) =~= before.edges_of(m));
                }
            }
            assert forall|m: int, id: u32| 0 <= m < index + 1 implies (
            #[trigger] trie.ids_of(m).contains(id) <==> nodes@[m].ids@.contains(id)) by {
                if m < index {
                    assert(trie.nodes@[m] == before.nodes@[m]);
                    assert(trie.ids_of(m) =~= before.ids_of(m));
                    assert(before.ids_of(m).contains(id) <==> nodes@[m].ids@.contains(id));
                }
            }
        }
        index += 1;
    }
    Ok(trie)
}

fn copy_ids(ids: &Vec<u32>) -> (copy: Vec<u32>)
    ensures
        copy@ == ids@,
{
    let copy = ids.clone();
    assert(copy@ =~= ids@);
    copy
}

/// The number of edges of growing nodes, if it can be counted.
fn count_edges(nodes: &Vec<BuildNode>) -> (count: Option<usize>)
    ensures
        count == (if edge_sum(nodes@) <= usize::MAX {
            Some(edge_sum(nodes@) as usize)
        } else {
            None
        }),
{
    let mut total: usize = 0;
    let mut index: usize = 0;
    assert(nodes@.take(0) =~= Seq::<BuildNode>::empty());
    while index < nodes.len()
        invariant
            index <= nodes@.len(),
            total == edge_sum(nodes@.take(index as int)),
        decreases nodes@.len() - index,
    {
        proof {
            lemma_edge_sum_next(nodes@, index as int);
            lemma_edge_sum_part(nodes@, index + 1);
        }
        total =
        match total.checked_add(nodes[index].children.len()) {
            Some(total) => total,
            None => {
                return None;
            },
        };
        index += 1;
    }
    assert(nodes@.take(index as int) =~= nodes@);
    Some(total)
}

/// A trie that was laid out holds the vocabulary.
proof fn lemma_laid_out(
    trie: &TokenTrie,
    nodes: Seq<BuildNode>,
    paths: Seq<Seq<u8>>,
    entries: Seq<TokenEntry>,
    reverse: Seq<Option<Arc<[u8]>>>,
)
    requires
        grows(nodes, paths),
        holds_first(nodes, paths, entries, entries.len() as int),
        laid_out(trie, nodes, nodes.len() as int),
        reverses(reverse, entries, entries.len() as int),
    ensures
        trie.wf(),
        trie.spells(paths),
        trie.labels(paths, entries),
{
    assert forall|n: int, e: int|
        #![trigger trie.edges_of(n)[e]]
        0 <= n < trie.nodes@.len() && 0 <= e < trie.nodes@[n].edge_len implies n
        < trie.edges_of(n)[e].child < trie.nodes@.len() && paths[trie.edges_of(n)[e].child as int]
        == paths[n].push(trie.edges_of(n)[e].byte) by {
        assert(trie.edges_of(n) == nodes[n].children@);
        assert(nodes[n].children@[e] == trie.edges_of(n)[e]);
    }
    assert forall|c: int| 0 < c < trie.nodes@.len() implies #[trigger] trie.has_parent(c) by {
        assert(hangs(nodes, c));
        let (n, e) = choose|n: int, e: int|
            #![trigger nodes[n].children@[e]]
            0 <= n < nodes.len() && 0 <= e < nodes[n].children@.len()
                && nodes[n].children@[e].child == c;
        assert(trie.edges_of(n) == nodes[n].children@);
        assert(trie.edges_of(n)[e].child == c);
    }
    assert forall|n: int, id: u32|
        0 <= n < trie.nodes@.len() && #[trigger] trie.ids_of(n).contains(id) implies
        vocabulary::names(entries, paths[n], id) by {
        assert(nodes[n].ids@.contains(id));
        let x = choose|x: int| 0 <= x < nodes[n].ids@.len() && nodes[n].ids@[x] == id;
        assert(vocabulary::names(entries, paths[n], nodes[n].ids@[x]));
    }
    assert forall|i: int| 0 <= i < entries.len() implies trie.has_label(
        paths,
        (#[trigger] entries[i]).bytes@,
        entries[i].id,
    ) by {
        let m = choose|m: int|
            0 <= m < nodes.len() && #[trigger] paths[m] == entries[i].bytes@
                && nodes[m].ids@.contains((#[trigger] entries[i]).id);
        assert(trie.ids_of(m).contains(entries[i].id));
    }
}

/// Where byte strings tell nodes apart, and bytes the edges of a node, one edge leads to each node.
proof fn lemma_branches(trie: &TokenTrie, paths: Seq<Seq<u8>>)
    requires
        trie.wf(),
        trie.spells(paths),
        climbing(paths),
        forall|n: int| 0 <= n < trie.nodes@.len() ==> rising(#[trigger] trie.edges_of(n)),
    ensures
        trie.branches(),
{
    lemma_climbing(paths);
    assert forall|n: int, e: int, m: int, f: int|
        #![trigger trie.edges_of(n)[e], trie.edges_of(m)[f]]
        0 <= n < trie.nodes@.len() && 0 <= e < trie.nodes@[n].edge_len && 0 <= m
            < trie.nodes@.len() && 0 <= f < trie.nodes@[m].edge_len && trie.edges_of(n)[e].child
            == trie.edges_of(m)[f].child implies n == m && e == f by {
        let a = paths[n].push(trie.edges_of(n)[e].byte);
        let b = paths[m].push(trie.edges_of(m)[f].byte);
        assert(a == b);
        assert(a.drop_last() =~= paths[n]);
        assert(b.drop_last() =~= paths[m]);
        assert(a.last() == b.last());
        assert(n == m);
        let edges = trie.edges_of(n);
        assert(rising(edges));
        if e < f {
            assert(edges[e].byte < edges[f].byte);
        } else if f < e {
            assert(edges[f].byte < edges[e].byte);
        }
    }
}

/// The table of sorted tokens is that of the tokens.
proof fn lemma_table(
    sorted: Seq<TokenEntry>,
    entries: Seq<TokenEntry>,
    reverse: Seq<Option<Arc<[u8]>>>,
)
    requires
        forall|bytes: Seq<u8>, id: u32| #[trigger]
            vocabulary::names(sorted, bytes, id) <==> vocabulary::names(entries, bytes, id),
        reverses(reverse, sorted, sorted.len() as int),
    ensures
        forall|id: u32, bytes: Seq<u8>| #[trigger]
            vocabulary::names(entries, bytes, id) ==> id < reverse.len() && reverse[id as int] is Some
                && reverse[id as int]->0@ == bytes,
        forall|id: u32|
            id < reverse.len() && (#[trigger] reverse[id as int]) is Some ==> vocabulary::names(
                entries,
                reverse[id as int]->0@,
                id,
            ),
{
    assert forall|id: u32, bytes: Seq<u8>| #[trigger]
        vocabulary::names(entries, bytes, id) implies id < reverse.len() && reverse[id as int] is Some
        && reverse[id as int]->0@ == bytes by {
        assert(vocabulary::names(sorted, bytes, id));
        let i = choose|i: int|
            0 <= i < sorted.len() && (#[trigger] sorted[i]).bytes@ == bytes && sorted[i].id == id;
        assert(sorted[i].id < reverse.len());
    }
}

/// Labels for sorted tokens are labels for the tokens.
proof fn lemma_labels(
    trie: &TokenTrie,
    paths: Seq<Seq<u8>>,
    sorted: Seq<TokenEntry>,
    entries: Seq<TokenEntry>,
)
    requires
        trie.labels(paths, sorted),
        forall|bytes: Seq<u8>, id: u32| #[trigger]
            vocabulary::names(sorted, bytes, id) <==> vocabulary::names(entries, bytes, id),
    ensures
        trie.labels(paths, entries),
{
    assert forall|i: int| 0 <= i < entries.len() implies trie.has_label(
        paths,
        (#[trigger] entries[i]).bytes@,
        entries[i].id,
    ) by {
        assert(vocabulary::names(entries, entries[i].bytes@, entries[i].id));
        assert(vocabulary::names(sorted, entries[i].bytes@, entries[i].id));
        let j = choose|j: int|
            0 <= j < sorted.len() && (#[trigger] sorted[j]).bytes@ == entries[i].bytes@
                && sorted[j].id == entries[i].id;
        assert(trie.has_label(paths, sorted[j].bytes@, sorted[j].id));
    }
}

/// What is measured of sorted tokens is measured of the tokens.
proof fn lemma_same(sorted: Seq<TokenEntry>, entries: Seq<TokenEntry>)
    requires
        forall|bytes: Seq<u8>, id: u32| #[trigger]
            vocabulary::names(sorted, bytes, id) <==> vocabulary::names(entries, bytes, id),
    ensures
        spellings(sorted) == spellings(entries),
        prefixes(sorted) == prefixes(entries),
        forall|eos: u32, id: u32| #[trigger]
            largest(sorted, eos, id) <==> largest(entries, eos, id),
{
    lemma_same_part(sorted, entries);
    lemma_same_part(entries, sorted);
    assert(spellings(sorted) =~= spellings(entries));
    assert(prefixes(sorted) =~= prefixes(entries));
}

/// What is measured of tokens is measured of those with the same names.
proof fn lemma_same_part(left: Seq<TokenEntry>, right: Seq<TokenEntry>)
    requires
        forall|bytes: Seq<u8>, id: u32| #[trigger]
            vocabulary::names(left, bytes, id) <==> vocabulary::names(right, bytes, id),
    ensures
        spellings(left).subset_of(spellings(right)),
        prefixes(left).subset_of(prefixes(right)),
        forall|eos: u32, id: u32| #[trigger]
            largest(left, eos, id) ==> largest(right, eos, id),
{
    assert forall|i: int| 0 <= i < left.len() implies vocabulary::names(
        right,
        (#[trigger] left[i]).bytes@,
        left[i].id,
    ) by {
        assert(vocabulary::names(left, left[i].bytes@, left[i].id));
    }
    assert forall|i: int| 0 <= i < right.len() implies vocabulary::names(
        left,
        (#[trigger] right[i]).bytes@,
        right[i].id,
    ) by {
        assert(vocabulary::names(right, right[i].bytes@, right[i].id));
    }
    lemma_spellings(left);
    lemma_spellings(right);
    assert forall|bytes: Seq<u8>| spellings(left).contains(bytes) implies spellings(
        right,
    ).contains(bytes) by {
        let i = choose|i: int| 0 <= i < left.len() && (#[trigger] left[i]).bytes@ == bytes;
        assert(vocabulary::names(right, left[i].bytes@, left[i].id));
    }
    assert forall|p: Seq<u8>| prefixes(left).contains(p) implies prefixes(right).contains(p) by {
        if p.len() > 0 {
            let i = choose|i: int|
                0 <= i < left.len() && p.is_prefix_of((#[trigger] left[i]).bytes@);
            assert(vocabulary::names(right, left[i].bytes@, left[i].id));
            let j = choose|j: int|
                0 <= j < right.len() && (#[trigger] right[j]).bytes@ == left[i].bytes@
                    && right[j].id == left[i].id;
            assert(p.is_prefix_of(right[j].bytes@));
        }
    }
    assert forall|eos: u32, id: u32| #[trigger] largest(left, eos, id) implies largest(
        right,
        eos,
        id,
    ) by {
        assert forall|j: int| 0 <= j < right.len() implies (#[trigger] right[j]).id <= id by {
            assert(vocabulary::names(left, right[j].bytes@, right[j].id));
        }
        if id != eos {
            let i = choose|i: int| 0 <= i < left.len() && (#[trigger] left[i]).id == id;
            assert(vocabulary::names(right, left[i].bytes@, left[i].id));
        }
    }
}

/// Sorted tokens keep within the limits as the tokens do.
proof fn lemma_within(
    sorted: Seq<TokenEntry>,
    entries: Seq<TokenEntry>,
    eos: u32,
    limits: CompileLimits,
)
    requires
        sorted.len() == entries.len(),
        forall|bytes: Seq<u8>, id: u32| #[trigger]
            vocabulary::names(sorted, bytes, id) <==> vocabulary::names(entries, bytes, id),
        within(sorted, eos, limits),
    ensures
        within(entries, eos, limits),
{
    lemma_same(sorted, entries);
    assert forall|id: u32| #[trigger] largest(entries, eos, id) implies id + 1
        <= limits.max_vocabulary_slots by {
        assert(largest(sorted, eos, id));
    }
    assert forall|i: int| 0 <= i < entries.len() implies (#[trigger] entries[i]).bytes@.len()
        <= limits.max_token_bytes by {
        assert(vocabulary::names(entries, entries[i].bytes@, entries[i].id));
        assert(vocabulary::names(sorted, entries[i].bytes@, entries[i].id));
        let j = choose|j: int|
            0 <= j < sorted.len() && (#[trigger] sorted[j]).bytes@ == entries[i].bytes@
                && sorted[j].id == entries[i].id;
        assert(sorted[j].bytes@.len() <= limits.max_token_bytes);
    }
}

/// What refuses sorted tokens refuses the tokens.
proof fn lemma_refused(
    sorted: Seq<TokenEntry>,
    entries: Seq<TokenEntry>,
    eos: u32,
    limits: CompileLimits,
    error: Error,
)
    requires
        sorted.len() == entries.len(),
        forall|bytes: Seq<u8>, id: u32| #[trigger]
            vocabulary::names(sorted, bytes, id) <==> vocabulary::names(entries, bytes, id),
        refused(sorted, eos, limits, error),
    ensures
        refused(entries, eos, limits, error),
{
    lemma_same(sorted, entries);
    if let Error::Compile(CompileError::ResourceLimitExceeded { stage, observed, limit }) = error {
        if exists|i: int| 0 <= i < sorted.len() && (#[trigger] sorted[i]).bytes@.len() == observed {
            let i = choose|i: int|
                0 <= i < sorted.len() && (#[trigger] sorted[i]).bytes@.len() == observed;
            assert(vocabulary::names(sorted, sorted[i].bytes@, sorted[i].id));
            assert(vocabulary::names(entries, sorted[i].bytes@, sorted[i].id));
        }
    }
    if error is EmptyTokenDisallowed {
        let i = choose|i: int| 0 <= i < sorted.len() && (#[trigger] sorted[i]).bytes@.len() == 0;
        assert(vocabulary::names(sorted, sorted[i].bytes@, sorted[i].id));
        assert(vocabulary::names(entries, sorted[i].bytes@, sorted[i].id));
    }
    if let Error::AmbiguousTokenId { token_id } = error {
        let (i, j) = choose|i: int, j: int|
            0 <= i < sorted.len() && 0 <= j < sorted.len() && (#[trigger] sorted[i]).id == token_id
                && (#[trigger] sorted[j]).id == token_id && sorted[i].bytes@ != sorted[j].bytes@;
        assert(vocabulary::names(sorted, sorted[i].bytes@, token_id));
        assert(vocabulary::names(sorted, sorted[j].bytes@, token_id));
        assert(vocabulary::names(entries, sorted[i].bytes@, token_id));
        assert(vocabulary::names(entries, sorted[j].bytes@, token_id));
        let a = choose|a: int|
            0 <= a < entries.len() && (#[trigger] entries[a]).bytes@ == sorted[i].bytes@
                && entries[a].id == token_id;
        let b = choose|b: int|
            0 <= b < entries.len() && (#[trigger] entries[b]).bytes@ == sorted[j].bytes@
                && entries[b].id == token_id;
        assert(entries[a].bytes@ != entries[b].bytes@);
    }
}

/// Builds the trie and the table of sorted tokens.
fn build_trie(sorted: &Vec<TokenEntry>, size: usize, limits: &CompileLimits) -> (result: Result<
    (TokenTrie, Vec<Option<Arc<[u8]>>>),
    Error,
>)
    requires
        in_order(sorted@),
        forall|i: int| 0 <= i < sorted@.len() ==> (#[trigger] sorted@[i]).id < size,
    ensures
        result matches Ok(built) ==> {
            &&& built.0.wf()
            &&& built.0.branches()
            &&& built.0.arranged(sorted@)
            &&& built.1@.len() == size
            &&& reverses(built.1@, sorted@, sorted@.len() as int)
            &&& prefixes(sorted@).len() == 1 || prefixes(sorted@).len() <= limits.max_trie_nodes
            &&& prefixes(sorted@).len() <= limits.max_trie_edges + 1
        },
        result matches Err(error) ==> forall|eos: u32| #[trigger]
            refused(sorted@, eos, *limits, error),
{
    let (nodes, reverse) = match grow(sorted, size, limits) {
        Ok(built) => built,
        Err(error) => {
            return Err(error);
        },
    };
    let ghost paths = choose|paths: Seq<Seq<u8>>| #[trigger]
        grows(nodes@, paths) && holds_first(nodes@, paths, sorted@, sorted@.len() as int) && covers(
            paths,
            sorted@,
            sorted@.len() as int,
            Seq::empty(),
        );
    proof {
        lemma_all_covered(paths, sorted@);
    }
    match count_edges(&nodes) {
        Some(edges) => {
            match enforce(edges, limits.max_trie_edges) {
                Ok(()) => {},
                Err(error) => {
                    return Err(error);
                },
            }
        },
        None => {
            return Err(projection_limit(usize::MAX, limits.max_trie_edges));
        },
    }
    let trie = match lay_out(&nodes, limits, Ghost(sorted@)) {
        Ok(trie) => trie,
        Err(error) => {
            return Err(error);
        },
    };
    proof {
        lemma_laid_out(&trie, nodes@, paths, sorted@, reverse@);
        assert(trie.spells(paths) && trie.labels(paths, sorted@));
        assert forall|n: int| 0 <= n < trie.nodes@.len() implies rising(
            #[trigger] trie.edges_of(n),
        ) by {
            assert(trie.edges_of(n) == nodes@[n].children@);
        }
        lemma_branches(&trie, paths);
    }
    Ok((trie, reverse))
}

/// A trie of sorted tokens is one of the tokens.
proof fn lemma_arranged(trie: &TokenTrie, sorted: Seq<TokenEntry>, entries: Seq<TokenEntry>)
    requires
        trie.arranged(sorted),
        forall|bytes: Seq<u8>, id: u32| #[trigger]
            vocabulary::names(sorted, bytes, id) <==> vocabulary::names(entries, bytes, id),
    ensures
        trie.arranged(entries),
        exists|paths: Seq<Seq<u8>>| #[trigger] trie.spells(paths) && trie.labels(paths, entries),
{
    let paths = choose|paths: Seq<Seq<u8>>| #[trigger]
        trie.spells(paths) && trie.labels(paths, sorted) && climbing(paths) && forall|
            prefix: Seq<u8>,
        | #[trigger] paths.contains(prefix) <==> prefixes(sorted).contains(prefix);
    lemma_same(sorted, entries);
    lemma_labels(trie, paths, sorted, entries);
    assert(trie.spells(paths) && trie.labels(paths, entries));
}

/// A vocabulary of sorted tokens, with the bounds that were measured.
fn build_sorted(sorted: &Vec<TokenEntry>, eos: u32, limits: &CompileLimits) -> (result: Result<
    DerivedVocabulary,
    Error,
>)
    requires
        in_order(sorted@),
    ensures
        result matches Ok(derived) ==> {
            &&& derived.trie.wf()
            &&& derived.trie.branches()
            &&& derived.trie.arranged(sorted@)
            &&& derived.reverse@.len() == derived.vocab_size
            &&& reverses(derived.reverse@, sorted@, sorted@.len() as int)
            &&& derived.eos_token_id == eos < derived.vocab_size <= u32::MAX + 1
            &&& derived.mask_words == (derived.vocab_size + 31) / 32
            &&& derived.total_token_bytes == total_length(spellings(sorted@))
            &&& largest(sorted@, eos, (derived.vocab_size - 1) as u32)
            &&& within(sorted@, eos, *limits)
            &&& forall|i: int| 0 <= i < sorted@.len() ==> (#[trigger] sorted@[i]).bytes@.len() > 0
        },
        result matches Err(error) ==> refused(sorted@, eos, *limits, error),
{
    match enforce(distinct(sorted), limits.max_trie_nodes) {
        Ok(()) => {},
        Err(error) => {
            return Err(error);
        },
    }
    let found = match measure(sorted, eos, limits) {
        Ok(found) => found,
        Err(error) => {
            return Err(error);
        },
    };
    let vocab_size: usize = match (found.max_id as usize).checked_add(1) {
        Some(size) => size,
        None => {
            return Err(projection_limit(usize::MAX, limits.max_vocabulary_slots));
        },
    };
    match enforce(vocab_size, limits.max_vocabulary_slots) {
        Ok(()) => {},
        Err(error) => {
            return Err(error);
        },
    }
    let mask_words: usize = match vocab_size.checked_add(31) {
        Some(rounded) => rounded / 32,
        None => {
            return Err(projection_limit(usize::MAX, limits.max_vocabulary_slots));
        },
    };
    let (trie, reverse) = match build_trie(sorted, vocab_size, limits) {
        Ok(built) => built,
        Err(error) => {
            return Err(error);
        },
    };
    proof {
        lemma_spellings(sorted@);
        if sorted@.len() > 0 {
            assert(spellings(sorted@).contains(sorted@[0].bytes@));
        }
    }
    Ok(
        DerivedVocabulary {
            trie: Arc::new(trie),
            reverse,
            eos_token_id: eos,
            vocab_size,
            mask_words,
            total_token_bytes: found.total_bytes,
        },
    )
}

impl DerivedVocabulary {
    /// Builds the trie and the table of a vocabulary. Tokens without bytes, and identifiers of two
    /// byte strings, are refused.
    pub fn build(vocabulary: &Vocabulary, limits: &CompileLimits) -> (result: Result<Self, Error>)
        ensures
            result matches Ok(derived) ==> derived.derives(vocabulary.entries@)
                && derived.eos_token_id == vocabulary.eos,
            result matches Ok(derived) ==> {
                &&& within(vocabulary.entries@, vocabulary.eos, *limits)
                &&& derived.trie.arranged(vocabulary.entries@)
                &&& largest(
                    vocabulary.entries@,
                    vocabulary.eos,
                    (derived.vocab_size - 1) as u32,
                )
                &&& derived.total_token_bytes == total_length(spellings(vocabulary.entries@))
            },
            result matches Err(error) ==> refused(
                vocabulary.entries@,
                vocabulary.eos,
                *limits,
                error,
            ),
    {
        let sorted = vocabulary::sorted_entries(&vocabulary.entries);
        let ghost entries = vocabulary.entries@;
        assert(in_order(sorted@));
        let derived = match build_sorted(&sorted, vocabulary.eos, limits) {
            Ok(derived) => derived,
            Err(error) => {
                proof {
                    lemma_refused(sorted@, entries, vocabulary.eos, *limits, error);
                }
                return Err(error);
            },
        };
        proof {
            lemma_same(sorted@, entries);
            lemma_arranged(&*derived.trie, sorted@, entries);
            lemma_table(sorted@, entries, derived.reverse@);
            lemma_within(sorted@, entries, vocabulary.eos, *limits);
            assert forall|i: int| 0 <= i < entries.len() implies (
            #[trigger] entries[i]).bytes@.len() > 0 by {
                let entry = entries[i];
                assert(vocabulary::names(entries, entry.bytes@, entry.id));
                assert(vocabulary::names(sorted@, entry.bytes@, entry.id));
                let j = choose|j: int|
                    0 <= j < sorted@.len() && (#[trigger] sorted@[j]).bytes@ == entry.bytes@
                        && sorted@[j].id == entry.id;
                assert(sorted@[j].bytes@.len() > 0);
            }
        }
        Ok(derived)
    }

    /// The bytes of an identifier.
    pub fn shared_bytes(&self, id: u32) -> (bytes: Option<Arc<[u8]>>)
        ensures
            bytes == (if id < self.reverse@.len() {
                self.reverse@[id as int]
            } else {
                None
            }),
    {
        if (id as usize) < self.reverse.len() {
            match &self.reverse[id as usize] {
                Some(bytes) => Some(Arc::clone(bytes)),
                None => None,
            }
        } else {
            None
        }
    }
}

} // verus!
