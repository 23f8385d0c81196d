//! A vocabulary has one trie and one table, whatever the order in which its tokens came.

use vstd::prelude::*;

use crate::error::{CompileError, Error};
use crate::schema::CompileLimits;
use crate::sorting;
use crate::text;
use crate::trie;
use crate::trie::DerivedVocabulary;
use crate::trie::TokenTrie;
use crate::trie::TrieEdge;
use crate::vocabulary;
use crate::vocabulary::TokenEntry;

verus! {

/// Whether two lists of tokens give the same identifiers to the same byte strings.
pub open spec fn same_tokens(one: Seq<TokenEntry>, other: Seq<TokenEntry>) -> bool {
    forall|bytes: Seq<u8>, id: u32| #[trigger]
        vocabulary::names(one, bytes, id) <==> vocabulary::names(other, bytes, id)
}

/// The same tokens have the same beginnings.
proof fn lemma_prefixes(one: Seq<TokenEntry>, other: Seq<TokenEntry>)
    requires
        same_tokens(one, other),
    ensures
        trie::prefixes(one) =~= trie::prefixes(other),
{
    assert forall|prefix: Seq<u8>| trie::prefixes(one).contains(prefix) implies trie::prefixes(
        other,
    ).contains(prefix) by {
        lemma_begins(one, other, prefix);
    }
    assert forall|prefix: Seq<u8>| trie::prefixes(other).contains(prefix) implies trie::prefixes(
        one,
    ).contains(prefix) by {
        lemma_begins(other, one, prefix);
    }
}

proof fn lemma_begins(one: Seq<TokenEntry>, other: Seq<TokenEntry>, prefix: Seq<u8>)
    requires
        same_tokens(one, other),
    ensures
        trie::begins(one, one.len() as int, prefix) ==> trie::begins(
            other,
            other.len() as int,
            prefix,
        ),
{
    if trie::begins(one, one.len() as int, prefix) {
        let i = choose|i: int|
            0 <= i < one.len() && prefix.is_prefix_of((#[trigger] one[i]).bytes@);
        assert(vocabulary::names(one, one[i].bytes@, one[i].id));
        assert(vocabulary::names(other, one[i].bytes@, one[i].id));
        let j = choose|j: int|
            0 <= j < other.len() && (#[trigger] other[j]).bytes@ == one[i].bytes@ && other[j].id
                == one[i].id;
        assert(prefix.is_prefix_of(other[j].bytes@));
    }
}

/// The same tokens have the same byte strings.
proof fn lemma_spellings(one: Seq<TokenEntry>, other: Seq<TokenEntry>)
    requires
        same_tokens(one, other),
    ensures
        trie::spellings(one) =~= trie::spellings(other),
{
    assert forall|bytes: Seq<u8>| trie::spellings(one).contains(bytes) implies trie::spellings(
        other,
    ).contains(bytes) by {
        lemma_spelled(one, other, bytes);
    }
    assert forall|bytes: Seq<u8>| trie::spellings(other).contains(bytes) implies trie::spellings(
        one,
    ).contains(bytes) by {
        lemma_spelled(other, one, bytes);
    }
}

proof fn lemma_spelled(one: Seq<TokenEntry>, other: Seq<TokenEntry>, bytes: Seq<u8>)
    requires
        same_tokens(one, other),
        trie::spellings(one).contains(bytes),
    ensures
        trie::spellings(other).contains(bytes),
{
    let mapped = one.map_values(|entry: TokenEntry| entry.bytes@);
    let others = other.map_values(|entry: TokenEntry| entry.bytes@);
    assert(mapped.contains(bytes));
    let i = choose|i: int| 0 <= i < mapped.len() && mapped[i] == bytes;
    assert(one[i].bytes@ == bytes);
    assert(vocabulary::names(one, bytes, one[i].id));
    assert(vocabulary::names(other, bytes, one[i].id));
    let j = choose|j: int|
        0 <= j < other.len() && (#[trigger] other[j]).bytes@ == bytes && other[j].id == one[i].id;
    assert(others[j] == bytes);
    assert(others.contains(bytes));
}

/// Ascending lists of the same byte strings agree as far as the shorter reaches.
proof fn lemma_climbing(a: Seq<Seq<u8>>, b: Seq<Seq<u8>>, n: int)
    requires
        trie::climbing(a),
        trie::climbing(b),
        forall|path: Seq<u8>| #[trigger] a.contains(path) <==> b.contains(path),
        0 <= n <= a.len(),
        n <= b.len(),
    ensures
        a.take(n) =~= b.take(n),
    decreases n,
{
    if n > 0 {
        lemma_climbing(a, b, n - 1);
        assert forall|i: int| 0 <= i < n - 1 implies #[trigger] a[i] == b[i] by {
            assert(a.take(n - 1)[i] == b.take(n - 1)[i]);
        }
        lemma_not_behind(a, b, n - 1);
        lemma_not_behind(b, a, n - 1);
        text::lemma_before_total(a[n - 1], b[n - 1]);
    }
}

/// Where two ascending lists of the same strings agree before a place, the string of the one there
/// does not come before that of the other.
proof fn lemma_not_behind(a: Seq<Seq<u8>>, b: Seq<Seq<u8>>, k: int)
    requires
        trie::climbing(a),
        trie::climbing(b),
        forall|path: Seq<u8>| #[trigger] a.contains(path) <==> b.contains(path),
        0 <= k < a.len(),
        k < b.len(),
        forall|i: int| 0 <= i < k ==> #[trigger] a[i] == b[i],
    ensures
        !text::bytes_before(a[k], b[k]),
{
    if text::bytes_before(a[k], b[k]) {
        assert(a.contains(a[k]));
        let j = choose|j: int| 0 <= j < b.len() && b[j] == a[k];
        if j < k {
            assert(a[j] == b[j]);
            assert(text::bytes_before(a[j], a[k]));
            text::lemma_before_total(a[j], a[k]);
        } else if j > k {
            assert(text::bytes_before(b[k], b[j]));
            text::lemma_before_total(b[k], b[j]);
        } else {
            text::lemma_before_total(a[k], b[k]);
        }
    }
}

/// Ascending lists of the same byte strings are equal.
proof fn lemma_paths(a: Seq<Seq<u8>>, b: Seq<Seq<u8>>)
    requires
        trie::climbing(a),
        trie::climbing(b),
        forall|path: Seq<u8>| #[trigger] a.contains(path) <==> b.contains(path),
    ensures
        a == b,
{
    let n = if a.len() < b.len() {
        a.len() as int
    } else {
        b.len() as int
    };
    lemma_climbing(a, b, n);
    assert forall|i: int| 0 <= i < n implies #[trigger] a[i] == b[i] by {
        assert(a.take(n)[i] == b.take(n)[i]);
    }
    lemma_no_more(a, b);
    lemma_no_more(b, a);
    assert(a =~= b);
}

/// An ascending list that begins with all the strings it has is no longer than these.
proof fn lemma_no_more(a: Seq<Seq<u8>>, b: Seq<Seq<u8>>)
    requires
        trie::climbing(a),
        forall|path: Seq<u8>| #[trigger] a.contains(path) <==> b.contains(path),
        forall|i: int| 0 <= i < a.len() && i < b.len() ==> #[trigger] a[i] == b[i],
    ensures
        a.len() <= b.len(),
{
    if b.len() < a.len() {
        let n = b.len() as int;
        assert(a.contains(a[n]));
        let j = choose|j: int| 0 <= j < b.len() && b[j] == a[n];
        assert(a[j] == b[j]);
        assert(text::bytes_before(a[j], a[n]));
        text::lemma_before_total(a[j], a[n]);
    }
}

/// Ascending lists of the same numbers are equal.
proof fn lemma_numbers(a: Seq<u32>, b: Seq<u32>)
    requires
        sorting::ascending(a),
        sorting::ascending(b),
        forall|x: u32| #[trigger] a.contains(x) <==> b.contains(x),
    ensures
        a == b,
    decreases a.len(),
{
    if a.len() == 0 {
        if b.len() > 0 {
            assert(b.contains(b[0]));
            assert(a.contains(b[0]));
        }
        assert(a =~= b);
    } else {
        assert(a.contains(a.last()));
        assert(b.contains(a.last()));
        assert(b.len() > 0);
        assert(b.contains(b.last()));
        assert(a.contains(b.last()));
        let i = choose|i: int| 0 <= i < a.len() && a[i] == b.last();
        let j = choose|j: int| 0 <= j < b.len() && b[j] == a.last();
        assert(a.last() == b.last());
        let front = a.drop_last();
        let rest = b.drop_last();
        assert forall|x: u32| #[trigger] front.contains(x) <==> rest.contains(x) by {
            lemma_dropped(a, x);
            lemma_dropped(b, x);
        }
        lemma_numbers(front, rest);
        assert(a =~= front.push(a.last()));
        assert(b =~= rest.push(b.last()));
    }
}

proof fn lemma_dropped(list: Seq<u32>, x: u32)
    requires
        sorting::ascending(list),
        list.len() > 0,
    ensures
        list.drop_last().contains(x) <==> list.contains(x) && x != list.last(),
{
    if list.drop_last().contains(x) {
        let i = choose|i: int| 0 <= i < list.drop_last().len() && list.drop_last()[i] == x;
        assert(list[i] == x);
        assert(list[i] < list[list.len() - 1]);
    }
    if list.contains(x) && x != list.last() {
        let i = choose|i: int| 0 <= i < list.len() && list[i] == x;
        assert(list.drop_last()[i] == x);
    }
}

/// Whether an edge is among edges.
spec fn leads(edges: Seq<TrieEdge>, edge: TrieEdge) -> bool {
    edges.contains(edge)
}

/// Edges with ascending bytes that are the same are equal.
proof fn lemma_edges(a: Seq<TrieEdge>, b: Seq<TrieEdge>)
    requires
        trie::rising(a),
        trie::rising(b),
        forall|edge: TrieEdge| #[trigger] leads(a, edge) <==> leads(b, edge),
    ensures
        a == b,
    decreases a.len(),
{
    if a.len() == 0 {
        if b.len() > 0 {
            assert(leads(b, b[0]));
            assert(leads(a, b[0]));
        }
        assert(a =~= b);
    } else {
        assert(leads(a, a.last()));
        assert(leads(b, a.last()));
        assert(b.len() > 0);
        assert(leads(b, b.last()));
        assert(leads(a, b.last()));
        let i = choose|i: int| 0 <= i < a.len() && a[i] == b.last();
        let j = choose|j: int| 0 <= j < b.len() && b[j] == a.last();
        assert(a.last() == b.last());
        let front = a.drop_last();
        let rest = b.drop_last();
        assert forall|edge: TrieEdge| #[trigger] leads(front, edge) <==> leads(rest, edge) by {
            lemma_edge_dropped(a, edge);
            lemma_edge_dropped(b, edge);
            assert(leads(a, edge) <==> leads(b, edge));
        }
        lemma_edges(front, rest);
        assert(a =~= front.push(a.last()));
        assert(b =~= rest.push(b.last()));
    }
}

proof fn lemma_edge_dropped(list: Seq<TrieEdge>, edge: TrieEdge)
    requires
        trie::rising(list),
        list.len() > 0,
    ensures
        leads(list.drop_last(), edge) <==> leads(list, edge) && edge != list.last(),
{
    if leads(list.drop_last(), edge) {
        let i = choose|i: int| 0 <= i < list.drop_last().len() && list.drop_last()[i] == edge;
        assert(list[i] == edge);
        assert(list[i].byte < list[list.len() - 1].byte);
    }
    if leads(list, edge) && edge != list.last() {
        let i = choose|i: int| 0 <= i < list.len() && list[i] == edge;
        assert(list.drop_last()[i] == edge);
    }
}

/// What an edge of one trie is, is an edge of another with the same paths.
proof fn lemma_edge_shared(a: &TokenTrie, b: &TokenTrie, paths: Seq<Seq<u8>>, n: int, edge: TrieEdge)
    requires
        a.wf(),
        b.wf(),
        a.spells(paths),
        b.spells(paths),
        trie::climbing(paths),
        0 <= n < a.nodes@.len(),
        leads(a.edges_of(n), edge),
    ensures
        leads(b.edges_of(n), edge),
{
    let list = a.edges_of(n);
    let e = choose|e: int| 0 <= e < list.len() && list[e] == edge;
    assert(a.edges_of(n)[e].child == edge.child);
    let c = edge.child as int;
    assert(paths[c] == paths[n].push(edge.byte));
    assert(b.has_parent(c));
    let (m, f) = choose|m: int, f: int|
        #![trigger b.edges_of(m)[f]]
        0 <= m < b.nodes@.len() && 0 <= f < b.nodes@[m].edge_len && b.edges_of(m)[f].child == c;
    let found = b.edges_of(m)[f];
    assert(paths[c] == paths[m].push(found.byte));
    assert(paths[n] =~= paths[c].drop_last());
    assert(paths[m] =~= paths[c].drop_last());
    assert(paths[c].last() == edge.byte && paths[c].last() == found.byte);
    if m < n {
        text::lemma_before_total(paths[m], paths[n]);
    }
    if n < m {
        text::lemma_before_total(paths[n], paths[m]);
    }
    assert(found == edge);
    assert(b.edges_of(n).contains(edge));
}

/// What an identifier at a node of one trie is, is one of another of the same tokens.
proof fn lemma_id_shared(
    a: &TokenTrie,
    b: &TokenTrie,
    paths: Seq<Seq<u8>>,
    one: Seq<TokenEntry>,
    other: Seq<TokenEntry>,
    n: int,
    id: u32,
)
    requires
        same_tokens(one, other),
        a.labels(paths, one),
        b.labels(paths, other),
        trie::climbing(paths),
        paths.len() == a.nodes@.len(),
        paths.len() == b.nodes@.len(),
        0 <= n < a.nodes@.len(),
        a.ids_of(n).contains(id),
    ensures
        b.ids_of(n).contains(id),
{
    assert(vocabulary::names(one, paths[n], id));
    assert(vocabulary::names(other, paths[n], id));
    let i = choose|i: int|
        0 <= i < other.len() && (#[trigger] other[i]).bytes@ == paths[n] && other[i].id == id;
    assert(b.has_label(paths, other[i].bytes@, other[i].id));
    let m = choose|m: int|
        0 <= m < b.nodes@.len() && paths[m] == paths[n] && #[trigger] b.ids_of(m).contains(id);
    if m < n {
        text::lemma_before_total(paths[m], paths[n]);
    }
    if n < m {
        text::lemma_before_total(paths[n], paths[m]);
    }
}

/// Tries whose nodes have the same edges and identifiers, without gaps, have the same nodes.
proof fn lemma_nodes(a: &TokenTrie, b: &TokenTrie, n: int)
    requires
        a.wf(),
        b.wf(),
        a.packed(),
        b.packed(),
        a.nodes@.len() == b.nodes@.len(),
        0 <= n < a.nodes@.len(),
        forall|k: int|
            0 <= k < a.nodes@.len() ==> #[trigger] a.edges_of(k) == b.edges_of(k) && a.ids_of(k)
                == b.ids_of(k),
    ensures
        a.nodes@[n] == b.nodes@[n],
    decreases n,
{
    assert(a.edges_of(n) == b.edges_of(n));
    assert(a.edges_of(n).len() == a.nodes@[n].edge_len);
    assert(b.edges_of(n).len() == b.nodes@[n].edge_len);
    assert(a.ids_of(n).len() == a.nodes@[n].token_len);
    assert(b.ids_of(n).len() == b.nodes@[n].token_len);
    if n > 0 {
        lemma_nodes(a, b, n - 1);
        assert(a.nodes@[n].edge_start == a.nodes@[n - 1].edge_start + a.nodes@[n - 1].edge_len);
        assert(b.nodes@[n].edge_start == b.nodes@[n - 1].edge_start + b.nodes@[n - 1].edge_len);
    }
}

/// Every edge and every identifier belongs to a node.
proof fn lemma_owner(a: &TokenTrie, n: int, i: int) -> (owner: int)
    requires
        a.wf(),
        a.packed(),
        0 <= n < a.nodes@.len(),
        0 <= i < a.nodes@[n].edge_start + a.nodes@[n].edge_len,
    ensures
        0 <= owner <= n,
        a.nodes@[owner].edge_start <= i < a.nodes@[owner].edge_start + a.nodes@[owner].edge_len,
    decreases n,
{
    if i >= a.nodes@[n].edge_start {
        n
    } else {
        assert(n > 0);
        assert(a.nodes@[n].edge_start == a.nodes@[n - 1].edge_start + a.nodes@[n - 1].edge_len);
        lemma_owner(a, n - 1, i)
    }
}

proof fn lemma_keeper(a: &TokenTrie, n: int, i: int) -> (keeper: int)
    requires
        a.wf(),
        a.packed(),
        0 <= n < a.nodes@.len(),
        0 <= i < a.nodes@[n].token_start + a.nodes@[n].token_len,
    ensures
        0 <= keeper <= n,
        a.nodes@[keeper].token_start <= i < a.nodes@[keeper].token_start
            + a.nodes@[keeper].token_len,
    decreases n,
{
    if i >= a.nodes@[n].token_start {
        n
    } else {
        assert(n > 0);
        assert(a.nodes@[n].token_start == a.nodes@[n - 1].token_start + a.nodes@[n - 1].token_len);
        lemma_keeper(a, n - 1, i)
    }
}

/// Tries whose nodes have the same edges and identifiers, without gaps, are equal.
proof fn lemma_packed(a: &TokenTrie, b: &TokenTrie)
    requires
        a.wf(),
        b.wf(),
        a.packed(),
        b.packed(),
        a.nodes@.len() == b.nodes@.len(),
        forall|k: int|
            0 <= k < a.nodes@.len() ==> #[trigger] a.edges_of(k) == b.edges_of(k) && a.ids_of(k)
                == b.ids_of(k),
    ensures
        a.nodes@ == b.nodes@,
        a.edges@ == b.edges@,
        a.terminal_ids@ == b.terminal_ids@,
{
    assert forall|n: int| 0 <= n < a.nodes@.len() implies #[trigger] a.nodes@[n] == b.nodes@[n] by {
        lemma_nodes(a, b, n);
    }
    assert(a.nodes@ =~= b.nodes@);
    let last = a.nodes@.len() - 1;
    assert(a.nodes@.last() == a.nodes@[last]);
    assert forall|i: int| 0 <= i < a.edges@.len() implies #[trigger] a.edges@[i] == b.edges@[i] by {
        let n = lemma_owner(a, last, i);
        let at = i - a.nodes@[n].edge_start;
        assert(a.edges_of(n) == b.edges_of(n));
        assert(a.edges_of(n)[at] == a.edges@[i]);
        assert(b.edges_of(n)[at] == b.edges@[i]);
    }
    assert(a.edges@ =~= b.edges@);
    assert forall|i: int| 0 <= i < a.terminal_ids@.len() implies #[trigger] a.terminal_ids@[i]
        == b.terminal_ids@[i] by {
        let n = lemma_keeper(a, last, i);
        let at = i - a.nodes@[n].token_start;
        assert(a.edges_of(n) == b.edges_of(n));
        assert(a.ids_of(n)[at] == a.terminal_ids@[i]);
        assert(b.ids_of(n)[at] == b.terminal_ids@[i]);
    }
    assert(a.terminal_ids@ =~= b.terminal_ids@);
}

/// A node has the same edges and identifiers in tries of the same tokens.
proof fn lemma_node_shared(
    a: &TokenTrie,
    b: &TokenTrie,
    paths: Seq<Seq<u8>>,
    one: Seq<TokenEntry>,
    other: Seq<TokenEntry>,
    n: int,
)
    requires
        same_tokens(one, other),
        a.wf(),
        b.wf(),
        a.spells(paths),
        b.spells(paths),
        a.labels(paths, one),
        b.labels(paths, other),
        trie::climbing(paths),
        0 <= n < a.nodes@.len(),
        trie::rising(a.edges_of(n)),
        trie::rising(b.edges_of(n)),
        sorting::ascending(a.ids_of(n)),
        sorting::ascending(b.ids_of(n)),
    ensures
        a.edges_of(n) == b.edges_of(n),
        a.ids_of(n) == b.ids_of(n),
{
    assert forall|edge: TrieEdge| #[trigger] leads(a.edges_of(n), edge) <==> leads(
        b.edges_of(n),
        edge,
    ) by {
        if leads(a.edges_of(n), edge) {
            lemma_edge_shared(a, b, paths, n, edge);
        }
        if leads(b.edges_of(n), edge) {
            lemma_edge_shared(b, a, paths, n, edge);
        }
    }
    lemma_edges(a.edges_of(n), b.edges_of(n));
    assert forall|id: u32| #[trigger] a.ids_of(n).contains(id) <==> b.ids_of(n).contains(id) by {
        if a.ids_of(n).contains(id) {
            lemma_id_shared(a, b, paths, one, other, n, id);
        }
        if b.ids_of(n).contains(id) {
            lemma_id_shared(b, a, paths, other, one, n, id);
        }
    }
    lemma_numbers(a.ids_of(n), b.ids_of(n));
}

/// The byte strings that lead to the nodes of a trie of tokens.
proof fn lemma_some_paths(a: &TokenTrie, entries: Seq<TokenEntry>) -> (paths: Seq<Seq<u8>>)
    requires
        a.arranged(entries),
    ensures
        a.spells(paths),
        a.labels(paths, entries),
        trie::climbing(paths),
        forall|prefix: Seq<u8>| #[trigger]
            paths.contains(prefix) <==> trie::prefixes(entries).contains(prefix),
{
    choose|paths: Seq<Seq<u8>>| #[trigger]
        a.spells(paths) && a.labels(paths, entries) && trie::climbing(paths) && forall|
            prefix: Seq<u8>,
        | #[trigger] paths.contains(prefix) <==> trie::prefixes(entries).contains(prefix)
}

/// Tries of the same tokens have the same paths.
proof fn lemma_same_paths(
    a: &TokenTrie,
    b: &TokenTrie,
    one: Seq<TokenEntry>,
    other: Seq<TokenEntry>,
) -> (paths: Seq<Seq<u8>>)
    requires
        same_tokens(one, other),
        a.arranged(one),
        b.arranged(other),
    ensures
        a.spells(paths),
        b.spells(paths),
        a.labels(paths, one),
        b.labels(paths, other),
        trie::climbing(paths),
{
    let paths = lemma_some_paths(a, one);
    let ways = lemma_some_paths(b, other);
    lemma_prefixes(one, other);
    assert forall|path: Seq<u8>| #[trigger] paths.contains(path) <==> ways.contains(path) by {}
    lemma_paths(paths, ways);
    paths
}

/// The trie of tokens is the same in whatever order they came.
pub proof fn law_trie_is_unique(
    a: &TokenTrie,
    b: &TokenTrie,
    one: Seq<TokenEntry>,
    other: Seq<TokenEntry>,
)
    requires
        same_tokens(one, other),
        a.wf(),
        b.wf(),
        a.arranged(one),
        b.arranged(other),
    ensures
        a.nodes@ == b.nodes@,
        a.edges@ == b.edges@,
        a.terminal_ids@ == b.terminal_ids@,
{
    let paths = lemma_same_paths(a, b, one, other);
    assert(a.nodes@.len() == paths.len() && b.nodes@.len() == paths.len());
    assert forall|n: int| 0 <= n < a.nodes@.len() implies #[trigger] a.edges_of(n) == b.edges_of(n)
        && a.ids_of(n) == b.ids_of(n) by {
        assert(trie::rising(b.edges_of(n)));
        assert(sorting::ascending(a.ids_of(n)));
        assert(sorting::ascending(b.ids_of(n)));
        lemma_node_shared(a, b, paths, one, other, n);
    }
    assert(a.packed() && b.packed());
    lemma_packed(a, b);
}

/// The largest identifier of the same tokens is the same.
proof fn lemma_largest(
    one: Seq<TokenEntry>,
    other: Seq<TokenEntry>,
    eos: u32,
    x: u32,
    y: u32,
)
    requires
        same_tokens(one, other),
        trie::largest(one, eos, x),
        trie::largest(other, eos, y),
    ensures
        x <= y,
{
    if x != eos {
        let i = choose|i: int| 0 <= i < one.len() && (#[trigger] one[i]).id == x;
        let j = lemma_counterpart(one, other, i);
        assert(other[j].id <= y);
    }
}

/// What is built of a vocabulary does not depend on the order in which its tokens were inserted:
/// the tries are equal, and so are the tables of byte strings and the numbers beside them.
pub proof fn law_order_does_not_matter(
    a: &DerivedVocabulary,
    b: &DerivedVocabulary,
    one: Seq<TokenEntry>,
    other: Seq<TokenEntry>,
    eos: u32,
)
    requires
        same_tokens(one, other),
        a.derives(one),
        b.derives(other),
        a.trie.arranged(one),
        b.trie.arranged(other),
        a.eos_token_id == eos,
        b.eos_token_id == eos,
        trie::largest(one, eos, (a.vocab_size - 1) as u32),
        trie::largest(other, eos, (b.vocab_size - 1) as u32),
        a.total_token_bytes == trie::total_length(trie::spellings(one)),
        b.total_token_bytes == trie::total_length(trie::spellings(other)),
    ensures
        a.trie.nodes@ == b.trie.nodes@,
        a.trie.edges@ == b.trie.edges@,
        a.trie.terminal_ids@ == b.trie.terminal_ids@,
        a.vocab_size == b.vocab_size,
        a.mask_words == b.mask_words,
        a.total_token_bytes == b.total_token_bytes,
        a.reverse@.len() == b.reverse@.len(),
        forall|id: int|
            #![trigger a.reverse@[id]]
            0 <= id < a.reverse@.len() ==> match (a.reverse@[id], b.reverse@[id]) {
                (Some(x), Some(y)) => x@ == y@,
                (None, None) => true,
                _ => false,
            },
{
    law_trie_is_unique(&*a.trie, &*b.trie, one, other);
    lemma_largest(one, other, eos, (a.vocab_size - 1) as u32, (b.vocab_size - 1) as u32);
    lemma_largest(other, one, eos, (b.vocab_size - 1) as u32, (a.vocab_size - 1) as u32);
    lemma_spellings(one, other);
    assert forall|id: int|
        #![trigger a.reverse@[id]]
        0 <= id < a.reverse@.len() implies match (a.reverse@[id], b.reverse@[id]) {
        (Some(x), Some(y)) => x@ == y@,
        (None, None) => true,
        _ => false,
    } by {
        let number = id as u32;
        assert(number as int == id);
        if a.reverse@[number as int] is Some {
            assert(vocabulary::names(one, a.reverse@[id]->0@, number));
            assert(vocabulary::names(other, a.reverse@[id]->0@, number));
        }
        if b.reverse@[number as int] is Some {
            assert(vocabulary::names(other, b.reverse@[id]->0@, number));
            assert(vocabulary::names(one, b.reverse@[id]->0@, number));
        }
    }
}

/// Each token of a list is in another list of the same tokens.
proof fn lemma_counterpart(one: Seq<TokenEntry>, other: Seq<TokenEntry>, i: int) -> (j: int)
    requires
        same_tokens(one, other),
        0 <= i < one.len(),
    ensures
        0 <= j < other.len(),
        other[j].bytes@ == one[i].bytes@,
        other[j].id == one[i].id,
{
    assert(vocabulary::names(one, one[i].bytes@, one[i].id));
    assert(vocabulary::names(other, one[i].bytes@, one[i].id));
    choose|j: int|
        0 <= j < other.len() && (#[trigger] other[j]).bytes@ == one[i].bytes@ && other[j].id
            == one[i].id
}

proof fn lemma_largest_shared(one: Seq<TokenEntry>, other: Seq<TokenEntry>, eos: u32, id: u32)
    requires
        same_tokens(one, other),
        trie::largest(one, eos, id),
    ensures
        trie::largest(other, eos, id),
{
    assert forall|j: int| 0 <= j < other.len() implies (#[trigger] other[j]).id <= id by {
        let i = lemma_counterpart(other, one, j);
        assert(one[i].id <= id);
    }
    if id != eos {
        let i = choose|i: int| 0 <= i < one.len() && (#[trigger] one[i]).id == id;
        let j = lemma_counterpart(one, other, i);
        assert(other[j].id == id);
    }
}

proof fn lemma_over_shared(
    one: Seq<TokenEntry>,
    other: Seq<TokenEntry>,
    eos: u32,
    limits: CompileLimits,
    observed: usize,
    limit: usize,
)
    requires
        same_tokens(one, other),
        one.len() == other.len(),
        trie::over(one, eos, limits, observed, limit),
    ensures
        trie::over(other, eos, limits, observed, limit),
{
    lemma_prefixes(one, other);
    lemma_spellings(one, other);
    assert forall|i: int|
        0 <= i < one.len() && (#[trigger] one[i]).bytes@.len() == observed implies exists|j: int|
        0 <= j < other.len() && (#[trigger] other[j]).bytes@.len() == observed by {
        let j = lemma_counterpart(one, other, i);
        assert(other[j].bytes@.len() == observed);
    }
    assert forall|id: u32| #[trigger] trie::largest(one, eos, id) implies trie::largest(
        other,
        eos,
        id,
    ) by {
        lemma_largest_shared(one, other, eos, id);
    }
}

proof fn lemma_refused_shared(
    one: Seq<TokenEntry>,
    other: Seq<TokenEntry>,
    eos: u32,
    limits: CompileLimits,
    error: Error,
)
    requires
        same_tokens(one, other),
        one.len() == other.len(),
        trie::refused(one, eos, limits, error),
    ensures
        trie::refused(other, eos, limits, error),
{
    match error {
        Error::EmptyTokenDisallowed => {
            let i = choose|i: int| 0 <= i < one.len() && (#[trigger] one[i]).bytes@.len() == 0;
            let j = lemma_counterpart(one, other, i);
            assert(other[j].bytes@.len() == 0);
        },
        Error::AmbiguousTokenId { token_id } => {
            let (i, k) = choose|i: int, k: int|
                0 <= i < one.len() && 0 <= k < one.len() && (#[trigger] one[i]).id == token_id && (
                #[trigger] one[k]).id == token_id && one[i].bytes@ != one[k].bytes@;
            let j = lemma_counterpart(one, other, i);
            let l = lemma_counterpart(one, other, k);
            assert(other[j].id == token_id && other[l].id == token_id);
        },
        Error::Compile(CompileError::ResourceLimitExceeded { stage, observed, limit }) => {
            lemma_over_shared(one, other, eos, limits, observed, limit);
        },
        _ => {},
    }
}

/// Whether a vocabulary may be refused, and with what, does not depend on the order in which its
/// tokens were inserted.
pub proof fn law_refusal_is_independent_of_order(
    one: Seq<TokenEntry>,
    other: Seq<TokenEntry>,
    eos: u32,
    limits: CompileLimits,
    error: Error,
)
    requires
        same_tokens(one, other),
        one.len() == other.len(),
    ensures
        trie::refused(one, eos, limits, error) <==> trie::refused(other, eos, limits, error),
        trie::within(one, eos, limits) <==> trie::within(other, eos, limits),
{
    if trie::refused(one, eos, limits, error) {
        lemma_refused_shared(one, other, eos, limits, error);
    }
    if trie::refused(other, eos, limits, error) {
        lemma_refused_shared(other, one, eos, limits, error);
    }
    if trie::within(one, eos, limits) {
        lemma_within_shared(one, other, eos, limits);
    }
    if trie::within(other, eos, limits) {
        lemma_within_shared(other, one, eos, limits);
    }
}

proof fn lemma_within_shared(
    one: Seq<TokenEntry>,
    other: Seq<TokenEntry>,
    eos: u32,
    limits: CompileLimits,
)
    requires
        same_tokens(one, other),
        one.len() == other.len(),
        trie::within(one, eos, limits),
    ensures
        trie::within(other, eos, limits),
{
    lemma_prefixes(one, other);
    lemma_spellings(one, other);
    assert forall|j: int| 0 <= j < other.len() implies (#[trigger] other[j]).bytes@.len()
        <= limits.max_token_bytes by {
        let i = lemma_counterpart(other, one, j);
        assert(one[i].bytes@.len() <= limits.max_token_bytes);
    }
    assert forall|id: u32| #[trigger] trie::largest(other, eos, id) implies id + 1
        <= limits.max_vocabulary_slots by {
        lemma_largest_shared(other, one, eos, id);
    }
}

} // verus!
