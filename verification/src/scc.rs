//! Strongly connected components of a grammar's dependency graph.

use vstd::prelude::*;

use crate::count;
use crate::error::CompileError;
use crate::grammar::Grammar;
use crate::reduction;
use crate::residual;
use crate::sorting;
use crate::symbol::{NonterminalId, SccId, Symbol};

verus! {

/// A strongly connected component.
#[derive(Debug, PartialEq, Eq)]
pub struct Scc {
    pub id: SccId,
    pub members: Vec<NonterminalId>,
    pub recursive: bool,
}

/// The components of a graph, and the component of each node.
#[derive(Debug, PartialEq, Eq)]
pub struct SccAnalysis {
    pub components: Vec<Scc>,
    pub component_of: Vec<SccId>,
}

/// Whether the graph has an edge from `a` to `b`.
pub open spec fn edge(graph: Seq<Vec<u32>>, a: int, b: int) -> bool {
    0 <= a < graph.len() && exists|e: int|
        0 <= e < graph[a]@.len() && #[trigger] graph[a]@[e] == b
}

/// Whether there is a path of at most `n` edges from `a` to `b`.
pub open spec fn path(graph: Seq<Vec<u32>>, n: nat, a: int, b: int) -> bool
    decreases n,
{
    a == b || (n > 0 && exists|c: int| #[trigger]
        edge(graph, a, c) && path(graph, (n - 1) as nat, c, b))
}

/// Whether there is a path from `a` to `b`.
pub open spec fn reaches(graph: Seq<Vec<u32>>, a: int, b: int) -> bool {
    exists|n: nat| path(graph, n, a, b)
}

/// Whether there are paths both ways.
pub open spec fn mutual(graph: Seq<Vec<u32>>, a: int, b: int) -> bool {
    reaches(graph, a, b) && reaches(graph, b, a)
}

/// Whether every edge leads to a node.
pub open spec fn graph_ok(graph: Seq<Vec<u32>>) -> bool {
    &&& graph.len() <= u32::MAX + 1
    &&& forall|a: int, e: int|
        0 <= a < graph.len() && 0 <= e < graph[a]@.len() ==> #[trigger] graph[a]@[e] < graph.len()
}

proof fn lemma_path_join(graph: Seq<Vec<u32>>, n: nat, m: nat, a: int, b: int, c: int)
    requires
        path(graph, n, a, b),
        path(graph, m, b, c),
    ensures
        path(graph, n + m, a, c),
    decreases n,
{
    if a == b {
        lemma_path_longer(graph, m, n + m, b, c);
    } else {
        let d = choose|d: int| #[trigger] edge(graph, a, d) && path(graph, (n - 1) as nat, d, b);
        lemma_path_join(graph, (n - 1) as nat, m, d, b, c);
        assert(edge(graph, a, d));
        assert((n + m - 1) as nat == (n - 1) as nat + m);
    }
}

proof fn lemma_path_longer(graph: Seq<Vec<u32>>, n: nat, m: nat, a: int, b: int)
    requires
        path(graph, n, a, b),
        n <= m,
    ensures
        path(graph, m, a, b),
    decreases n,
{
    if a != b {
        let c = choose|c: int| #[trigger] edge(graph, a, c) && path(graph, (n - 1) as nat, c, b);
        lemma_path_longer(graph, (n - 1) as nat, (m - 1) as nat, c, b);
        assert(edge(graph, a, c));
    }
}

/// Paths join.
pub proof fn lemma_reaches_join(graph: Seq<Vec<u32>>, a: int, b: int, c: int)
    requires
        reaches(graph, a, b),
        reaches(graph, b, c),
    ensures
        reaches(graph, a, c),
{
    let n = choose|n: nat| path(graph, n, a, b);
    let m = choose|m: nat| path(graph, m, b, c);
    lemma_path_join(graph, n, m, a, b, c);
}

/// An edge is a path.
pub proof fn lemma_reaches_edge(graph: Seq<Vec<u32>>, a: int, b: int)
    requires
        edge(graph, a, b),
    ensures
        reaches(graph, a, b),
{
    assert(path(graph, 0, b, b));
    assert(path(graph, 1, a, b));
}

/// Every node reaches itself.
pub proof fn lemma_reaches_self(graph: Seq<Vec<u32>>, a: int)
    ensures
        reaches(graph, a, a),
{
    assert(path(graph, 0, a, a));
}

/// A set of nodes that edges do not leave, paths do not leave either.
proof fn lemma_path_stays(
    graph: Seq<Vec<u32>>,
    inside: spec_fn(int) -> bool,
    n: nat,
    a: int,
    b: int,
)
    requires
        inside(a),
        forall|c: int, d: int| inside(c) && #[trigger] edge(graph, c, d) ==> inside(d),
        path(graph, n, a, b),
    ensures
        inside(b),
    decreases n,
{
    if a != b {
        let c = choose|c: int| #[trigger] edge(graph, a, c) && path(graph, (n - 1) as nat, c, b);
        assert(inside(c));
        lemma_path_stays(graph, inside, (n - 1) as nat, c, b);
    }
}

/// The state of the depth-first search.
struct Search {
    next_index: usize,
    indices: Vec<Option<usize>>,
    lowlink: Vec<usize>,
    on_stack: Vec<bool>,
    stack: Vec<usize>,
    frames: Vec<(usize, usize)>,
    component: Vec<usize>,
    components: usize,
}

impl Search {
    spec fn visited(&self, v: int) -> bool {
        self.indices@[v] is Some
    }

    spec fn marks(&self) -> Seq<bool> {
        Seq::new(self.indices@.len(), |v: int| self.visited(v))
    }

    spec fn idx(&self, v: int) -> int {
        self.indices@[v]->0 as int
    }

    spec fn closed(&self, v: int) -> bool {
        self.visited(v) && !self.on_stack@[v]
    }

    spec fn frame(&self, i: int) -> int {
        self.frames@[i].0 as int
    }

    spec fn node(&self, j: int) -> int {
        self.stack@[j] as int
    }

    /// The lists have an entry for every node, and the stack and the frames are in order.
    #[verifier::opaque]
    spec fn shaped(&self, graph: Seq<Vec<u32>>) -> bool {
        let count = graph.len();
        &&& graph_ok(graph)
        &&& self.indices@.len() == count
        &&& self.lowlink@.len() == count
        &&& self.on_stack@.len() == count
        &&& self.component@.len() == count
        &&& self.next_index == count::count_true(self.marks())
        &&& forall|v: int|
            0 <= v < count && #[trigger] self.visited(v) ==> self.idx(v) < self.next_index
        &&& forall|j: int|
            0 <= j < self.stack@.len() ==> 0 <= #[trigger] self.node(j) < count && self.visited(
                self.node(j),
            ) && self.on_stack@[self.node(j)]
        &&& forall|v: int|
            0 <= v < count && #[trigger] self.on_stack@[v] ==> self.visited(v) && exists|j: int|
                0 <= j < self.stack@.len() && #[trigger] self.node(j) == v
        &&& forall|j: int, k: int|
            0 <= j < k < self.stack@.len() ==> self.idx(#[trigger] self.node(j)) < self.idx(
                #[trigger] self.node(k),
            )
        &&& forall|i: int|
            0 <= i < self.frames@.len() ==> 0 <= #[trigger] self.frame(i) < count
                && self.on_stack@[self.frame(i)] && self.frames@[i].1 <= graph[self.frame(
                i,
            )]@.len()
        &&& forall|i: int, k: int|
            0 <= i < k < self.frames@.len() ==> self.idx(#[trigger] self.frame(i)) < self.idx(
                #[trigger] self.frame(k),
            )
        &&& self.frames@.len() == 0 <==> self.stack@.len() == 0
        &&& self.frames@.len() > 0 ==> self.frame(0) == self.node(0)
    }

    /// What the nodes of the stack reach.
    #[verifier::opaque]
    spec fn reaching(&self, graph: Seq<Vec<u32>>) -> bool {
        &&& forall|i: int, j: int|
            0 <= i < self.frames@.len() && 0 <= j < self.stack@.len() && self.idx(self.node(j))
                >= self.idx(self.frame(i)) ==> #[trigger] reaches(
                graph,
                self.frame(i),
                self.node(j),
            )
        &&& forall|j: int|
            0 <= j < self.stack@.len() && !self.is_frame(#[trigger] self.node(j)) ==> self.falls_back(
                graph,
                j,
            )
    }

    spec fn is_frame(&self, v: int) -> bool {
        exists|i: int| 0 <= i < self.frames@.len() && #[trigger] self.frame(i) == v
    }

    /// Whether the node at `j` reaches a node below it on the stack.
    spec fn falls_back(&self, graph: Seq<Vec<u32>>, j: int) -> bool {
        exists|k: int| 0 <= k < j && #[trigger] reaches(graph, self.node(j), self.node(k))
    }

    /// What the low links of the frames say.
    #[verifier::opaque]
    spec fn linked(&self, graph: Seq<Vec<u32>>) -> bool {
        forall|i: int|
            0 <= i < self.frames@.len() ==> self.lowlink@[#[trigger] self.frame(i)] <= self.idx(
                self.frame(i),
            ) && self.link_sound(graph, self.frame(i))
    }

    /// Whether the low link of `v` is the index of a node of the stack that `v` reaches.
    spec fn link_sound(&self, graph: Seq<Vec<u32>>, v: int) -> bool {
        exists|k: int|
            0 <= k < self.stack@.len() && self.idx(#[trigger] self.node(k)) == self.lowlink@[v]
                && reaches(graph, v, self.node(k))
    }

    /// Whether an edge that was followed leads to a visited node, no lower on the stack than `low`.
    spec fn followed(&self, s: int, low: int) -> bool {
        self.visited(s) && (self.on_stack@[s] ==> self.idx(s) >= low)
    }

    /// The edges that were followed.
    #[verifier::opaque]
    spec fn following(&self, graph: Seq<Vec<u32>>) -> bool {
        &&& forall|i: int, e: int|
            0 <= i < self.frames@.len() && 0 <= e < self.frames@[i].1 ==> self.followed(
                #[trigger] graph[self.frame(i)]@[e] as int,
                self.lowlink@[self.frame(i)] as int,
            )
        &&& forall|i: int, j: int, e: int|
            0 <= i < self.frames@.len() && 0 <= j < self.stack@.len() && self.idx(self.frame(i))
                < self.idx(self.node(j)) && (i + 1 < self.frames@.len() ==> self.idx(self.node(j))
                < self.idx(self.frame(i + 1))) && 0 <= e < graph[self.node(j)]@.len()
                ==> self.followed(
                #[trigger] graph[self.node(j)]@[e] as int,
                self.lowlink@[#[trigger] self.frame(i)] as int,
            )
    }

    /// The components that are closed.
    #[verifier::opaque]
    spec fn closing(&self, graph: Seq<Vec<u32>>) -> bool {
        &&& forall|v: int, e: int|
            0 <= v < graph.len() && self.closed(v) && 0 <= e < graph[v]@.len() ==> self.closed(
                #[trigger] graph[v]@[e] as int,
            )
        &&& forall|v: int|
            0 <= v < graph.len() && #[trigger] self.closed(v) ==> self.component@[v]
                < self.components
        &&& forall|u: int, v: int|
            0 <= u < graph.len() && 0 <= v < graph.len() && #[trigger] self.closed(u)
                && #[trigger] self.closed(v) ==> (self.component@[u] == self.component@[v]
                <==> mutual(graph, u, v))
    }

    spec fn inv(&self, graph: Seq<Vec<u32>>) -> bool {
        &&& self.shaped(graph)
        &&& self.reaching(graph)
        &&& self.linked(graph)
        &&& self.following(graph)
        &&& self.closing(graph)
    }

    fn new(graph: &Vec<Vec<u32>>) -> (search: Self)
        requires
            graph_ok(graph@),
        ensures
            search.inv(graph@),
            search.frames@.len() == 0,
            search.stack@.len() == 0,
            search.components == 0,
            search.next_index == 0,
            forall|v: int| 0 <= v < graph@.len() ==> !#[trigger] search.visited(v),
    {
        let mut indices: Vec<Option<usize>> = Vec::new();
        let mut lowlink: Vec<usize> = Vec::new();
        let mut component: Vec<usize> = Vec::new();
        let mut made: usize = 0;
        while made < graph.len()
            invariant
                made <= graph@.len(),
                made == indices@.len() == lowlink@.len() == component@.len(),
                forall|v: int| 0 <= v < made ==> #[trigger] indices@[v] is None,
            decreases graph@.len() - made,
        {
            indices.push(None);
            lowlink.push(0);
            component.push(0);
            made += 1;
        }
        let search = Search {
            next_index: 0,
            indices,
            lowlink,
            on_stack: count::unset_marks(graph.len()),
            stack: Vec::new(),
            frames: Vec::new(),
            component,
            components: 0,
        };
        proof {
            assert forall|v: int| 0 <= v < graph@.len() implies !#[trigger] search.marks()[v] by {
                assert(search.indices@[v] is None);
            }
            count::lemma_count_bound(search.marks());
            reveal(Search::shaped);
            reveal(Search::reaching);
            reveal(Search::linked);
            reveal(Search::following);
            reveal(Search::closing);
        }
        search
    }

    /// Whether this is `before` after a visit of `target`.
    spec fn visited_from(&self, before: &Self, g: Seq<Vec<u32>>, target: usize) -> bool {
        let last = before.frames@.len() - 1;
        &&& target < g.len()
        &&& !before.visited(target as int)
        &&& before.frames@.len() > 0 ==> {
            let e = before.frames@[last].1;
            e < g[before.frame(last)]@.len() && g[before.frame(last)]@[e as int] == target
        }
        &&& self.next_index == before.next_index + 1
        &&& self.indices@ == before.indices@.update(target as int, Some(before.next_index))
        &&& self.lowlink@ == before.lowlink@.update(target as int, before.next_index)
        &&& self.on_stack@ == before.on_stack@.update(target as int, true)
        &&& self.stack@ == before.stack@.push(target)
        &&& self.component == before.component
        &&& self.components == before.components
        &&& self.frames@.len() == before.frames@.len() + 1
        &&& self.frames@.last() == (target, 0usize)
        &&& forall|i: int|
            0 <= i < before.frames@.len() ==> (#[trigger] self.frames@[i]).0 == before.frames@[i].0
                && self.frames@[i].1 == before.frames@[i].1 + (if i == last {
                1int
            } else {
                0
            })
    }

    proof fn lemma_visit_facts(&self, before: &Self, g: Seq<Vec<u32>>, target: usize)
        requires
            before.shaped(g),
            self.visited_from(before, g, target),
        ensures
            !before.on_stack@[target as int],
            self.marks() == before.marks().update(target as int, true),
            forall|v: int|
                0 <= v < g.len() && v != target ==> #[trigger] self.visited(v) == before.visited(v)
                    && self.idx(v) == before.idx(v) && self.on_stack@[v] == before.on_stack@[v]
                    && self.lowlink@[v] == before.lowlink@[v],
            forall|j: int|
                0 <= j < before.stack@.len() ==> #[trigger] self.node(j) == before.node(j)
                    && self.node(j) != target && 0 <= self.node(j) < g.len(),
            self.node(before.stack@.len() as int) == target,
            forall|i: int|
                0 <= i < before.frames@.len() ==> #[trigger] self.frame(i) == before.frame(i)
                    && self.frame(i) != target && 0 <= self.frame(i) < g.len(),
            self.frame(before.frames@.len() as int) == target,
            self.visited(target as int),
            self.idx(target as int) == before.next_index,
            self.on_stack@[target as int],
            self.lowlink@[target as int] == before.next_index,
    {
        reveal(Search::shaped);
        assert(self.marks() =~= before.marks().update(target as int, true));
        assert forall|j: int| 0 <= j < before.stack@.len() implies #[trigger] self.node(j)
            == before.node(j) && self.node(j) != target && 0 <= self.node(j) < g.len() by {
            assert(before.on_stack@[before.node(j)]);
        }
        assert forall|i: int| 0 <= i < before.frames@.len() implies #[trigger] self.frame(i)
            == before.frame(i) && self.frame(i) != target && 0 <= self.frame(i) < g.len() by {
            assert(self.frames@[i].0 == before.frames@[i].0);
            assert(before.on_stack@[before.frame(i)]);
        }
    }

    proof fn lemma_visit_shaped(&self, before: &Self, g: Seq<Vec<u32>>, target: usize)
        requires
            before.inv(g),
            self.visited_from(before, g, target),
        ensures
            self.shaped(g),
    {
        reveal(Search::shaped);
        reveal(Search::linked);
        let t = target as int;
        let count = before.frames@.len() as int;
        let top = before.stack@.len() as int;
        self.lemma_visit_facts(before, g, target);
        count::lemma_count_set(before.marks(), t);
        assert forall|v: int| 0 <= v < g.len() && #[trigger] self.visited(v) implies
            self.idx(v) < self.next_index by {
            if v != t {
                assert(before.visited(v));
            }
        }
        assert forall|v: int|
            0 <= v < g.len() && #[trigger] self.on_stack@[v] implies self.visited(v)
            && exists|j: int|
            0 <= j < self.stack@.len() && #[trigger] self.node(j) == v by {
            if v == t {
                assert(self.node(top) == v);
            } else {
                assert(before.on_stack@[v]);
                let j = choose|j: int|
                    0 <= j < before.stack@.len() && #[trigger] before.node(j) == v;
                assert(self.node(j) == v);
            }
        }
        assert forall|j: int, k: int|
            0 <= j < k < self.stack@.len() implies self.idx(#[trigger] self.node(j))
            < self.idx(#[trigger] self.node(k)) by {
            if k < top {
                assert(before.idx(before.node(j)) < before.idx(before.node(k)));
            } else {
                assert(before.visited(before.node(j)));
            }
        }
        assert forall|i: int, k: int|
            0 <= i < k < self.frames@.len() implies self.idx(#[trigger] self.frame(i))
            < self.idx(#[trigger] self.frame(k)) by {
            if k < count {
                assert(before.idx(before.frame(i)) < before.idx(before.frame(k)));
            } else {
                assert(before.on_stack@[before.frame(i)]);
                assert(before.visited(before.frame(i)));
            }
        }
        assert forall|i: int| 0 <= i < self.frames@.len() implies 0
            <= #[trigger] self.frame(i) < g.len() && self.on_stack@[self.frame(i)]
            && self.frames@[i].1 <= g[self.frame(i)]@.len() by {
            if i < count {
                assert(before.on_stack@[before.frame(i)]);
            }
        }
        assert forall|j: int| 0 <= j < self.stack@.len() implies 0
            <= #[trigger] self.node(j) < g.len() && self.visited(self.node(j))
            && self.on_stack@[self.node(j)] by {
            if j < top {
                assert(before.on_stack@[before.node(j)]);
            }
        }
        if count > 0 {
            assert(before.frame(0) == before.node(0));
            assert(self.frame(0) == before.frame(0));
            assert(self.node(0) == before.node(0));
        } else {
            assert(self.node(0) == t);
        }
    }

    proof fn lemma_visit_reaching(&self, before: &Self, g: Seq<Vec<u32>>, target: usize)
        requires
            before.inv(g),
            self.visited_from(before, g, target),
            self.shaped(g),
        ensures
            self.reaching(g),
    {
        reveal(Search::shaped);
        reveal(Search::reaching);
        let t = target as int;
        let count = before.frames@.len() as int;
        let top = before.stack@.len() as int;
        self.lemma_visit_facts(before, g, target);
        assert forall|i: int, j: int|
            0 <= i < self.frames@.len() && 0 <= j < self.stack@.len() && self.idx(
                self.node(j),
            ) >= self.idx(self.frame(i)) implies #[trigger] reaches(
            g,
            self.frame(i),
            self.node(j),
        ) by {
            if i == count {
                if j < top {
                    assert(before.visited(before.node(j)));
                }
                lemma_reaches_self(g, t);
            } else if j == top {
                let last = before.frame(count - 1);
                lemma_reaches_edge(g, last, t);
                assert(before.on_stack@[last]);
                let k = choose|k: int|
                    0 <= k < before.stack@.len() && #[trigger] before.node(k) == last;
                if i < count - 1 {
                    assert(before.idx(before.frame(i)) < before.idx(
                        before.frame(count - 1),
                    ));
                }
                assert(reaches(g, before.frame(i), before.node(k)));
                lemma_reaches_join(g, before.frame(i), last, t);
            } else {
                assert(reaches(g, before.frame(i), before.node(j)));
            }
        }
        assert forall|j: int|
            0 <= j < self.stack@.len() && !self.is_frame(
                #[trigger] self.node(j),
            ) implies self.falls_back(g, j) by {
            if j == top {
                assert(self.frame(count) == self.node(j));
            } else {
                assert(!before.is_frame(before.node(j))) by {
                    if before.is_frame(before.node(j)) {
                        let i = choose|i: int|
                            0 <= i < count && #[trigger] before.frame(i) == before.node(j);
                        assert(self.frame(i) == self.node(j));
                    }
                }
                assert(before.falls_back(g, j));
                let k = choose|k: int|
                    0 <= k < j && #[trigger] reaches(g, before.node(j), before.node(k));
                assert(reaches(g, self.node(j), self.node(k)));
            }
        }
    }

    proof fn lemma_visit_linked(&self, before: &Self, g: Seq<Vec<u32>>, target: usize)
        requires
            before.inv(g),
            self.visited_from(before, g, target),
            self.shaped(g),
        ensures
            self.linked(g),
    {
        reveal(Search::shaped);
        reveal(Search::linked);
        let t = target as int;
        let count = before.frames@.len() as int;
        let top = before.stack@.len() as int;
        self.lemma_visit_facts(before, g, target);
        assert forall|i: int| 0 <= i < self.frames@.len() implies self.lowlink@[
            #[trigger] self.frame(i)] <= self.idx(self.frame(i)) && self.link_sound(
            g,
            self.frame(i),
        ) by {
            if i == count {
                lemma_reaches_self(g, t);
                assert(self.idx(self.node(top)) == self.lowlink@[t]);
            } else {
                let f = before.frame(i);
                assert(before.link_sound(g, f));
                let k = choose|k: int|
                    0 <= k < before.stack@.len() && before.idx(#[trigger] before.node(k))
                        == before.lowlink@[f] && reaches(g, f, before.node(k));
                assert(self.idx(self.node(k)) == self.lowlink@[f]);
            }
        }
    }

    proof fn lemma_visit_following(&self, before: &Self, g: Seq<Vec<u32>>, target: usize)
        requires
            before.inv(g),
            self.visited_from(before, g, target),
            self.shaped(g),
        ensures
            self.following(g),
    {
        reveal(Search::shaped);
        reveal(Search::following);
        reveal(Search::linked);
        let t = target as int;
        let count = before.frames@.len() as int;
        let top = before.stack@.len() as int;
        self.lemma_visit_facts(before, g, target);
        assert forall|i: int, e: int|
            0 <= i < self.frames@.len() && 0 <= e < self.frames@[i].1 implies self.followed(
            #[trigger] g[self.frame(i)]@[e] as int,
            self.lowlink@[self.frame(i)] as int,
        ) by {
            let s = g[self.frame(i)]@[e] as int;
            if i < count {
                if i == count - 1 && e == before.frames@[i].1 {
                    assert(s == t);
                    assert(before.on_stack@[before.frame(i)]);
                    assert(before.visited(before.frame(i)));
                    assert(before.lowlink@[before.frame(i)] <= before.idx(
                        before.frame(i),
                    ));
                } else {
                    assert(before.followed(
                        g[before.frame(i)]@[e] as int,
                        before.lowlink@[before.frame(i)] as int,
                    ));
                }
            }
        }
        assert forall|i: int, j: int, e: int|
            0 <= i < self.frames@.len() && 0 <= j < self.stack@.len() && self.idx(
                self.frame(i),
            ) < self.idx(self.node(j)) && (i + 1 < self.frames@.len() ==> self.idx(
                self.node(j),
            ) < self.idx(self.frame(i + 1))) && 0 <= e < g[self.node(
                j,
            )]@.len() implies self.followed(
            #[trigger] g[self.node(j)]@[e] as int,
            self.lowlink@[#[trigger] self.frame(i)] as int,
        ) by {
            if i < count && j < top {
                if i + 1 < count {
                    assert(self.frame(i + 1) == before.frame(i + 1));
                }
                assert(self.node(j) == before.node(j));
                assert(before.followed(
                    g[before.node(j)]@[e] as int,
                    before.lowlink@[before.frame(i)] as int,
                ));
            } else if j == top {
                assert(self.frame(count) == t);
                if i < count {
                    assert(self.idx(self.frame(i + 1)) <= self.idx(self.frame(count)));
                }
            } else {
                assert(before.visited(before.node(j)));
            }
        }
    }

    proof fn lemma_visit_closing(&self, before: &Self, g: Seq<Vec<u32>>, target: usize)
        requires
            before.inv(g),
            self.visited_from(before, g, target),
            self.shaped(g),
        ensures
            self.closing(g),
    {
        reveal(Search::shaped);
        reveal(Search::closing);
        let t = target as int;
        let count = before.frames@.len() as int;
        let top = before.stack@.len() as int;
        self.lemma_visit_facts(before, g, target);
        assert forall|v: int| 0 <= v < g.len() implies #[trigger] self.closed(v)
            == before.closed(v) by {}
        assert forall|v: int, e: int|
            0 <= v < g.len() && self.closed(v) && 0 <= e < g[v]@.len() implies self.closed(
            #[trigger] g[v]@[e] as int,
        ) by {
            assert(before.closed(v));
            assert(before.closed(g[v]@[e] as int));
        }
        assert forall|u: int, v: int|
            0 <= u < g.len() && 0 <= v < g.len() && #[trigger] self.closed(u)
                && #[trigger] self.closed(v) implies (self.component@[u]
            == self.component@[v] <==> mutual(g, u, v)) by {
            assert(before.closed(u) && before.closed(v));
        }
        assert forall|v: int| 0 <= v < g.len() && #[trigger] self.closed(v) implies
            self.component@[v] < self.components by {
            assert(before.closed(v));
        }
    }

    /// Visits `target`: a first node, or one that the next edge of the last frame leads to.
    fn visit(&mut self, graph: &Vec<Vec<u32>>, target: usize)
        requires
            old(self).inv(graph@),
            target < graph@.len(),
            !old(self).visited(target as int),
            old(self).frames@.len() > 0 ==> {
                let last = old(self).frames@.len() - 1;
                let e = old(self).frames@[last].1;
                e < graph@[old(self).frame(last)]@.len() && graph@[old(self).frame(last)]@[e as int]
                    == target
            },
        ensures
            final(self).inv(graph@),
            final(self).frames@.len() == old(self).frames@.len() + 1,
            final(self).next_index == old(self).next_index + 1,
            final(self).stack@.len() == old(self).stack@.len() + 1,
            final(self).components == old(self).components,
            forall|v: int|
                0 <= v < graph@.len() && old(self).visited(v) ==> #[trigger] final(self).visited(v),
            final(self).visited(target as int),
    {
        let ghost before = *self;
        let ghost g = graph@;
        proof {
            reveal(Search::shaped);
            count::lemma_count_set(before.marks(), target as int);
            count::lemma_count_bound(before.marks());
            assert(!before.marks()[target as int]);
        }
        if self.frames.len() > 0 {
            let last: usize = self.frames.len() - 1;
            let (node, e) = self.frames[last];
            assert(e < graph@[before.frame(last as int)].len());
            self.frames[last] = (node, e + 1);
        }
        let index: usize = self.next_index;
        self.indices[target] = Some(index);
        self.lowlink[target] = index;
        assert(index < graph.len());
        self.next_index = index + 1;
        self.stack.push(target);
        self.on_stack[target] = true;
        self.frames.push((target, 0));
        proof {
            self.lemma_visit_shaped(&before, g, target);
            self.lemma_visit_reaching(&before, g, target);
            self.lemma_visit_linked(&before, g, target);
            self.lemma_visit_following(&before, g, target);
            self.lemma_visit_closing(&before, g, target);
            self.lemma_visit_facts(&before, g, target);
        }
    }
}

impl Search {
    /// Whether this is `before` after following the next edge of its last frame to `target`.
    spec fn followed_from(&self, before: &Self, g: Seq<Vec<u32>>, target: usize) -> bool {
        let last = before.frames@.len() - 1;
        let f = before.frame(last);
        let e = before.frames@[last].1;
        &&& target < g.len()
        &&& before.visited(target as int)
        &&& before.frames@.len() > 0
        &&& e < g[f]@.len()
        &&& g[f]@[e as int] == target
        &&& self.next_index == before.next_index
        &&& self.indices == before.indices
        &&& self.on_stack == before.on_stack
        &&& self.stack == before.stack
        &&& self.component == before.component
        &&& self.components == before.components
        &&& self.frames@ == before.frames@.update(
            last,
            (before.frames@[last].0, (e + 1) as usize),
        )
        &&& self.lowlink@ == (if before.on_stack@[target as int] && before.idx(target as int)
            < before.lowlink@[f] {
            before.lowlink@.update(f, before.idx(target as int) as usize)
        } else {
            before.lowlink@
        })
    }

    proof fn lemma_follow_facts(&self, before: &Self, g: Seq<Vec<u32>>, target: usize)
        requires
            before.shaped(g),
            self.followed_from(before, g, target),
        ensures
            self.shaped(g),
            self.marks() == before.marks(),
            forall|i: int|
                0 <= i < self.frames@.len() ==> #[trigger] self.frame(i) == before.frame(i) && 0
                    <= self.frame(i) < g.len(),
            forall|j: int|
                0 <= j < self.stack@.len() ==> #[trigger] self.node(j) == before.node(j) && 0
                    <= self.node(j) < g.len(),
            forall|v: int|
                0 <= v < g.len() ==> #[trigger] self.visited(v) == before.visited(v) && self.idx(v)
                    == before.idx(v),
            forall|i: int|
                0 <= i < before.frames@.len() - 1 ==> #[trigger] before.frame(i) != before.frame(
                    before.frames@.len() - 1,
                ),
    {
        reveal(Search::shaped);
        let last = before.frames@.len() - 1;
        assert(self.marks() =~= before.marks());
        assert forall|i: int| 0 <= i < self.frames@.len() implies #[trigger] self.frame(i)
            == before.frame(i) by {}
        assert forall|j: int| 0 <= j < self.stack@.len() implies #[trigger] self.node(j)
            == before.node(j) by {}
        assert forall|v: int| 0 <= v < g.len() implies #[trigger] self.visited(v)
            == before.visited(v) && self.idx(v) == before.idx(v) by {}
        assert forall|i: int| 0 <= i < last implies #[trigger] before.frame(i) != before.frame(
            last,
        ) by {
            assert(before.idx(before.frame(i)) < before.idx(before.frame(last)));
        }
        assert(before.frame(last) < g.len());
        assert forall|v: int|
            0 <= v < g.len() && #[trigger] self.on_stack@[v] implies self.visited(v) && exists|
            j: int,
        |
            0 <= j < self.stack@.len() && #[trigger] self.node(j) == v by {
            let j = choose|j: int| 0 <= j < before.stack@.len() && #[trigger] before.node(j) == v;
            assert(before.on_stack@[v]);
            assert(self.node(j) == v);
        }
    }

    proof fn lemma_follow_reaching(&self, before: &Self, g: Seq<Vec<u32>>, target: usize)
        requires
            before.inv(g),
            self.followed_from(before, g, target),
        ensures
            self.reaching(g),
    {
        reveal(Search::shaped);
        reveal(Search::reaching);
        let t = target as int;
        let last = before.frames@.len() - 1;
        let f = before.frame(last);
        let e = before.frames@[last].1;
        self.lemma_follow_facts(before, g, target);
        assert forall|i: int, j: int|
            0 <= i < self.frames@.len() && 0 <= j < self.stack@.len() && self.idx(
                self.node(j),
            ) >= self.idx(self.frame(i)) implies #[trigger] reaches(
            g,
            self.frame(i),
            self.node(j),
        ) by {
            assert(reaches(g, before.frame(i), before.node(j)));
        }
        assert forall|j: int|
            0 <= j < self.stack@.len() && !self.is_frame(
                #[trigger] self.node(j),
            ) implies self.falls_back(g, j) by {
            assert(!before.is_frame(before.node(j))) by {
                if before.is_frame(before.node(j)) {
                    let i = choose|i: int|
                        0 <= i < before.frames@.len() && #[trigger] before.frame(i)
                            == before.node(j);
                    assert(self.frame(i) == self.node(j));
                }
            }
            assert(before.falls_back(g, j));
            let k = choose|k: int|
                0 <= k < j && #[trigger] reaches(g, before.node(j), before.node(k));
            assert(reaches(g, self.node(j), self.node(k)));
        }
    }

    proof fn lemma_follow_linked(&self, before: &Self, g: Seq<Vec<u32>>, target: usize)
        requires
            before.inv(g),
            self.followed_from(before, g, target),
        ensures
            self.linked(g),
    {
        reveal(Search::shaped);
        reveal(Search::linked);
        let t = target as int;
        let last = before.frames@.len() - 1;
        let f = before.frame(last);
        let e = before.frames@[last].1;
        self.lemma_follow_facts(before, g, target);
        assert forall|i: int| 0 <= i < self.frames@.len() implies self.lowlink@[
            #[trigger] self.frame(i)] <= self.idx(self.frame(i)) && self.link_sound(
            g,
            self.frame(i),
        ) by {
            let v = before.frame(i);
            assert(before.lowlink@[v] <= before.idx(v));
            if self.lowlink@[v] == before.lowlink@[v] {
                assert(before.link_sound(g, v));
                let k = choose|k: int|
                    0 <= k < before.stack@.len() && before.idx(#[trigger] before.node(k))
                        == before.lowlink@[v] && reaches(g, v, before.node(k));
                assert(self.idx(self.node(k)) == self.lowlink@[v]);
            } else {
                assert(v == f);
                let k = choose|k: int|
                    0 <= k < before.stack@.len() && #[trigger] before.node(k) == t;
                assert(before.on_stack@[t]);
                assert(g[f]@[e as int] == t);
                lemma_reaches_edge(g, f, t);
                assert(self.idx(self.node(k)) == self.lowlink@[v]);
            }
        }
    }

    proof fn lemma_follow_following(&self, before: &Self, g: Seq<Vec<u32>>, target: usize)
        requires
            before.inv(g),
            self.followed_from(before, g, target),
        ensures
            self.following(g),
    {
        reveal(Search::shaped);
        reveal(Search::following);
        reveal(Search::linked);
        let t = target as int;
        let last = before.frames@.len() - 1;
        let f = before.frame(last);
        let e = before.frames@[last].1;
        self.lemma_follow_facts(before, g, target);
        assert forall|i: int, x: int|
            0 <= i < self.frames@.len() && 0 <= x < self.frames@[i].1 implies self.followed(
            #[trigger] g[self.frame(i)]@[x] as int,
            self.lowlink@[self.frame(i)] as int,
        ) by {
            let s = g[self.frame(i)]@[x] as int;
            if i == last && x == e {
                assert(s == t);
            } else {
                assert(before.followed(
                    g[before.frame(i)]@[x] as int,
                    before.lowlink@[before.frame(i)] as int,
                ));
            }
        }
        assert forall|i: int, j: int, x: int|
            0 <= i < self.frames@.len() && 0 <= j < self.stack@.len() && self.idx(
                self.frame(i),
            ) < self.idx(self.node(j)) && (i + 1 < self.frames@.len() ==> self.idx(
                self.node(j),
            ) < self.idx(self.frame(i + 1))) && 0 <= x < g[self.node(
                j,
            )]@.len() implies self.followed(
            #[trigger] g[self.node(j)]@[x] as int,
            self.lowlink@[#[trigger] self.frame(i)] as int,
        ) by {
            assert(g[self.node(j)]@[x] < g.len());
            if i + 1 < self.frames@.len() {
                assert(self.frame(i + 1) == before.frame(i + 1));
            }
            assert(before.followed(
                g[before.node(j)]@[x] as int,
                before.lowlink@[before.frame(i)] as int,
            ));
        }
    }

    proof fn lemma_follow_closing(&self, before: &Self, g: Seq<Vec<u32>>, target: usize)
        requires
            before.inv(g),
            self.followed_from(before, g, target),
        ensures
            self.closing(g),
    {
        reveal(Search::shaped);
        reveal(Search::closing);
        let t = target as int;
        let last = before.frames@.len() - 1;
        let f = before.frame(last);
        let e = before.frames@[last].1;
        self.lemma_follow_facts(before, g, target);
        assert forall|v: int| 0 <= v < g.len() implies #[trigger] self.closed(v)
            == before.closed(v) by {}
        assert forall|v: int, x: int|
            0 <= v < g.len() && self.closed(v) && 0 <= x < g[v]@.len() implies self.closed(
            #[trigger] g[v]@[x] as int,
        ) by {
            assert(before.closed(v));
            assert(before.closed(g[v]@[x] as int));
            assert(g[v]@[x] < g.len());
        }
        assert forall|u: int, v: int|
            0 <= u < g.len() && 0 <= v < g.len() && #[trigger] self.closed(u)
                && #[trigger] self.closed(v) implies (self.component@[u]
            == self.component@[v] <==> mutual(g, u, v)) by {
            assert(before.closed(u) && before.closed(v));
        }
        assert forall|v: int| 0 <= v < g.len() && #[trigger] self.closed(v) implies
            self.component@[v] < self.components by {
            assert(before.closed(v));
        }
    }

    /// Follows the next edge of the last frame to a node that was visited before.
    fn follow(&mut self, graph: &Vec<Vec<u32>>, target: usize)
        requires
            old(self).inv(graph@),
            target < graph@.len(),
            old(self).visited(target as int),
            old(self).frames@.len() > 0,
            ({
                let last = old(self).frames@.len() - 1;
                let e = old(self).frames@[last].1;
                e < graph@[old(self).frame(last)]@.len() && graph@[old(self).frame(last)]@[e as int]
                    == target
            }),
        ensures
            final(self).inv(graph@),
            final(self).frames@ == old(self).frames@.update(
                old(self).frames@.len() - 1,
                (
                    old(self).frames@[old(self).frames@.len() - 1].0,
                    (old(self).frames@[old(self).frames@.len() - 1].1 + 1) as usize,
                ),
            ),
            final(self).indices == old(self).indices,
            final(self).next_index == old(self).next_index,
            final(self).stack == old(self).stack,
            final(self).components == old(self).components,
    {
        let ghost before = *self;
        let ghost g = graph@;
        proof {
            reveal(Search::shaped);
        }
        let last: usize = self.frames.len() - 1;
        let (node, e) = self.frames[last];
        assert(e < graph@[before.frame(last as int)].len());
        self.frames[last] = (node, e + 1);
        if self.on_stack[target] {
            let index: usize = match self.indices[target] {
                Some(index) => index,
                None => 0,
            };
            if index < self.lowlink[node] {
                self.lowlink[node] = index;
            }
        }
        proof {
            self.lemma_follow_facts(&before, g, target);
            self.lemma_follow_reaching(&before, g, target);
            self.lemma_follow_linked(&before, g, target);
            self.lemma_follow_following(&before, g, target);
            self.lemma_follow_closing(&before, g, target);
        }
    }
}

impl Search {
    /// The position of a node on the stack.
    spec fn position(&self, v: int) -> int {
        choose|j: int| 0 <= j < self.stack@.len() && #[trigger] self.node(j) == v
    }

    proof fn lemma_position(&self, g: Seq<Vec<u32>>, v: int)
        requires
            self.shaped(g),
            0 <= v < g.len(),
            self.on_stack@[v],
        ensures
            0 <= self.position(v) < self.stack@.len(),
            self.node(self.position(v)) == v,
            forall|j: int|
                0 <= j < self.stack@.len() ==> (self.idx(#[trigger] self.node(j)) < self.idx(v)
                    <==> j < self.position(v)) && (self.idx(self.node(j)) == self.idx(v) <==> j
                    == self.position(v)),
    {
        reveal(Search::shaped);
        let k = self.position(v);
        assert(0 <= k < self.stack@.len() && self.node(k) == v);
        assert forall|j: int| 0 <= j < self.stack@.len() implies (self.idx(
            #[trigger] self.node(j),
        ) < self.idx(v) <==> j < k) && (self.idx(self.node(j)) == self.idx(v) <==> j == k) by {
            if j < k {
                assert(self.idx(self.node(j)) < self.idx(self.node(k)));
            } else if k < j {
                assert(self.idx(self.node(k)) < self.idx(self.node(j)));
            }
        }
    }

    /// The node that is finished: that of the last frame.
    spec fn last_node(&self) -> int {
        self.frame(self.frames@.len() - 1)
    }

    /// Whether the last frame has no edge left.
    spec fn finishing(&self, g: Seq<Vec<u32>>) -> bool {
        &&& self.frames@.len() > 0
        &&& self.frames@[self.frames@.len() - 1].1 == g[self.last_node()]@.len()
    }

    /// Whether this is `before` with its last frame gone and the link handed to the frame below.
    spec fn popped_from(&self, before: &Self) -> bool {
        let c = before.last_node();
        let count = before.frames@.len() as int;
        &&& self.next_index == before.next_index
        &&& self.indices == before.indices
        &&& self.on_stack == before.on_stack
        &&& self.stack == before.stack
        &&& self.component == before.component
        &&& self.components == before.components
        &&& self.frames@ == before.frames@.drop_last()
        &&& self.lowlink@ == (if count > 1 && before.lowlink@[c] < before.lowlink@[before.frame(
            count - 2,
        )] {
            before.lowlink@.update(before.frame(count - 2), before.lowlink@[c])
        } else {
            before.lowlink@
        })
    }

    proof fn lemma_popped_facts(&self, before: &Self, g: Seq<Vec<u32>>)
        requires
            before.shaped(g),
            before.linked(g),
            before.finishing(g),
            self.popped_from(before),
        ensures
            forall|i: int|
                0 <= i < self.frames@.len() ==> #[trigger] self.frame(i) == before.frame(i) && 0
                    <= self.frame(i) < g.len() && self.on_stack@[self.frame(i)],
            forall|j: int|
                0 <= j < self.stack@.len() ==> #[trigger] self.node(j) == before.node(j) && 0
                    <= self.node(j) < g.len(),
            forall|v: int|
                0 <= v < g.len() ==> #[trigger] self.visited(v) == before.visited(v) && self.idx(v)
                    == before.idx(v),
            forall|i: int|
                0 <= i < self.frames@.len() ==> self.idx(#[trigger] before.frame(i)) < self.idx(
                    before.last_node(),
                ),
            forall|i: int|
                0 <= i < self.frames@.len() - 1 ==> self.lowlink@[#[trigger] self.frame(i)]
                    == before.lowlink@[before.frame(i)],
            0 <= before.last_node() < g.len(),
            before.on_stack@[before.last_node()],
            before.lowlink@[before.last_node()] == before.idx(before.last_node())
                ==> self.lowlink@ == before.lowlink@,
            self.lowlink@[before.last_node()] == before.lowlink@[before.last_node()],
    {
        reveal(Search::shaped);
        reveal(Search::linked);
        let count = before.frames@.len() as int;
        assert(before.on_stack@[before.frame(count - 1)]);
        assert forall|i: int| 0 <= i < self.frames@.len() implies #[trigger] self.frame(i)
            == before.frame(i) && 0 <= self.frame(i) < g.len()
            && self.on_stack@[self.frame(i)] by {
            assert(before.on_stack@[before.frame(i)]);
        }
        assert forall|i: int| 0 <= i < self.frames@.len() implies self.idx(
            #[trigger] before.frame(i),
        ) < self.idx(before.last_node()) by {
            assert(before.idx(before.frame(i)) < before.idx(before.frame(count - 1)));
        }
        assert forall|i: int| 0 <= i < self.frames@.len() - 1 implies self.lowlink@[
            #[trigger] self.frame(i)] == before.lowlink@[before.frame(i)] by {
            assert(before.idx(before.frame(i)) < before.idx(before.frame(count - 2)));
        }
        if count > 1 {
            assert(before.lowlink@[before.frame(count - 2)] <= before.idx(before.frame(count - 2)));
        }
    }

    /// Finishing a node that reaches a node below it leaves the state in order.
    proof fn lemma_finish_open(&self, before: &Self, g: Seq<Vec<u32>>)
        requires
            before.inv(g),
            before.finishing(g),
            self.popped_from(before),
            before.lowlink@[before.last_node()] != before.idx(before.last_node()),
        ensures
            self.inv(g),
            self.frames@.len() > 0,
    {
        let c = before.last_node();
        let count = before.frames@.len() as int;
        self.lemma_popped_facts(before, g);
        before.lemma_position(g, c);
        let at = before.position(c);
        assert(before.link_sound(g, c) && before.lowlink@[c] <= before.idx(c)) by {
            reveal(Search::linked);
            assert(before.frame(count - 1) == c);
        }
        let low = choose|k: int|
            0 <= k < before.stack@.len() && before.idx(#[trigger] before.node(k))
                == before.lowlink@[c] && reaches(g, c, before.node(k));
        assert(low < at);
        assert(count > 1) by {
            reveal(Search::shaped);
            if count == 1 {
                assert(before.frame(0) == before.node(0));
                assert(before.node(0) == c);
            }
        }
        assert(self.shaped(g)) by {
            reveal(Search::shaped);
            assert(self.marks() =~= before.marks());
            assert forall|i: int| 0 <= i < self.frames@.len() implies 0
                <= #[trigger] self.frame(i) < g.len() && self.on_stack@[self.frame(i)]
                && self.frames@[i].1 <= g[self.frame(i)]@.len() by {
                assert(self.frame(i) == before.frame(i));
            }
            assert forall|v: int|
                0 <= v < g.len() && #[trigger] self.on_stack@[v] implies self.visited(v)
                && exists|j: int| 0 <= j < self.stack@.len() && #[trigger] self.node(j) == v by {
                assert(before.on_stack@[v]);
                let j = choose|j: int|
                    0 <= j < before.stack@.len() && #[trigger] before.node(j) == v;
                assert(self.node(j) == v);
            }
            assert forall|i: int, k: int|
                0 <= i < k < self.frames@.len() implies self.idx(#[trigger] self.frame(i))
                < self.idx(#[trigger] self.frame(k)) by {
                assert(before.idx(before.frame(i)) < before.idx(before.frame(k)));
            }
            assert(before.frame(0) == before.node(0));
            assert(self.frame(0) == before.frame(0));
            assert(self.node(0) == before.node(0));
        }
        assert(self.reaching(g)) by {
            reveal(Search::reaching);
            assert forall|i: int, j: int|
                0 <= i < self.frames@.len() && 0 <= j < self.stack@.len() && self.idx(self.node(j))
                    >= self.idx(self.frame(i)) implies #[trigger] reaches(
                g,
                self.frame(i),
                self.node(j),
            ) by {
                assert(reaches(g, before.frame(i), before.node(j)));
            }
            assert forall|j: int|
                0 <= j < self.stack@.len() && !self.is_frame(
                    #[trigger] self.node(j),
                ) implies self.falls_back(g, j) by {
                if j == at {
                    assert(reaches(g, self.node(j), self.node(low)));
                } else {
                    assert(!before.is_frame(before.node(j))) by {
                        if before.is_frame(before.node(j)) {
                            let i = choose|i: int|
                                0 <= i < count && #[trigger] before.frame(i) == before.node(j);
                            if i < count - 1 {
                                assert(self.frame(i) == self.node(j));
                            }
                        }
                    }
                    assert(before.falls_back(g, j));
                    let k = choose|k: int|
                        0 <= k < j && #[trigger] reaches(g, before.node(j), before.node(k));
                    assert(reaches(g, self.node(j), self.node(k)));
                }
            }
        }
        assert(self.linked(g)) by {
            reveal(Search::linked);
            reveal(Search::reaching);
            reveal(Search::shaped);
            assert forall|i: int| 0 <= i < self.frames@.len() implies self.lowlink@[
                #[trigger] self.frame(i)] <= self.idx(self.frame(i)) && self.link_sound(
                g,
                self.frame(i),
            ) by {
                let v = before.frame(i);
                assert(before.lowlink@[v] <= before.idx(v) && before.link_sound(g, v));
                if self.lowlink@[v] == before.lowlink@[v] {
                    let k = choose|k: int|
                        0 <= k < before.stack@.len() && before.idx(#[trigger] before.node(k))
                            == before.lowlink@[v] && reaches(g, v, before.node(k));
                    assert(self.idx(self.node(k)) == self.lowlink@[v]);
                } else {
                    assert(reaches(g, before.frame(i), before.node(at)));
                    lemma_reaches_join(g, v, c, before.node(low));
                    assert(self.idx(self.node(low)) == self.lowlink@[v]);
                }
            }
        }
        assert(self.following(g)) by {
            reveal(Search::following);
            reveal(Search::shaped);
            assert forall|i: int, e: int|
                0 <= i < self.frames@.len() && 0 <= e < self.frames@[i].1 implies self.followed(
                #[trigger] g[self.frame(i)]@[e] as int,
                self.lowlink@[self.frame(i)] as int,
            ) by {
                assert(before.followed(
                    g[before.frame(i)]@[e] as int,
                    before.lowlink@[before.frame(i)] as int,
                ));
                assert(g[self.frame(i)]@[e] < g.len());
            }
            assert forall|i: int, j: int, e: int|
                0 <= i < self.frames@.len() && 0 <= j < self.stack@.len() && self.idx(self.frame(i))
                    < self.idx(self.node(j)) && (i + 1 < self.frames@.len() ==> self.idx(
                    self.node(j),
                ) < self.idx(self.frame(i + 1))) && 0 <= e < g[self.node(
                    j,
                )]@.len() implies self.followed(
                #[trigger] g[self.node(j)]@[e] as int,
                self.lowlink@[#[trigger] self.frame(i)] as int,
            ) by {
                assert(g[self.node(j)]@[e] < g.len());
                if i + 1 < self.frames@.len() {
                    assert(self.frame(i + 1) == before.frame(i + 1));
                    assert(before.followed(
                        g[before.node(j)]@[e] as int,
                        before.lowlink@[before.frame(i)] as int,
                    ));
                } else {
                    assert(before.frame(i + 1) == c);
                    if j < at {
                        assert(before.followed(
                            g[before.node(j)]@[e] as int,
                            before.lowlink@[before.frame(i)] as int,
                        ));
                    } else if j == at {
                        assert(before.followed(
                            g[before.frame(i + 1)]@[e] as int,
                            before.lowlink@[before.frame(i + 1)] as int,
                        ));
                    } else {
                        assert(before.followed(
                            g[before.node(j)]@[e] as int,
                            before.lowlink@[before.frame(i + 1)] as int,
                        ));
                    }
                }
            }
        }
        assert(self.closing(g)) by {
            reveal(Search::closing);
            reveal(Search::shaped);
            assert forall|v: int| 0 <= v < g.len() implies #[trigger] self.closed(v)
                == before.closed(v) by {}
            assert forall|v: int, x: int|
                0 <= v < g.len() && self.closed(v) && 0 <= x < g[v]@.len() implies self.closed(
                #[trigger] g[v]@[x] as int,
            ) by {
                assert(before.closed(v));
                assert(before.closed(g[v]@[x] as int));
                assert(g[v]@[x] < g.len());
            }
            assert forall|u: int, v: int|
                0 <= u < g.len() && 0 <= v < g.len() && #[trigger] self.closed(u)
                    && #[trigger] self.closed(v) implies (self.component@[u] == self.component@[v]
                <==> mutual(g, u, v)) by {
                assert(before.closed(u) && before.closed(v));
            }
            assert forall|v: int| 0 <= v < g.len() && #[trigger] self.closed(v) implies
                self.component@[v] < self.components by {
                assert(before.closed(v));
            }
        }
    }

    /// Whether this is `popped` with the stack from `at` on closed as a component.
    spec fn closed_from(&self, popped: &Self, at: int) -> bool {
        &&& self.next_index == popped.next_index
        &&& self.indices == popped.indices
        &&& self.lowlink == popped.lowlink
        &&& self.frames == popped.frames
        &&& 0 <= at < popped.stack@.len()
        &&& self.stack@ == popped.stack@.take(at)
        &&& self.components == popped.components + 1
        &&& self.on_stack@.len() == popped.on_stack@.len()
        &&& self.component@.len() == popped.component@.len()
        &&& forall|v: int|
            0 <= v < self.on_stack@.len() ==> #[trigger] self.on_stack@[v] == (
            popped.on_stack@[v] && !popped.above(at, v))
        &&& forall|v: int|
            0 <= v < self.component@.len() ==> #[trigger] self.component@[v] == (if popped.above(
                at,
                v,
            ) {
                popped.components
            } else {
                popped.component@[v]
            })
    }

    /// Whether a node is on the stack at `at` or above.
    spec fn above(&self, at: int, v: int) -> bool {
        exists|j: int| at <= j < self.stack@.len() && #[trigger] self.node(j) == v
    }

    /// Every node above a root of a component reaches the root.
    proof fn lemma_above_reaches(&self, g: Seq<Vec<u32>>, j: int)
        requires
            self.inv(g),
            self.finishing(g),
            self.lowlink@[self.last_node()] == self.idx(self.last_node()),
            self.position(self.last_node()) <= j < self.stack@.len(),
        ensures
            reaches(g, self.node(j), self.last_node()),
        decreases j,
    {
        let c = self.last_node();
        let count = self.frames@.len() as int;
        reveal(Search::shaped);
        assert(self.on_stack@[self.frame(count - 1)]);
        self.lemma_position(g, c);
        let at = self.position(c);
        if j == at {
            lemma_reaches_self(g, c);
        } else {
            assert(!self.is_frame(self.node(j))) by {
                if self.is_frame(self.node(j)) {
                    let i = choose|i: int| 0 <= i < count && #[trigger] self.frame(i) == self.node(
                        j,
                    );
                    if i < count - 1 {
                        assert(self.idx(self.frame(i)) < self.idx(self.frame(count - 1)));
                    }
                }
            }
            assert(self.falls_back(g, j)) by {
                reveal(Search::reaching);
                assert(self.node(j) == self.node(j));
            }
            let k = choose|k: int|
                0 <= k < j && #[trigger] reaches(g, self.node(j), self.node(k));
            self.lemma_above_closed(g, self.node(j), self.node(k));
            assert(at <= k) by {
                assert(self.on_stack@[self.node(k)]);
                let x = choose|x: int|
                    at <= x < self.stack@.len() && #[trigger] self.node(x) == self.node(k);
                if x < k {
                    assert(self.idx(self.node(x)) < self.idx(self.node(k)));
                } else if k < x {
                    assert(self.idx(self.node(k)) < self.idx(self.node(x)));
                }
            }
            self.lemma_above_reaches(g, k);
            lemma_reaches_join(g, self.node(j), self.node(k), c);
        }
    }

    /// From the nodes above a root, edges lead to nodes above it and to closed nodes only.
    proof fn lemma_above_edges(&self, g: Seq<Vec<u32>>, u: int, v: int)
        requires
            self.inv(g),
            self.finishing(g),
            self.lowlink@[self.last_node()] == self.idx(self.last_node()),
            self.above(self.position(self.last_node()), u) || (0 <= u < g.len() && self.closed(u)),
            edge(g, u, v),
        ensures
            self.above(self.position(self.last_node()), v) || (0 <= v < g.len() && self.closed(v)),
    {
        reveal(Search::shaped);
        let c = self.last_node();
        let count = self.frames@.len() as int;
        assert(self.on_stack@[self.frame(count - 1)]);
        self.lemma_position(g, c);
        let at = self.position(c);
        let e = choose|e: int| 0 <= e < g[u]@.len() && #[trigger] g[u]@[e] == v;
        assert(g[u]@[e] < g.len());
        if self.above(at, u) {
            let j = choose|j: int| at <= j < self.stack@.len() && #[trigger] self.node(j) == u;
            assert(self.followed(v, self.lowlink@[c] as int)) by {
                reveal(Search::following);
                if j == at {
                    assert(self.followed(
                        g[self.frame(count - 1)]@[e] as int,
                        self.lowlink@[self.frame(count - 1)] as int,
                    ));
                } else {
                    assert(self.followed(
                        g[self.node(j)]@[e] as int,
                        self.lowlink@[self.frame(count - 1)] as int,
                    ));
                }
            }
            if self.on_stack@[v] {
                let k = choose|k: int|
                    0 <= k < self.stack@.len() && #[trigger] self.node(k) == v;
                assert(self.idx(self.node(k)) >= self.idx(c));
                assert(at <= k && self.node(k) == v);
            }
        } else {
            reveal(Search::closing);
            assert(self.closed(g[u]@[e] as int));
        }
    }

    /// What the nodes above a root reach on the stack is above it too.
    proof fn lemma_above_closed(&self, g: Seq<Vec<u32>>, u: int, v: int)
        requires
            self.inv(g),
            self.finishing(g),
            self.lowlink@[self.last_node()] == self.idx(self.last_node()),
            self.above(self.position(self.last_node()), u),
            reaches(g, u, v),
        ensures
            self.above(self.position(self.last_node()), v) || (0 <= v < g.len() && self.closed(v)),
    {
        let at = self.position(self.last_node());
        let inside = |x: int| self.above(at, x) || (0 <= x < g.len() && self.closed(x));
        assert forall|x: int, y: int| inside(x) && #[trigger] edge(g, x, y) implies inside(y) by {
            self.lemma_above_edges(g, x, y);
        }
        let n = choose|n: nat| path(g, n, u, v);
        lemma_path_stays(g, inside, n, u, v);
    }

    /// Closing the component of a root leaves the state in order.
    proof fn lemma_finish_closed(&self, popped: &Self, before: &Self, g: Seq<Vec<u32>>)
        requires
            before.inv(g),
            before.finishing(g),
            popped.popped_from(before),
            before.lowlink@[before.last_node()] == before.idx(before.last_node()),
            self.closed_from(popped, before.position(before.last_node())),
        ensures
            self.inv(g),
    {
        let c = before.last_node();
        let count = before.frames@.len() as int;
        popped.lemma_popped_facts(before, g);
        before.lemma_position(g, c);
        let at = before.position(c);
        assert(popped.lowlink@ == before.lowlink@);
        assert forall|v: int| #[trigger] popped.above(at, v) == before.above(at, v) by {
            if popped.above(at, v) {
                let j = choose|j: int|
                    at <= j < popped.stack@.len() && #[trigger] popped.node(j) == v;
                assert(before.node(j) == v);
            }
            if before.above(at, v) {
                let j = choose|j: int|
                    at <= j < before.stack@.len() && #[trigger] before.node(j) == v;
                assert(popped.node(j) == v);
            }
        }
        assert forall|j: int| 0 <= j < at implies #[trigger] self.node(j) == before.node(j)
            && !before.above(at, before.node(j)) && 0 <= self.node(j) < g.len() by {
            assert(popped.node(j) == before.node(j));
            if before.above(at, before.node(j)) {
                let k = choose|k: int|
                    at <= k < before.stack@.len() && #[trigger] before.node(k) == before.node(j);
                assert(before.idx(before.node(j)) < before.idx(before.node(k))) by {
                    reveal(Search::shaped);
                }
            }
        }
        assert forall|i: int| 0 <= i < self.frames@.len() implies #[trigger] self.frame(i)
            == before.frame(i) && 0 <= self.frame(i) < g.len() && self.on_stack@[self.frame(i)] by {
            assert(popped.frame(i) == before.frame(i));
            assert(before.on_stack@[before.frame(i)]);
            before.lemma_position(g, before.frame(i));
            assert(before.idx(before.frame(i)) < before.idx(c));
            let k = before.position(before.frame(i));
            assert(before.node(k) == before.frame(i));
            assert(k < at);
            assert(self.node(k) == before.node(k));
            reveal(Search::shaped);
        }
        assert forall|v: int| 0 <= v < g.len() implies #[trigger] self.visited(v)
            == before.visited(v) && self.idx(v) == before.idx(v) by {
            assert(popped.visited(v) == before.visited(v));
        }
        assert(self.shaped(g)) by {
            reveal(Search::shaped);
            assert(self.marks() =~= before.marks());
            assert forall|j: int| 0 <= j < self.stack@.len() implies 0 <= #[trigger] self.node(j)
                < g.len() && self.visited(self.node(j)) && self.on_stack@[self.node(j)] by {
                assert(self.node(j) == before.node(j));
                assert(before.on_stack@[before.node(j)]);
            }
            assert forall|v: int|
                0 <= v < g.len() && #[trigger] self.on_stack@[v] implies self.visited(v)
                && exists|j: int| 0 <= j < self.stack@.len() && #[trigger] self.node(j) == v by {
                assert(before.on_stack@[v]);
                let j = choose|j: int|
                    0 <= j < before.stack@.len() && #[trigger] before.node(j) == v;
                if j >= at {
                    assert(before.above(at, v));
                }
                assert(self.node(j) == v);
            }
            assert forall|j: int, k: int|
                0 <= j < k < self.stack@.len() implies self.idx(#[trigger] self.node(j)) < self.idx(
                #[trigger] self.node(k),
            ) by {
                assert(before.idx(before.node(j)) < before.idx(before.node(k)));
            }
            assert forall|i: int, k: int|
                0 <= i < k < self.frames@.len() implies self.idx(#[trigger] self.frame(i))
                < self.idx(#[trigger] self.frame(k)) by {
                assert(before.idx(before.frame(i)) < before.idx(before.frame(k)));
            }
            assert forall|i: int| 0 <= i < self.frames@.len() implies 0
                <= #[trigger] self.frame(i) < g.len() && self.on_stack@[self.frame(i)]
                && self.frames@[i].1 <= g[self.frame(i)]@.len() by {
                assert(self.frame(i) == before.frame(i));
            }
            assert(before.frame(0) == before.node(0));
            if count == 1 {
                assert(before.node(0) == c);
                assert(before.idx(before.node(0)) == before.idx(c));
            } else {
                assert(self.frame(0) == before.frame(0));
                assert(before.idx(before.frame(0)) < before.idx(c));
                assert(before.idx(before.node(0)) < before.idx(c));
                assert(self.node(0) == before.node(0));
            }
        }
        assert(self.reaching(g)) by {
            reveal(Search::reaching);
            assert forall|i: int, j: int|
                0 <= i < self.frames@.len() && 0 <= j < self.stack@.len() && self.idx(self.node(j))
                    >= self.idx(self.frame(i)) implies #[trigger] reaches(
                g,
                self.frame(i),
                self.node(j),
            ) by {
                assert(reaches(g, before.frame(i), before.node(j)));
            }
            assert forall|j: int|
                0 <= j < self.stack@.len() && !self.is_frame(
                    #[trigger] self.node(j),
                ) implies self.falls_back(g, j) by {
                assert(!before.is_frame(before.node(j))) by {
                    if before.is_frame(before.node(j)) {
                        let i = choose|i: int|
                            0 <= i < count && #[trigger] before.frame(i) == before.node(j);
                        if i < count - 1 {
                            assert(self.frame(i) == self.node(j));
                        } else {
                            assert(before.idx(before.node(j)) == before.idx(c));
                        }
                    }
                }
                assert(before.falls_back(g, j));
                let k = choose|k: int|
                    0 <= k < j && #[trigger] reaches(g, before.node(j), before.node(k));
                assert(reaches(g, self.node(j), self.node(k)));
            }
        }
        assert(self.linked(g)) by {
            reveal(Search::linked);
            assert forall|i: int| 0 <= i < self.frames@.len() implies self.lowlink@[
                #[trigger] self.frame(i)] <= self.idx(self.frame(i)) && self.link_sound(
                g,
                self.frame(i),
            ) by {
                let v = before.frame(i);
                assert(before.lowlink@[v] <= before.idx(v) && before.link_sound(g, v));
                let k = choose|k: int|
                    0 <= k < before.stack@.len() && before.idx(#[trigger] before.node(k))
                        == before.lowlink@[v] && reaches(g, v, before.node(k));
                assert(before.idx(v) < before.idx(c));
                assert(k < at);
                assert(self.idx(self.node(k)) == self.lowlink@[v]);
            }
        }
        assert(self.following(g)) by {
            reveal(Search::following);
            reveal(Search::shaped);
            assert forall|i: int, e: int|
                0 <= i < self.frames@.len() && 0 <= e < self.frames@[i].1 implies self.followed(
                #[trigger] g[self.frame(i)]@[e] as int,
                self.lowlink@[self.frame(i)] as int,
            ) by {
                assert(before.followed(
                    g[before.frame(i)]@[e] as int,
                    before.lowlink@[before.frame(i)] as int,
                ));
                assert(g[self.frame(i)]@[e] < g.len());
            }
            assert forall|i: int, j: int, e: int|
                0 <= i < self.frames@.len() && 0 <= j < self.stack@.len() && self.idx(self.frame(i))
                    < self.idx(self.node(j)) && (i + 1 < self.frames@.len() ==> self.idx(
                    self.node(j),
                ) < self.idx(self.frame(i + 1))) && 0 <= e < g[self.node(
                    j,
                )]@.len() implies self.followed(
                #[trigger] g[self.node(j)]@[e] as int,
                self.lowlink@[#[trigger] self.frame(i)] as int,
            ) by {
                assert(g[self.node(j)]@[e] < g.len());
                if i + 1 < self.frames@.len() {
                    assert(self.frame(i + 1) == before.frame(i + 1));
                } else {
                    assert(before.frame(i + 1) == c);
                    assert(before.idx(before.node(j)) < before.idx(c));
                }
                assert(before.followed(
                    g[before.node(j)]@[e] as int,
                    before.lowlink@[before.frame(i)] as int,
                ));
            }
        }
        self.lemma_finish_closing(popped, before, g);
    }

    /// Closing the component of a root keeps the components right.
    proof fn lemma_finish_closing(&self, popped: &Self, before: &Self, g: Seq<Vec<u32>>)
        requires
            before.inv(g),
            before.finishing(g),
            popped.popped_from(before),
            before.lowlink@[before.last_node()] == before.idx(before.last_node()),
            self.closed_from(popped, before.position(before.last_node())),
            forall|v: int|
                #[trigger] popped.above(before.position(before.last_node()), v) == before.above(
                    before.position(before.last_node()),
                    v,
                ),
        ensures
            self.closing(g),
    {
        let c = before.last_node();
        let count = before.frames@.len() as int;
        popped.lemma_popped_facts(before, g);
        before.lemma_position(g, c);
        let at = before.position(c);
        reveal(Search::shaped);
        assert forall|v: int| 0 <= v < g.len() implies #[trigger] self.closed(v) == (before.closed(v)
            || before.above(at, v)) by {
            assert(popped.visited(v) == before.visited(v));
            assert(popped.above(at, v) == before.above(at, v));
            if before.above(at, v) {
                let j = choose|j: int|
                    at <= j < before.stack@.len() && #[trigger] before.node(j) == v;
                assert(before.on_stack@[before.node(j)]);
            }
        }
        assert forall|v: int| #[trigger] before.above(at, v) implies 0 <= v < g.len() && reaches(
            g,
            c,
            v,
        ) && reaches(g, v, c) by {
            let j = choose|j: int| at <= j < before.stack@.len() && #[trigger] before.node(j) == v;
            before.lemma_above_reaches(g, j);
            reveal(Search::reaching);
            assert(before.frame(count - 1) == c);
            assert(reaches(g, before.frame(count - 1), before.node(j)));
        }
        assert forall|v: int, x: int|
            0 <= v < g.len() && self.closed(v) && 0 <= x < g[v]@.len() implies self.closed(
            #[trigger] g[v]@[x] as int,
        ) by {
            let s = g[v]@[x] as int;
            assert(g[v]@[x] < g.len());
            assert(edge(g, v, s));
            before.lemma_above_edges(g, v, s);
        }
        assert forall|v: int| 0 <= v < g.len() && #[trigger] self.closed(v) implies
            self.component@[v] < self.components by {
            assert(popped.above(at, v) == before.above(at, v));
            if before.closed(v) {
                reveal(Search::closing);
            }
        }
        assert forall|u: int, v: int|
            0 <= u < g.len() && 0 <= v < g.len() && #[trigger] self.closed(u)
                && #[trigger] self.closed(v) implies (self.component@[u] == self.component@[v]
            <==> mutual(g, u, v)) by {
            assert(popped.above(at, u) == before.above(at, u));
            assert(popped.above(at, v) == before.above(at, v));
            let (low, high) = (before.above(at, u), before.above(at, v));
            if low && high {
                lemma_reaches_join(g, u, c, v);
                lemma_reaches_join(g, v, c, u);
            } else if low || high {
                reveal(Search::closing);
                if mutual(g, u, v) {
                    if low {
                        before.lemma_closed_reach(g, v, u);
                    } else {
                        before.lemma_closed_reach(g, u, v);
                    }
                    let x = if low {
                        u
                    } else {
                        v
                    };
                    let j = choose|j: int|
                        at <= j < before.stack@.len() && #[trigger] before.node(j) == x;
                    assert(before.on_stack@[before.node(j)]);
                }
            } else {
                reveal(Search::closing);
                assert(before.closed(u) && before.closed(v));
            }
        }
        reveal(Search::closing);
    }

    /// Takes the stack down to `node`, and closes what was on it as a component.
    fn close(&mut self, node: usize, Ghost(at): Ghost<int>)
        requires
            0 <= at < old(self).stack@.len(),
            old(self).node(at) == node,
            forall|j: int|
                0 <= j < old(self).stack@.len() ==> (#[trigger] old(self).stack@[j])
                    < old(self).on_stack@.len(),
            forall|j: int, k: int|
                0 <= j < k < old(self).stack@.len() ==> old(self).stack@[j] != old(self).stack@[k],
            old(self).on_stack@.len() == old(self).component@.len(),
            old(self).components < usize::MAX,
        ensures
            final(self).closed_from(old(self), at),
    {
        let ghost before = *self;
        let id: usize = self.components;
        let mut open = true;
        while open
            invariant
                *old(self) == before,
                0 <= at < before.stack@.len(),
                before.node(at) == node,
                forall|j: int|
                    0 <= j < before.stack@.len() ==> (#[trigger] before.stack@[j])
                        < before.on_stack@.len(),
                forall|j: int, k: int|
                    0 <= j < k < before.stack@.len() ==> before.stack@[j] != before.stack@[k],
                before.on_stack@.len() == before.component@.len(),
                id == before.components == self.components,
                self.next_index == before.next_index,
                self.indices == before.indices,
                self.lowlink == before.lowlink,
                self.frames == before.frames,
                self.on_stack@.len() == before.on_stack@.len(),
                self.component@.len() == before.component@.len(),
                at <= self.stack@.len() <= before.stack@.len(),
                open <==> self.stack@.len() > at,
                self.stack@ == before.stack@.take(self.stack@.len() as int),
                forall|v: int|
                    0 <= v < self.on_stack@.len() ==> #[trigger] self.on_stack@[v] == (
                    before.on_stack@[v] && !before.above(self.stack@.len() as int, v)),
                forall|v: int|
                    0 <= v < self.component@.len() ==> #[trigger] self.component@[v] == (
                    if before.above(self.stack@.len() as int, v) {
                        id
                    } else {
                        before.component@[v]
                    }),
            decreases self.stack@.len(),
        {
            let ghost middle = *self;
            let ghost top = self.stack@.len() - 1;
            match self.stack.pop() {
                Some(member) => {
                    assert(member == before.stack@[top]);
                    self.on_stack[member] = false;
                    self.component[member] = id;
                    proof {
                        assert forall|v: int| #[trigger] before.above(top, v) <==> (before.above(
                            top + 1,
                            v,
                        ) || v == member) by {
                            if before.above(top, v) {
                                let j = choose|j: int|
                                    top <= j < before.stack@.len() && #[trigger] before.node(j)
                                        == v;
                                if j > top {
                                    assert(before.node(j) == v);
                                }
                            }
                            if before.above(top + 1, v) {
                                let j = choose|j: int|
                                    top + 1 <= j < before.stack@.len() && #[trigger] before.node(j)
                                        == v;
                                assert(before.node(j) == v);
                            }
                            if v == member {
                                assert(before.node(top) == v);
                            }
                        }
                        assert(self.stack@ =~= before.stack@.take(top));
                        if member == node && top > at {
                            assert(before.stack@[at] != before.stack@[top]);
                        }
                    }
                    if member == node {
                        open = false;
                    }
                },
                None => {
                    open = false;
                },
            }
        }
        self.components = id + 1;
        assert(self.stack@.len() == at);
    }

    /// Finishes the last frame, which has no edge left.
    fn finish(&mut self, graph: &Vec<Vec<u32>>)
        requires
            old(self).inv(graph@),
            old(self).finishing(graph@),
            old(self).components + old(self).stack@.len() <= graph@.len(),
        ensures
            final(self).inv(graph@),
            final(self).frames@ == old(self).frames@.drop_last(),
            final(self).indices == old(self).indices,
            final(self).next_index == old(self).next_index,
            final(self).components + final(self).stack@.len() <= old(self).components + old(
                self,
            ).stack@.len(),
    {
        let ghost before = *self;
        let ghost g = graph@;
        let last: usize = self.frames.len() - 1;
        let (completed, _) = self.frames[last];
        proof {
            reveal(Search::shaped);
            assert(before.frame(last as int) == completed);
            assert(before.on_stack@[before.frame(last as int)]);
            if last > 0 {
                assert(before.on_stack@[before.frame(last - 1)]);
            }
        }
        self.frames.pop();
        assert(self.frames@ =~= before.frames@.drop_last());
        if last > 0 {
            let (parent, _) = self.frames[last - 1];
            assert(before.frame(last - 1) == parent);
            if self.lowlink[completed] < self.lowlink[parent] {
                self.lowlink[parent] = self.lowlink[completed];
            }
        }
        let ghost popped = *self;
        let index: usize = match self.indices[completed] {
            Some(index) => index,
            None => 0,
        };
        proof {
            assert(popped.popped_from(&before));
            popped.lemma_popped_facts(&before, g);
            assert(index == before.idx(completed as int));
        }
        if self.lowlink[completed] == index {
            proof {
                before.lemma_position(g, completed as int);
                assert forall|j: int, k: int| 0 <= j < k < self.stack@.len() implies self.stack@[j]
                    != self.stack@[k] by {
                    assert(before.idx(before.node(j)) < before.idx(before.node(k)));
                }
                assert forall|j: int| 0 <= j < self.stack@.len() implies (#[trigger] self.stack@[j])
                    < self.on_stack@.len() by {
                    assert(before.node(j) < g.len());
                }
                assert(popped.node(before.position(completed as int)) == completed);
                assert(self.components < graph.len());
            }
            self.close(completed, Ghost(before.position(completed as int)));
            proof {
                self.lemma_finish_closed(&popped, &before, g);
            }
        } else {
            proof {
                self.lemma_finish_open(&before, g);
            }
        }
    }

    /// What closed nodes reach is closed.
    proof fn lemma_closed_reach(&self, g: Seq<Vec<u32>>, u: int, v: int)
        requires
            self.inv(g),
            0 <= u < g.len(),
            self.closed(u),
            reaches(g, u, v),
        ensures
            0 <= v < g.len(),
            self.closed(v),
    {
        reveal(Search::shaped);
        reveal(Search::closing);
        let inside = |x: int| 0 <= x < g.len() && self.closed(x);
        assert forall|x: int, y: int| inside(x) && #[trigger] edge(g, x, y) implies inside(y) by {
            let e = choose|e: int| 0 <= e < g[x]@.len() && #[trigger] g[x]@[e] == y;
            assert(self.closed(g[x]@[e] as int));
            assert(g[x]@[e] < g.len());
        }
        let n = choose|n: nat| path(g, n, u, v);
        lemma_path_stays(g, inside, n, u, v);
    }
}

/// The nonterminals that the productions of each nonterminal refer to, in ascending order.
pub fn dependency_graph(grammar: &Grammar) -> (graph: Vec<Vec<NonterminalId>>)
    requires
        grammar.refers_within(),
        grammar.nonterminals@.len() <= u32::MAX + 1,
    ensures
        graph@.len() == grammar.nonterminals@.len(),
        graph_ok(graph@),
        forall|a: int|
            0 <= a < graph@.len() ==> sorting::ascending((#[trigger] graph@[a])@),
        forall|a: u32, b: u32|
            a < graph@.len() ==> (#[trigger] graph@[a as int]@.contains(b) <==> depends(
                grammar,
                a,
                b,
            )),
{
    let mut graph: Vec<Vec<NonterminalId>> = count::empty_lists(grammar.nonterminals.len());
    let mut index: usize = 0;
    while index < grammar.productions.len()
        invariant
            index <= grammar.productions@.len(),
            grammar.refers_within(),
            graph@.len() == grammar.nonterminals@.len(),
            forall|a: u32, b: u32|
                a < graph@.len() ==> (#[trigger] graph@[a as int]@.contains(b) <==> depends_among(
                    grammar,
                    index as int,
                    a,
                    b,
                )),
        decreases grammar.productions@.len() - index,
    {
        let ghost before = graph@;
        let ghost rhs = grammar.productions@[index as int].rhs@;
        let lhs: u32 = grammar.productions[index].lhs;
        let mut position: usize = 0;
        while position < grammar.productions[index].rhs.len()
            invariant
                position <= rhs.len(),
                index < grammar.productions@.len(),
                rhs == grammar.productions@[index as int].rhs@,
                lhs == grammar.productions@[index as int].lhs,
                lhs < graph@.len() == grammar.nonterminals@.len() == before.len(),
                forall|a: u32, b: u32|
                    a < graph@.len() ==> (#[trigger] graph@[a as int]@.contains(b) <==> (
                    before[a as int]@.contains(b) || (a == lhs && rhs.take(
                        position as int,
                    ).contains(Symbol::Nonterminal(b))))),
            decreases rhs.len() - position,
        {
            let ghost then = graph@;
            if let Symbol::Nonterminal(target) = grammar.productions[index].rhs[position] {
                graph[lhs as usize].push(target);
            }
            proof {
                assert(rhs.take(position + 1) =~= rhs.take(position as int).push(
                    rhs[position as int],
                ));
                assert forall|a: u32, b: u32| a < graph@.len() implies (
                #[trigger] graph@[a as int]@.contains(b) <==> (before[a as int]@.contains(b) || (a
                    == lhs && rhs.take(position + 1).contains(Symbol::Nonterminal(b))))) by {
                    crate::earley::lemma_push_contains(
                        rhs.take(position as int),
                        rhs[position as int],
                        Symbol::Nonterminal(b),
                    );
                    assert(then[a as int]@.contains(b) <==> (before[a as int]@.contains(b) || (a
                        == lhs && rhs.take(position as int).contains(Symbol::Nonterminal(b)))));
                    if let Symbol::Nonterminal(target) = rhs[position as int] {
                        crate::earley::lemma_push_contains(then[lhs as int]@, target, b);
                    }
                }
            }
            position += 1;
        }
        proof {
            assert(rhs.take(rhs.len() as int) =~= rhs);
            assert forall|a: u32, b: u32| a < graph@.len() implies (
            #[trigger] graph@[a as int]@.contains(b) <==> depends_among(
                grammar,
                index + 1,
                a,
                b,
            )) by {
                assert(before[a as int]@.contains(b) <==> depends_among(
                    grammar,
                    index as int,
                    a,
                    b,
                ));
                lemma_depends_step(grammar, index as int, a, b);
            }
        }
        index += 1;
    }
    let mut sorted: Vec<Vec<NonterminalId>> = Vec::new();
    let mut node: usize = 0;
    while node < graph.len()
        invariant
            node == sorted@.len() <= graph@.len(),
            forall|a: int|
                0 <= a < node ==> sorting::ascending((#[trigger] sorted@[a])@),
            forall|a: u32, b: u32|
                a < node ==> (#[trigger] sorted@[a as int]@.contains(b)
                    <==> graph@[a as int]@.contains(b)),
        decreases graph@.len() - node,
    {
        let edges = graph[node].clone();
        assert(edges@ =~= graph@[node as int]@);
        let ghost before = sorted@;
        sorted.push(sorting::sorted_unique(edges));
        assert forall|a: u32, b: u32| a < node + 1 implies (
        #[trigger] sorted@[a as int]@.contains(b) <==> graph@[a as int]@.contains(b)) by {
            if a < node {
                assert(before[a as int]@.contains(b) <==> graph@[a as int]@.contains(b));
            }
        }
        node += 1;
    }
    proof {
        assert forall|a: int, e: int|
            0 <= a < sorted@.len() && 0 <= e < sorted@[a]@.len() implies (
        #[trigger] sorted@[a]@[e]) < sorted@.len() by {
            let b = sorted@[a]@[e];
            assert(sorted@[a]@.contains(b));
            assert(sorted@[(a as u32) as int]@.contains(b));
            assert(graph@[(a as u32) as int]@.contains(b));
            let p = choose|p: int|
                0 <= p < grammar.productions@.len() && (#[trigger] grammar.productions@[p]).lhs
                    == a as u32 && grammar.productions@[p].rhs@.contains(Symbol::Nonterminal(b));
            let rhs = grammar.productions@[p].rhs@;
            let i = choose|i: int| 0 <= i < rhs.len() && rhs[i] == Symbol::Nonterminal(b);
            assert(residual::symbol_in(
                rhs[i],
                grammar.nonterminals@.len(),
                grammar.terminals@.len(),
            ));
        }
        assert forall|a: u32, b: u32| a < sorted@.len() implies (
        #[trigger] sorted@[a as int]@.contains(b) <==> depends(grammar, a, b)) by {
            assert(graph@[a as int]@.contains(b) <==> depends_among(
                grammar,
                grammar.productions@.len() as int,
                a,
                b,
            ));
        }
    }
    sorted
}

/// Whether one of the first `count` productions of `a` refers to `b`.
pub open spec fn depends_among(grammar: &Grammar, count: int, a: u32, b: u32) -> bool {
    exists|p: int|
        0 <= p < count && (#[trigger] grammar.productions@[p]).lhs == a
            && grammar.productions@[p].rhs@.contains(Symbol::Nonterminal(b))
}

/// Whether a production of `a` refers to `b`.
pub open spec fn depends(grammar: &Grammar, a: u32, b: u32) -> bool {
    depends_among(grammar, grammar.productions@.len() as int, a, b)
}

proof fn lemma_depends_step(grammar: &Grammar, count: int, a: u32, b: u32)
    requires
        0 <= count < grammar.productions@.len(),
    ensures
        depends_among(grammar, count + 1, a, b) <==> depends_among(grammar, count, a, b) || (
        grammar.productions@[count].lhs == a && grammar.productions@[count].rhs@.contains(
            Symbol::Nonterminal(b),
        )),
{
    if depends_among(grammar, count, a, b) {
        let p = choose|p: int|
            0 <= p < count && (#[trigger] grammar.productions@[p]).lhs == a
                && grammar.productions@[p].rhs@.contains(Symbol::Nonterminal(b));
        assert(grammar.productions@[p].lhs == a);
    }
}

/// The strongly connected components of a graph, as a number for every node.
fn component_numbers(graph: &Vec<Vec<NonterminalId>>) -> (component: Vec<usize>)
    requires
        graph_ok(graph@),
    ensures
        component@.len() == graph@.len(),
        forall|u: int, v: int|
            0 <= u < graph@.len() && 0 <= v < graph@.len() ==> (#[trigger] component@[u]
                == #[trigger] component@[v] <==> mutual(graph@, u, v)),
        forall|v: int| 0 <= v < graph@.len() ==> #[trigger] component@[v] < graph@.len(),
{
    let mut search = Search::new(graph);
    let mut root: usize = 0;
    while root < graph.len()
        invariant
            root <= graph@.len(),
            search.inv(graph@),
            search.frames@.len() == 0,
            search.components + search.stack@.len() <= search.next_index <= graph@.len(),
            forall|v: int| 0 <= v < root ==> #[trigger] search.visited(v),
        decreases graph@.len() - root,
    {
        proof {
            search.lemma_lengths(graph@);
        }
        let fresh = match search.indices[root] {
            Some(_) => false,
            None => true,
        };
        if fresh {
            let ghost before = search;
            search.visit(graph, root);
            proof {
                search.lemma_lengths(graph@);
            }
            while search.frames.len() > 0
                invariant
                    search.inv(graph@),
                    search.components + search.stack@.len() <= search.next_index <= graph@.len(),
                    root < graph@.len(),
                    forall|v: int| 0 <= v <= root ==> #[trigger] search.visited(v),
                decreases
                    graph@.len() - search.next_index,
                    pending(graph@, search.frames@),
            {
                let last: usize = search.frames.len() - 1;
                let (node, e) = search.frames[last];
                let ghost middle = search;
                proof {
                    search.lemma_frame(graph@, last as int);
                    search.lemma_lengths(graph@);
                }
                if e < graph[node].len() {
                    let target: usize = graph[node][e] as usize;
                    let unvisited = match search.indices[target] {
                        Some(_) => false,
                        None => true,
                    };
                    if unvisited {
                        search.visit(graph, target);
                        proof {
                            search.lemma_lengths(graph@);
                            assert forall|v: int| 0 <= v <= root implies #[trigger] search.visited(
                                v,
                            ) by {
                                assert(middle.visited(v));
                            }
                        }
                    } else {
                        search.follow(graph, target);
                        proof {
                            lemma_pending_follow(graph@, middle.frames@);
                            assert forall|v: int| 0 <= v <= root implies #[trigger] search.visited(
                                v,
                            ) by {
                                assert(middle.visited(v));
                            }
                        }
                    }
                } else {
                    search.finish(graph);
                    proof {
                        assert forall|v: int| 0 <= v <= root implies #[trigger] search.visited(
                            v,
                        ) by {
                            assert(middle.visited(v));
                        }
                    }
                }
            }
        }
        root += 1;
    }
    proof {
        search.lemma_all_closed(graph@);
        reveal(Search::closing);
        reveal(Search::shaped);
        assert forall|u: int, v: int|
            0 <= u < graph@.len() && 0 <= v < graph@.len() implies (
        #[trigger] search.component@[u] == #[trigger] search.component@[v] <==> mutual(
            graph@,
            u,
            v,
        )) by {
            assert(search.closed(u) && search.closed(v));
        }
        assert forall|v: int| 0 <= v < graph@.len() implies #[trigger] search.component@[v]
            < graph@.len() by {
            assert(search.closed(v));
        }
    }
    search.component
}

/// How much is left to do in the frames.
spec fn pending(graph: Seq<Vec<u32>>, frames: Seq<(usize, usize)>) -> nat
    decreases frames.len(),
{
    if frames.len() == 0 {
        0
    } else {
        pending(graph, frames.drop_last()) + 1 + (if frames.last().1
            <= graph[frames.last().0 as int]@.len() {
            (graph[frames.last().0 as int]@.len() - frames.last().1) as nat
        } else {
            0
        })
    }
}

proof fn lemma_pending_follow(graph: Seq<Vec<u32>>, frames: Seq<(usize, usize)>)
    requires
        frames.len() > 0,
        frames.last().1 < graph[frames.last().0 as int]@.len(),
    ensures
        pending(
            graph,
            frames.update(frames.len() - 1, (frames.last().0, (frames.last().1 + 1) as usize)),
        ) < pending(graph, frames),
{
    let more = frames.update(frames.len() - 1, (frames.last().0, (frames.last().1 + 1) as usize));
    assert(more.drop_last() =~= frames.drop_last());
    assert(graph[frames.last().0 as int].len() <= usize::MAX);
}

impl Search {
    proof fn lemma_lengths(&self, g: Seq<Vec<u32>>)
        requires
            self.inv(g),
        ensures
            self.indices@.len() == g.len(),
            self.next_index <= g.len(),
            (exists|v: int| 0 <= v < g.len() && !#[trigger] self.visited(v)) ==> self.next_index
                < g.len(),
            self.frames@.len() == 0 ==> self.stack@.len() == 0,
    {
        reveal(Search::shaped);
        count::lemma_count_bound(self.marks());
        if exists|v: int| 0 <= v < g.len() && !#[trigger] self.visited(v) {
            let v = choose|v: int| 0 <= v < g.len() && !#[trigger] self.visited(v);
            assert(!self.marks()[v]);
        }
    }

    proof fn lemma_frame(&self, g: Seq<Vec<u32>>, i: int)
        requires
            self.inv(g),
            0 <= i < self.frames@.len(),
        ensures
            graph_ok(g),
            0 <= self.frame(i) < g.len(),
            self.frames@[i].1 <= g[self.frame(i)]@.len(),
            forall|e: int|
                0 <= e < g[self.frame(i)]@.len() ==> #[trigger] g[self.frame(i)]@[e] < g.len(),
    {
        reveal(Search::shaped);
        assert(self.on_stack@[self.frame(i)]);
    }

    /// When every node was visited and no frame is left, every node is closed.
    proof fn lemma_all_closed(&self, g: Seq<Vec<u32>>)
        requires
            self.inv(g),
            self.frames@.len() == 0,
            forall|v: int| 0 <= v < g.len() ==> #[trigger] self.visited(v),
        ensures
            forall|v: int| 0 <= v < g.len() ==> #[trigger] self.closed(v),
    {
        reveal(Search::shaped);
        assert forall|v: int| 0 <= v < g.len() implies #[trigger] self.closed(v) by {
            assert(self.visited(v));
            if self.on_stack@[v] {
                let j = choose|j: int| 0 <= j < self.stack@.len() && #[trigger] self.node(j) == v;
            }
        }
    }
}

impl SccAnalysis {
    /// Whether the components are those of the graph: numbered by their smallest members, which
    /// ascend, and each with its members in ascending order.
    pub open spec fn exact(&self, graph: Seq<Vec<u32>>) -> bool {
        let count = self.components@.len();
        &&& self.component_of@.len() == graph.len()
        &&& forall|a: int| 0 <= a < graph.len() ==> #[trigger] self.component_of@[a] < count
        &&& forall|a: int, b: int|
            0 <= a < graph.len() && 0 <= b < graph.len() ==> (#[trigger] self.component_of@[a]
                == #[trigger] self.component_of@[b] <==> mutual(graph, a, b))
        &&& forall|c: int| 0 <= c < count ==> self.component_exact(graph, c)
        &&& forall|c: int, d: int|
            0 <= c < d < count ==> (#[trigger] self.components@[c]).members@[0] < (
            #[trigger] self.components@[d]).members@[0]
    }

    /// Whether a component's members are the nodes numbered so, and it is recursive exactly if one
    /// of them reaches itself over an edge.
    pub open spec fn component_exact(&self, graph: Seq<Vec<u32>>, c: int) -> bool {
        let component = self.components@[c];
        &&& component.id == c
        &&& component.members@.len() > 0
        &&& sorting::ascending(component.members@)
        &&& forall|a: u32| #[trigger]
            component.members@.contains(a) <==> a < graph.len() && self.component_of@[a as int] == c
        &&& component.recursive <==> component.members@.len() > 1 || edge(
            graph,
            component.members@[0] as int,
            component.members@[0] as int,
        )
    }
}

/// Groups the nodes by number, the groups in the order of their smallest members.
fn group(graph: &Vec<Vec<NonterminalId>>, numbers: &Vec<usize>) -> (analysis: SccAnalysis)
    requires
        graph_ok(graph@),
        numbers@.len() == graph@.len(),
        forall|v: int| 0 <= v < graph@.len() ==> #[trigger] numbers@[v] < graph@.len(),
        forall|u: int, v: int|
            0 <= u < graph@.len() && 0 <= v < graph@.len() ==> (#[trigger] numbers@[u]
                == #[trigger] numbers@[v] <==> mutual(graph@, u, v)),
        forall|a: int| 0 <= a < graph@.len() ==> sorting::ascending((#[trigger] graph@[a])@),
    ensures
        analysis.exact(graph@),
{
    let mut assigned: Vec<Option<u32>> = Vec::new();
    let mut made: usize = 0;
    while made < graph.len()
        invariant
            made == assigned@.len() <= graph@.len(),
            forall|v: int| 0 <= v < made ==> #[trigger] assigned@[v] is None,
        decreases graph@.len() - made,
    {
        assigned.push(None);
        made += 1;
    }
    let mut members: Vec<Vec<NonterminalId>> = Vec::new();
    let mut component_of: Vec<SccId> = Vec::new();
    let mut node: usize = 0;
    while node < graph.len()
        invariant
            graph_ok(graph@),
            node == component_of@.len() <= graph@.len() == numbers@.len() == assigned@.len(),
            members@.len() <= node,
            forall|v: int| 0 <= v < graph@.len() ==> #[trigger] numbers@[v] < graph@.len(),
            forall|v: int|
                0 <= v < node ==> assigned@[numbers@[v] as int] == Some(
                    #[trigger] component_of@[v],
                ),
            forall|x: int|
                0 <= x < assigned@.len() ==> (#[trigger] assigned@[x] matches Some(c) ==> c
                    < members@.len() && members@[c as int]@.len() > 0 && numbers@[members@[c as int]@[0] as int]
                    == x),
            forall|c: int|
                0 <= c < members@.len() ==> (#[trigger] members@[c])@.len() > 0
                    && sorting::ascending(members@[c]@),
            forall|c: int, a: u32|
                0 <= c < members@.len() ==> (#[trigger] members@[c]@.contains(a) <==> a < node
                    && component_of@[a as int] == c),
            forall|c: int, d: int|
                0 <= c < d < members@.len() ==> (#[trigger] members@[c])@[0] < (
                #[trigger] members@[d])@[0],
        decreases graph@.len() - node,
    {
        let number: usize = numbers[node];
        let ghost before = members@;
        let ghost before_of = component_of@;
        let ghost before_assigned = assigned@;
        let c: u32 = match assigned[number] {
            Some(c) => c,
            None => {
                let c: u32 = members.len() as u32;
                assigned[number] = Some(c);
                members.push(Vec::new());
                c
            },
        };
        let ghost opened = members@;
        proof {
            assert forall|d: int| 0 <= d < before.len() implies #[trigger] opened[d] == before[d] by {}
            assert(c < opened.len());
        }
        members[c as usize].push(node as u32);
        component_of.push(c);
        proof {
            let list = opened[c as int]@;
            assert(list.len() > 0 <==> before_assigned[number as int] is Some);
            assert forall|i: int| 0 <= i < list.len() implies #[trigger] list[i] < node by {
                assert(before[c as int]@.contains(list[i]));
            }
            assert forall|d: int, a: u32| 0 <= d < members@.len() implies (
            #[trigger] members@[d]@.contains(a) <==> a < node + 1 && component_of@[a as int]
                == d) by {
                if d == c {
                    crate::earley::lemma_push_contains(list, node as u32, a);
                    if c < before.len() {
                        assert(before[d]@.contains(a) <==> a < node && before_of[a as int] == d);
                    } else {
                        assert(!list.contains(a));
                        if a < node {
                            assert(assigned@[numbers@[a as int] as int] == Some(before_of[a as int])
                                || true);
                            assert(before_assigned[numbers@[a as int] as int] == Some(
                                before_of[a as int],
                            ));
                        }
                    }
                } else {
                    assert(before[d]@.contains(a) <==> a < node && before_of[a as int] == d);
                }
            }
            assert forall|d: int| 0 <= d < members@.len() implies (#[trigger] members@[d])@.len()
                > 0 && sorting::ascending(members@[d]@) by {
                if d != c {
                    assert(before[d]@.len() > 0);
                } else if c < before.len() {
                    assert(sorting::ascending(before[d]@));
                }
            }
            assert forall|v: int| 0 <= v < node + 1 implies assigned@[numbers@[v] as int] == Some(
                #[trigger] component_of@[v],
            ) by {
                if v < node {
                    assert(before_assigned[numbers@[v] as int] == Some(before_of[v]));
                }
            }
            assert forall|x: int| 0 <= x < assigned@.len() implies (
            #[trigger] assigned@[x] matches Some(d) ==> d < members@.len()
                && members@[d as int]@.len() > 0 && numbers@[members@[d as int]@[0] as int]
                == x) by {
                if let Some(d) = assigned@[x] {
                    if before_assigned[x] is Some {
                        assert(before[d as int]@.len() > 0);
                        if d == c {
                            assert(members@[d as int]@[0] == before[d as int]@[0]);
                        }
                    } else {
                        assert(x == number && d == c);
                        assert(members@[d as int]@[0] == node);
                    }
                }
            }
            assert forall|d: int, e: int| 0 <= d < e < members@.len() implies (
            #[trigger] members@[d])@[0] < (#[trigger] members@[e])@[0] by {
                if e < before.len() {
                    assert(before[d]@[0] < before[e]@[0]);
                    assert(members@[d]@[0] == before[d]@[0]);
                    assert(members@[e]@[0] == before[e]@[0]);
                } else {
                    assert(before[d]@.contains(before[d]@[0]));
                    assert(members@[d]@[0] == before[d]@[0]);
                    assert(members@[e]@[0] == node);
                }
            }
        }
        node += 1;
    }
    let mut components: Vec<Scc> = Vec::new();
    let mut index: usize = 0;
    let ghost all = members@;
    while index < members.len()
        invariant
            graph_ok(graph@),
            index == components@.len() <= members@.len() <= graph@.len(),
            members@ == all,
            forall|a: int| 0 <= a < graph@.len() ==> sorting::ascending((#[trigger] graph@[a])@),
            forall|c: int|
                0 <= c < all.len() ==> (#[trigger] all[c])@.len() > 0 && sorting::ascending(
                    all[c]@,
                ),
            forall|c: int, a: u32|
                0 <= c < all.len() ==> (#[trigger] all[c]@.contains(a) ==> a < graph@.len()),
            forall|c: int|
                0 <= c < index ==> {
                    let component = #[trigger] components@[c];
                    &&& component.id == c
                    &&& component.members@ == all[c]@
                    &&& component.recursive <==> all[c]@.len() > 1 || edge(
                        graph@,
                        all[c]@[0] as int,
                        all[c]@[0] as int,
                    )
                },
        decreases members@.len() - index,
    {
        let list = members[index].clone();
        assert(list@ =~= all[index as int]@);
        assert(all[index as int]@.contains(all[index as int]@[0]));
        let first: u32 = list[0];
        let recursive = list.len() > 1 || contains_edge(graph, first as usize, first);
        components.push(Scc { id: index as u32, members: list, recursive });
        index += 1;
    }
    let analysis = SccAnalysis { components, component_of };
    proof {
        assert forall|a: int, b: int| 0 <= a < graph@.len() && 0 <= b < graph@.len() implies (
        #[trigger] analysis.component_of@[a] == #[trigger] analysis.component_of@[b] <==> mutual(
            graph@,
            a,
            b,
        )) by {
            assert(assigned@[numbers@[a] as int] == Some(component_of@[a]));
            assert(assigned@[numbers@[b] as int] == Some(component_of@[b]));
            assert(numbers@[a] == numbers@[b] <==> mutual(graph@, a, b));
        }
        assert forall|c: int| 0 <= c < analysis.components@.len() implies analysis.component_exact(
            graph@,
            c,
        ) by {
            let component = analysis.components@[c];
            assert forall|a: u32| #[trigger] component.members@.contains(a) <==> a < graph@.len()
                && analysis.component_of@[a as int] == c by {
                assert(all[c]@.contains(a) <==> a < node && component_of@[a as int] == c);
            }
        }
        assert forall|a: int| 0 <= a < graph@.len() implies #[trigger] analysis.component_of@[a]
            < analysis.components@.len() by {
            assert(assigned@[numbers@[a] as int] == Some(component_of@[a]));
        }
    }
    analysis
}

/// Whether a list of edges holds `target`.
fn contains_edge(graph: &Vec<Vec<NonterminalId>>, node: usize, target: u32) -> (found: bool)
    requires
        node < graph@.len(),
        graph_ok(graph@),
    ensures
        found == edge(graph@, node as int, target as int),
{
    let mut index: usize = 0;
    while index < graph[node].len()
        invariant
            node < graph@.len(),
            index <= graph@[node as int]@.len(),
            forall|e: int| 0 <= e < index ==> #[trigger] graph@[node as int]@[e] != target,
        decreases graph@[node as int]@.len() - index,
    {
        if graph[node][index] == target {
            return true;
        }
        index += 1;
    }
    false
}

/// The strongly connected components of a grammar's dependency graph.
pub fn analyze_sccs(grammar: &Grammar) -> (result: Result<SccAnalysis, CompileError>)
    requires
        grammar.wf(),
    ensures
        result matches Ok(analysis) && analysis_exact(grammar, &analysis),
{
    proof {
        reduction::lemma_id_bound(grammar);
        assert forall|p: int, i: int|
            0 <= p < grammar.productions@.len() && 0 <= i
                < grammar.productions@[p].rhs@.len() implies (
        #[trigger] grammar.productions@[p].rhs@[i] matches Symbol::Nonterminal(a) ==> a
            < grammar.nonterminals@.len()) by {
            assert(residual::symbols_in(
                grammar.productions@[p].rhs@,
                grammar.nonterminals@.len(),
                grammar.terminals@.len(),
            ));
        }
    }
    let graph = dependency_graph(grammar);
    let numbers = component_numbers(&graph);
    Ok(group(&graph, &numbers))
}

/// Whether an analysis is that of a grammar's dependency graph.
pub open spec fn analysis_exact(grammar: &Grammar, analysis: &SccAnalysis) -> bool {
    exists|graph: Seq<Vec<u32>>|
        graph_of(grammar, graph) && #[trigger] analysis.exact(graph)
}

/// Whether a graph has the dependencies of a grammar's nonterminals as its edges.
pub open spec fn graph_of(grammar: &Grammar, graph: Seq<Vec<u32>>) -> bool {
    &&& graph.len() == grammar.nonterminals@.len()
    &&& graph_ok(graph)
    &&& forall|a: u32, b: u32|
        a < graph.len() ==> (#[trigger] graph[a as int]@.contains(b) <==> depends(grammar, a, b))
}

} // verus!
