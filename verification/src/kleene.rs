//! Paths through labelled edges, and their elimination one state at a time.

use vstd::prelude::*;

use crate::derivation;

verus! {

/// The labels of edges: whether the edge from one state to another reads from one position to
/// another.
pub type Edges = spec_fn(int, int, int, int) -> bool;

/// Marks a step of a path: the state and the position after it.
pub open spec fn step_at(x: int, k: int) -> bool {
    true
}

/// Whether a path of `n` edges leads from `s` to `t` over states below `p`, and reads from `i` to
/// `j`. With `flip`, what comes first on the path is read last.
pub open spec fn path(
    edge: Edges,
    flip: bool,
    p: int,
    n: nat,
    s: int,
    t: int,
    i: int,
    j: int,
) -> bool
    decreases n,
{
    if n == 0 {
        false
    } else if n == 1 {
        edge(s, t, i, j)
    } else {
        exists|x: int, k: int| #[trigger]
            step_at(x, k) && 0 <= x < p && if flip {
                path(edge, flip, p, (n - 1) as nat, x, t, i, k) && edge(s, x, k, j)
            } else {
                edge(s, x, i, k) && path(edge, flip, p, (n - 1) as nat, x, t, k, j)
            }
    }
}

/// Whether some path leads from `s` to `t` over states below `p`, and reads from `i` to `j`.
pub open spec fn connected(
    edge: Edges,
    flip: bool,
    p: int,
    s: int,
    t: int,
    i: int,
    j: int,
) -> bool {
    exists|n: nat| path(edge, flip, p, n, s, t, i, j)
}

/// Whether `n` paths from `p` to itself over states below it read from `i` to `j`.
pub open spec fn loops(
    edge: Edges,
    flip: bool,
    p: int,
    n: nat,
    len: int,
    i: int,
    j: int,
) -> bool
    decreases n,
{
    if n == 0 {
        0 <= i == j <= len
    } else {
        exists|k: int| #[trigger]
            derivation::at(k) && if flip {
                loops(edge, flip, p, (n - 1) as nat, len, i, k) && connected(
                    edge,
                    flip,
                    p,
                    p,
                    p,
                    k,
                    j,
                )
            } else {
                connected(edge, flip, p, p, p, i, k) && loops(
                    edge,
                    flip,
                    p,
                    (n - 1) as nat,
                    len,
                    k,
                    j,
                )
            }
    }
}

/// Whether a path from `s` to `p`, loops at `p`, and a path from `p` to `t`, read from `i` to `j`.
pub open spec fn through(
    edge: Edges,
    flip: bool,
    p: int,
    len: int,
    s: int,
    t: int,
    i: int,
    j: int,
) -> bool {
    exists|n: nat, k: int, m: int| #[trigger]
        turn(n, k, m) && if flip {
            connected(edge, flip, p, p, t, i, k) && loops(edge, flip, p, n, len, k, m) && connected(
                edge,
                flip,
                p,
                s,
                p,
                m,
                j,
            )
        } else {
            connected(edge, flip, p, s, p, i, k) && loops(edge, flip, p, n, len, k, m) && connected(
                edge,
                flip,
                p,
                p,
                t,
                m,
                j,
            )
        }
}

/// Marks the number of loops and the positions before and behind them.
pub open spec fn turn(n: nat, k: int, m: int) -> bool {
    true
}

/// Whether edges read within a string of length `len`.
pub open spec fn edges_bounded(edge: Edges, len: int) -> bool {
    forall|s: int, t: int, i: int, j: int| #[trigger] edge(s, t, i, j) ==> 0 <= i <= j <= len
}

/// Paths join at a state below the bound.
proof fn lemma_path_join(
    edge: Edges,
    flip: bool,
    p: int,
    n: nat,
    m: nat,
    s: int,
    x: int,
    t: int,
    i: int,
    k: int,
    j: int,
)
    requires
        0 <= x < p,
        if flip {
            path(edge, flip, p, m, x, t, i, k) && path(edge, flip, p, n, s, x, k, j)
        } else {
            path(edge, flip, p, n, s, x, i, k) && path(edge, flip, p, m, x, t, k, j)
        },
    ensures
        path(edge, flip, p, n + m, s, t, i, j),
    decreases n,
{
    if n == 1 {
        assert(step_at(x, k));
        assert((n + m - 1) as nat == m);
    } else {
        let n1 = (n - 1) as nat;
        if flip {
            let (y, l) = choose|y: int, l: int| #[trigger]
                step_at(y, l) && 0 <= y < p && path(edge, flip, p, n1, y, x, k, l) && edge(
                    s,
                    y,
                    l,
                    j,
                );
            lemma_path_join(edge, flip, p, n1, m, y, x, t, i, k, l);
            assert(step_at(y, l));
            assert((n + m - 1) as nat == n1 + m);
        } else {
            let (y, l) = choose|y: int, l: int| #[trigger]
                step_at(y, l) && 0 <= y < p && edge(s, y, i, l) && path(
                    edge,
                    flip,
                    p,
                    n1,
                    y,
                    x,
                    l,
                    k,
                );
            lemma_path_join(edge, flip, p, n1, m, y, x, t, l, k, j);
            assert(step_at(y, l));
            assert((n + m - 1) as nat == n1 + m);
        }
    }
}

/// A path stays one when more states are allowed.
proof fn lemma_path_more(
    edge: Edges,
    flip: bool,
    p: int,
    q: int,
    n: nat,
    s: int,
    t: int,
    i: int,
    j: int,
)
    requires
        p <= q,
        path(edge, flip, p, n, s, t, i, j),
    ensures
        path(edge, flip, q, n, s, t, i, j),
    decreases n,
{
    if n > 1 {
        let n1 = (n - 1) as nat;
        let (x, k) = choose|x: int, k: int| #[trigger]
            step_at(x, k) && 0 <= x < p && if flip {
                path(edge, flip, p, n1, x, t, i, k) && edge(s, x, k, j)
            } else {
                edge(s, x, i, k) && path(edge, flip, p, n1, x, t, k, j)
            };
        if flip {
            lemma_path_more(edge, flip, p, q, n1, x, t, i, k);
        } else {
            lemma_path_more(edge, flip, p, q, n1, x, t, k, j);
        }
        assert(step_at(x, k));
    }
}

/// An edge in front of a path over lower states makes a path.
pub proof fn lemma_connected_front(
    edge: Edges,
    flip: bool,
    p: int,
    s: int,
    x: int,
    t: int,
    i: int,
    k: int,
    j: int,
)
    requires
        0 <= x < p,
        if flip {
            connected(edge, flip, p, x, t, i, k) && edge(s, x, k, j)
        } else {
            edge(s, x, i, k) && connected(edge, flip, p, x, t, k, j)
        },
    ensures
        connected(edge, flip, p, s, t, i, j),
{
    let n = if flip {
        choose|n: nat| path(edge, flip, p, n, x, t, i, k)
    } else {
        choose|n: nat| path(edge, flip, p, n, x, t, k, j)
    };
    assert(n > 0);
    assert(step_at(x, k));
    assert((n + 1 - 1) as nat == n);
    assert(path(edge, flip, p, n + 1, s, t, i, j));
}

/// A path over states up to `p` is one over lower states, or goes through `p`.
proof fn lemma_split(
    edge: Edges,
    flip: bool,
    p: int,
    n: nat,
    len: int,
    s: int,
    t: int,
    i: int,
    j: int,
)
    requires
        0 <= p,
        edges_bounded(edge, len),
        path(edge, flip, p + 1, n, s, t, i, j),
    ensures
        connected(edge, flip, p, s, t, i, j) || through(edge, flip, p, len, s, t, i, j),
    decreases n,
{
    if n == 1 {
        assert(path(edge, flip, p, 1, s, t, i, j));
    } else {
        let n1 = (n - 1) as nat;
        let (x, k) = choose|x: int, k: int| #[trigger]
            step_at(x, k) && 0 <= x < p + 1 && if flip {
                path(edge, flip, p + 1, n1, x, t, i, k) && edge(s, x, k, j)
            } else {
                edge(s, x, i, k) && path(edge, flip, p + 1, n1, x, t, k, j)
            };
        let (a, b) = if flip {
            (i, k)
        } else {
            (k, j)
        };
        let (c, d) = if flip {
            (k, j)
        } else {
            (i, k)
        };
        lemma_split(edge, flip, p, n1, len, x, t, a, b);
        assert(edge(s, x, c, d));
        if x < p {
            if connected(edge, flip, p, x, t, a, b) {
                lemma_connected_front(edge, flip, p, s, x, t, i, k, j);
            } else {
                let (r, u, v) = choose|r: nat, u: int, v: int| #[trigger]
                    turn(r, u, v) && if flip {
                        connected(edge, flip, p, p, t, a, u) && loops(
                            edge,
                            flip,
                            p,
                            r,
                            len,
                            u,
                            v,
                        ) && connected(edge, flip, p, x, p, v, b)
                    } else {
                        connected(edge, flip, p, x, p, a, u) && loops(
                            edge,
                            flip,
                            p,
                            r,
                            len,
                            u,
                            v,
                        ) && connected(edge, flip, p, p, t, v, b)
                    };
                if flip {
                    lemma_connected_front(edge, flip, p, s, x, p, v, k, j);
                } else {
                    lemma_connected_front(edge, flip, p, s, x, p, i, k, u);
                }
                assert(turn(r, u, v));
            }
        } else {
            assert(path(edge, flip, p, 1, s, p, c, d));
            assert(connected(edge, flip, p, s, p, c, d));
            if connected(edge, flip, p, p, t, a, b) {
                assert(loops(edge, flip, p, 0, len, k, k));
                assert(turn(0, k, k));
            } else {
                let (r, u, v) = choose|r: nat, u: int, v: int| #[trigger]
                    turn(r, u, v) && if flip {
                        connected(edge, flip, p, p, t, a, u) && loops(
                            edge,
                            flip,
                            p,
                            r,
                            len,
                            u,
                            v,
                        ) && connected(edge, flip, p, p, p, v, b)
                    } else {
                        connected(edge, flip, p, p, p, a, u) && loops(
                            edge,
                            flip,
                            p,
                            r,
                            len,
                            u,
                            v,
                        ) && connected(edge, flip, p, p, t, v, b)
                    };
                assert((r + 1 - 1) as nat == r);
                if flip {
                    assert(derivation::at(v));
                    assert(loops(edge, flip, p, r + 1, len, u, k));
                    assert(turn(r + 1, u, k));
                } else {
                    assert(derivation::at(u));
                    assert(loops(edge, flip, p, r + 1, len, k, v));
                    assert(turn(r + 1, k, v));
                }
            }
        }
    }
}

/// A path to `p` followed by loops is a path to `p`.
proof fn lemma_loops_path(
    edge: Edges,
    flip: bool,
    p: int,
    n: nat,
    len: int,
    s: int,
    i: int,
    k: int,
    j: int,
)
    requires
        0 <= p,
        if flip {
            loops(edge, flip, p, n, len, i, k) && connected(edge, flip, p + 1, s, p, k, j)
        } else {
            connected(edge, flip, p + 1, s, p, i, k) && loops(edge, flip, p, n, len, k, j)
        },
    ensures
        connected(edge, flip, p + 1, s, p, i, j),
    decreases n,
{
    let q = p + 1;
    if n > 0 {
        let n1 = (n - 1) as nat;
        if flip {
            let m = choose|m: int| #[trigger]
                derivation::at(m) && loops(edge, flip, p, n1, len, i, m) && connected(
                    edge,
                    flip,
                    p,
                    p,
                    p,
                    m,
                    k,
                );
            let a = choose|a: nat| path(edge, flip, p, a, p, p, m, k);
            lemma_path_more(edge, flip, p, p + 1, a, p, p, m, k);
            let b = choose|b: nat| path(edge, flip, q, b, s, p, k, j);
            lemma_path_join(edge, flip, p + 1, b, a, s, p, p, m, k, j);
            lemma_loops_path(edge, flip, p, n1, len, s, i, m, j);
        } else {
            let m = choose|m: int| #[trigger]
                derivation::at(m) && connected(edge, flip, p, p, p, k, m) && loops(
                    edge,
                    flip,
                    p,
                    n1,
                    len,
                    m,
                    j,
                );
            let a = choose|a: nat| path(edge, flip, p, a, p, p, k, m);
            lemma_path_more(edge, flip, p, p + 1, a, p, p, k, m);
            let b = choose|b: nat| path(edge, flip, q, b, s, p, i, k);
            lemma_path_join(edge, flip, p + 1, b, a, s, p, p, i, k, m);
            lemma_loops_path(edge, flip, p, n1, len, s, i, m, j);
        }
    }
}

/// Paths over states up to `p` are those over lower states and those through `p`.
pub proof fn lemma_eliminate(
    edge: Edges,
    flip: bool,
    p: int,
    len: int,
    s: int,
    t: int,
    i: int,
    j: int,
)
    requires
        0 <= p,
        edges_bounded(edge, len),
    ensures
        connected(edge, flip, p + 1, s, t, i, j) <==> connected(edge, flip, p, s, t, i, j)
            || through(edge, flip, p, len, s, t, i, j),
{
    let q = p + 1;
    if connected(edge, flip, q, s, t, i, j) {
        let n = choose|n: nat| path(edge, flip, q, n, s, t, i, j);
        lemma_split(edge, flip, p, n, len, s, t, i, j);
    }
    if connected(edge, flip, p, s, t, i, j) {
        let n = choose|n: nat| path(edge, flip, p, n, s, t, i, j);
        lemma_path_more(edge, flip, p, p + 1, n, s, t, i, j);
    }
    if through(edge, flip, p, len, s, t, i, j) {
        let (r, u, v) = choose|r: nat, u: int, v: int| #[trigger]
            turn(r, u, v) && if flip {
                connected(edge, flip, p, p, t, i, u) && loops(edge, flip, p, r, len, u, v)
                    && connected(edge, flip, p, s, p, v, j)
            } else {
                connected(edge, flip, p, s, p, i, u) && loops(edge, flip, p, r, len, u, v)
                    && connected(edge, flip, p, p, t, v, j)
            };
        if flip {
            let a = choose|a: nat| path(edge, flip, p, a, s, p, v, j);
            lemma_path_more(edge, flip, p, p + 1, a, s, p, v, j);
            lemma_loops_path(edge, flip, p, r, len, s, u, v, j);
            let b = choose|b: nat| path(edge, flip, q, b, s, p, u, j);
            let c = choose|c: nat| path(edge, flip, p, c, p, t, i, u);
            lemma_path_more(edge, flip, p, p + 1, c, p, t, i, u);
            lemma_path_join(edge, flip, p + 1, b, c, s, p, t, i, u, j);
        } else {
            let a = choose|a: nat| path(edge, flip, p, a, s, p, i, u);
            lemma_path_more(edge, flip, p, p + 1, a, s, p, i, u);
            lemma_loops_path(edge, flip, p, r, len, s, i, u, v);
            let b = choose|b: nat| path(edge, flip, q, b, s, p, i, v);
            let c = choose|c: nat| path(edge, flip, p, c, p, t, v, j);
            lemma_path_more(edge, flip, p, p + 1, c, p, t, v, j);
            lemma_path_join(edge, flip, p + 1, b, c, s, p, t, i, v, j);
        }
    }
}

/// Over no state at all, the paths are the edges.
pub proof fn lemma_direct(edge: Edges, flip: bool, s: int, t: int, i: int, j: int)
    ensures
        connected(edge, flip, 0, s, t, i, j) <==> edge(s, t, i, j),
{
    if connected(edge, flip, 0, s, t, i, j) {
        let n = choose|n: nat| path(edge, flip, 0, n, s, t, i, j);
        assert(n == 1);
    }
    if edge(s, t, i, j) {
        assert(path(edge, flip, 0, 1, s, t, i, j));
    }
}

} // verus!
