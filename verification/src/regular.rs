//! Regular expressions over terminal patterns.

use vstd::prelude::*;

use crate::dense;
use crate::derivation;
use crate::text;

verus! {

/// A regular expression. An atom holds a pattern and, if it is known, the pattern of the reversed
/// words.
#[derive(Debug, PartialEq, Eq)]
pub enum RegularExpression {
    Empty,
    Epsilon,
    Atom { forward: String, reverse: Option<String> },
    Concat(Vec<RegularExpression>),
    Union(Vec<RegularExpression>),
    Star(Box<RegularExpression>),
}

/// The languages of patterns.
pub type PatternLex = spec_fn(Seq<char>, Seq<u8>) -> bool;

/// Marks a number of repetitions.
pub open spec fn repeated(n: nat) -> bool {
    true
}

/// Whether an expression matches `w[i..j]`. With `flip`, sequences are read from their last part to
/// their first, and an atom by its other pattern.
pub open spec fn denotes(
    e: RegularExpression,
    lex: PatternLex,
    flip: bool,
    w: Seq<u8>,
    i: int,
    j: int,
) -> bool
    decreases e, 1nat, 0nat,
{
    match e {
        RegularExpression::Empty => false,
        RegularExpression::Epsilon => 0 <= i == j <= w.len(),
        RegularExpression::Atom { forward, reverse } => 0 <= i <= j <= w.len() && (if flip {
            reverse is Some && lex(reverse->0@, w.subrange(i, j))
        } else {
            lex(forward@, w.subrange(i, j))
        }),
        RegularExpression::Concat(parts) => denotes_parts(
            e,
            lex,
            flip,
            parts@.len(),
            w,
            i,
            j,
        ),
        RegularExpression::Union(branches) => exists|b: int|
            #![trigger branches@[b]]
            0 <= b < branches@.len() && denotes(branches@[b], lex, flip, w, i, j),
        RegularExpression::Star(inner) => exists|n: nat| #[trigger]
            repeated(n) && denotes_times(e, lex, flip, n, w, i, j),
    }
}

/// Whether the first `n` parts of a sequence match `w[i..j]`.
pub open spec fn denotes_parts(
    e: RegularExpression,
    lex: PatternLex,
    flip: bool,
    n: nat,
    w: Seq<u8>,
    i: int,
    j: int,
) -> bool
    decreases e, 0nat, n,
{
    if n == 0 {
        0 <= i == j <= w.len()
    } else {
        e matches RegularExpression::Concat(parts) && n <= parts@.len() && exists|k: int| #[trigger]
            derivation::at(k) && if flip {
                denotes(parts@[n - 1], lex, flip, w, i, k) && denotes_parts(
                    e,
                    lex,
                    flip,
                    (n - 1) as nat,
                    w,
                    k,
                    j,
                )
            } else {
                denotes_parts(e, lex, flip, (n - 1) as nat, w, i, k) && denotes(
                    parts@[n - 1],
                    lex,
                    flip,
                    w,
                    k,
                    j,
                )
            }
    }
}

/// Whether `n` repetitions match `w[i..j]`.
pub open spec fn denotes_times(
    e: RegularExpression,
    lex: PatternLex,
    flip: bool,
    n: nat,
    w: Seq<u8>,
    i: int,
    j: int,
) -> bool
    decreases e, 0nat, n,
{
    if n == 0 {
        0 <= i == j <= w.len()
    } else {
        e matches RegularExpression::Star(inner) && exists|k: int| #[trigger]
            derivation::at(k) && if flip {
                denotes_times(e, lex, flip, (n - 1) as nat, w, i, k) && denotes(
                    *inner,
                    lex,
                    flip,
                    w,
                    k,
                    j,
                )
            } else {
                denotes(*inner, lex, flip, w, i, k) && denotes_times(
                    e,
                    lex,
                    flip,
                    (n - 1) as nat,
                    w,
                    k,
                    j,
                )
            }
    }
}

/// Whether two expressions are built alike.
pub open spec fn alike(a: RegularExpression, b: RegularExpression) -> bool
    decreases a,
{
    match (a, b) {
        (RegularExpression::Empty, RegularExpression::Empty) => true,
        (RegularExpression::Epsilon, RegularExpression::Epsilon) => true,
        (
            RegularExpression::Atom { forward: f, reverse: r },
            RegularExpression::Atom { forward: g, reverse: s },
        ) => f@ == g@ && crate::grammar::optional_view(r) == crate::grammar::optional_view(s),
        (RegularExpression::Concat(xs), RegularExpression::Concat(ys)) => xs@.len() == ys@.len()
            && forall|i: int|
            0 <= i < xs@.len() ==> alike(#[trigger] xs@[i], ys@[i]),
        (RegularExpression::Union(xs), RegularExpression::Union(ys)) => xs@.len() == ys@.len()
            && forall|i: int|
            0 <= i < xs@.len() ==> alike(#[trigger] xs@[i], ys@[i]),
        (RegularExpression::Star(x), RegularExpression::Star(y)) => alike(*x, *y),
        _ => false,
    }
}

impl Clone for RegularExpression {
    fn clone(&self) -> (copy: Self)
        ensures
            alike(*self, copy),
        decreases self, 1nat,
    {
        match self {
            RegularExpression::Empty => RegularExpression::Empty,
            RegularExpression::Epsilon => RegularExpression::Epsilon,
            RegularExpression::Atom { forward, reverse } => RegularExpression::Atom {
                forward: forward.clone(),
                reverse: crate::schema::clone_optional(reverse),
            },
            RegularExpression::Concat(parts) => RegularExpression::Concat(clone_list(parts)),
            RegularExpression::Union(branches) => RegularExpression::Union(clone_list(branches)),
            RegularExpression::Star(inner) => RegularExpression::Star(Box::new((&**inner).clone())),
        }
    }
}

/// Copies of expressions.
fn clone_list(list: &Vec<RegularExpression>) -> (copies: Vec<RegularExpression>)
    ensures
        copies@.len() == list@.len(),
        forall|i: int| 0 <= i < list@.len() ==> alike(#[trigger] list@[i], copies@[i]),
    decreases list, 0nat,
{
    let mut copies: Vec<RegularExpression> = Vec::new();
    let mut index: usize = 0;
    while index < list.len()
        invariant
            index == copies@.len() <= list@.len(),
            forall|i: int| 0 <= i < index ==> alike(#[trigger] list@[i], copies@[i]),
        decreases list@.len() - index,
    {
        copies.push(list[index].clone());
        index += 1;
    }
    copies
}

/// Whether expressions, one after the other, match `w[i..j]`.
pub open spec fn denotes_seq(
    parts: Seq<RegularExpression>,
    lex: PatternLex,
    flip: bool,
    w: Seq<u8>,
    i: int,
    j: int,
) -> bool
    decreases parts.len(),
{
    if parts.len() == 0 {
        0 <= i == j <= w.len()
    } else {
        exists|k: int| #[trigger]
            derivation::at(k) && if flip {
                denotes(parts.last(), lex, flip, w, i, k) && denotes_seq(
                    parts.drop_last(),
                    lex,
                    flip,
                    w,
                    k,
                    j,
                )
            } else {
                denotes_seq(parts.drop_last(), lex, flip, w, i, k) && denotes(
                    parts.last(),
                    lex,
                    flip,
                    w,
                    k,
                    j,
                )
            }
    }
}

/// Whether `n` repetitions of an expression match `w[i..j]`.
pub open spec fn denotes_power(
    e: RegularExpression,
    lex: PatternLex,
    flip: bool,
    n: nat,
    w: Seq<u8>,
    i: int,
    j: int,
) -> bool
    decreases n,
{
    if n == 0 {
        0 <= i == j <= w.len()
    } else {
        exists|k: int| #[trigger]
            derivation::at(k) && if flip {
                denotes_power(e, lex, flip, (n - 1) as nat, w, i, k) && denotes(
                    e,
                    lex,
                    flip,
                    w,
                    k,
                    j,
                )
            } else {
                denotes(e, lex, flip, w, i, k) && denotes_power(
                    e,
                    lex,
                    flip,
                    (n - 1) as nat,
                    w,
                    k,
                    j,
                )
            }
    }
}

/// Whether some number of repetitions matches `w[i..j]`.
pub open spec fn denotes_star(
    e: RegularExpression,
    lex: PatternLex,
    flip: bool,
    w: Seq<u8>,
    i: int,
    j: int,
) -> bool {
    exists|n: nat| #[trigger] repeated(n) && denotes_power(e, lex, flip, n, w, i, j)
}

/// Whether one of the expressions matches `w[i..j]`.
pub open spec fn denotes_any(
    branches: Seq<RegularExpression>,
    lex: PatternLex,
    flip: bool,
    w: Seq<u8>,
    i: int,
    j: int,
) -> bool {
    exists|b: int|
        #![trigger branches[b]]
        0 <= b < branches.len() && denotes(branches[b], lex, flip, w, i, j)
}

proof fn lemma_parts(
    e: RegularExpression,
    lex: PatternLex,
    flip: bool,
    n: nat,
    w: Seq<u8>,
    i: int,
    j: int,
)
    requires
        e is Concat,
        n <= (e->Concat_0)@.len(),
    ensures
        denotes_parts(e, lex, flip, n, w, i, j) == denotes_seq(
            (e->Concat_0)@.take(n as int),
            lex,
            flip,
            w,
            i,
            j,
        ),
    decreases n,
{
    let parts = (e->Concat_0)@;
    if n > 0 {
        let taken = parts.take(n as int);
        let front = taken.drop_last();
        assert(front =~= parts.take(n - 1));
        assert(taken.last() == parts[n - 1]);
        assert forall|a: int, b: int|
            denotes_parts(e, lex, flip, (n - 1) as nat, w, a, b) == #[trigger] denotes_seq(
                front,
                lex,
                flip,
                w,
                a,
                b,
            ) by {
            lemma_parts(e, lex, flip, (n - 1) as nat, w, a, b);
        }
        if denotes_parts(e, lex, flip, n, w, i, j) {
            let k = choose|k: int| #[trigger]
                derivation::at(k) && if flip {
                    denotes(parts[n - 1], lex, flip, w, i, k) && denotes_parts(
                        e,
                        lex,
                        flip,
                        (n - 1) as nat,
                        w,
                        k,
                        j,
                    )
                } else {
                    denotes_parts(e, lex, flip, (n - 1) as nat, w, i, k) && denotes(
                        parts[n - 1],
                        lex,
                        flip,
                        w,
                        k,
                        j,
                    )
                };
            lemma_parts(e, lex, flip, (n - 1) as nat, w, k, j);
            lemma_parts(e, lex, flip, (n - 1) as nat, w, i, k);
            assert(derivation::at(k));
        }
        if denotes_seq(taken, lex, flip, w, i, j) {
            let k = choose|k: int| #[trigger]
                derivation::at(k) && if flip {
                    denotes(taken.last(), lex, flip, w, i, k) && denotes_seq(
                        front,
                        lex,
                        flip,
                        w,
                        k,
                        j,
                    )
                } else {
                    denotes_seq(front, lex, flip, w, i, k) && denotes(
                        taken.last(),
                        lex,
                        flip,
                        w,
                        k,
                        j,
                    )
                };
            lemma_parts(e, lex, flip, (n - 1) as nat, w, k, j);
            lemma_parts(e, lex, flip, (n - 1) as nat, w, i, k);
            assert(derivation::at(k));
        }
    } else {
        assert(parts.take(0).len() == 0);
    }
}

/// A concatenation matches what its parts match one after the other.
proof fn lemma_concat_denotes(
    e: RegularExpression,
    lex: PatternLex,
    flip: bool,
    w: Seq<u8>,
    i: int,
    j: int,
)
    requires
        e is Concat,
    ensures
        denotes(e, lex, flip, w, i, j) == denotes_seq((e->Concat_0)@, lex, flip, w, i, j),
{
    let parts = (e->Concat_0)@;
    lemma_parts(e, lex, flip, parts.len(), w, i, j);
    assert(parts.take(parts.len() as int) =~= parts);
}

proof fn lemma_times(
    e: RegularExpression,
    lex: PatternLex,
    flip: bool,
    n: nat,
    w: Seq<u8>,
    i: int,
    j: int,
)
    requires
        e is Star,
    ensures
        denotes_times(e, lex, flip, n, w, i, j) == denotes_power(
            *(e->Star_0),
            lex,
            flip,
            n,
            w,
            i,
            j,
        ),
    decreases n,
{
    if n > 0 {
        let inner = *(e->Star_0);
        let n1 = (n - 1) as nat;
        if denotes_times(e, lex, flip, n, w, i, j) {
            let k = choose|k: int| #[trigger]
                derivation::at(k) && if flip {
                    denotes_times(e, lex, flip, n1, w, i, k) && denotes(inner, lex, flip, w, k, j)
                } else {
                    denotes(inner, lex, flip, w, i, k) && denotes_times(e, lex, flip, n1, w, k, j)
                };
            lemma_times(e, lex, flip, n1, w, i, k);
            lemma_times(e, lex, flip, n1, w, k, j);
            assert(derivation::at(k));
        }
        if denotes_power(inner, lex, flip, n, w, i, j) {
            let k = choose|k: int| #[trigger]
                derivation::at(k) && if flip {
                    denotes_power(inner, lex, flip, n1, w, i, k) && denotes(
                        inner,
                        lex,
                        flip,
                        w,
                        k,
                        j,
                    )
                } else {
                    denotes(inner, lex, flip, w, i, k) && denotes_power(
                        inner,
                        lex,
                        flip,
                        n1,
                        w,
                        k,
                        j,
                    )
                };
            lemma_times(e, lex, flip, n1, w, i, k);
            lemma_times(e, lex, flip, n1, w, k, j);
            assert(derivation::at(k));
        }
    }
}

/// A star matches what some number of repetitions matches.
proof fn lemma_star_denotes(
    e: RegularExpression,
    lex: PatternLex,
    flip: bool,
    w: Seq<u8>,
    i: int,
    j: int,
)
    requires
        e is Star,
    ensures
        denotes(e, lex, flip, w, i, j) == denotes_star(*(e->Star_0), lex, flip, w, i, j),
{
    let inner = *(e->Star_0);
    if denotes(e, lex, flip, w, i, j) {
        let n = choose|n: nat| #[trigger] repeated(n) && denotes_times(e, lex, flip, n, w, i, j);
        lemma_times(e, lex, flip, n, w, i, j);
        assert(repeated(n));
    }
    if denotes_star(inner, lex, flip, w, i, j) {
        let n = choose|n: nat| #[trigger]
            repeated(n) && denotes_power(inner, lex, flip, n, w, i, j);
        lemma_times(e, lex, flip, n, w, i, j);
        assert(repeated(n));
    }
}

/// A match stays within the string.
pub proof fn lemma_denotes_bounds(
    e: RegularExpression,
    lex: PatternLex,
    flip: bool,
    w: Seq<u8>,
    i: int,
    j: int,
)
    requires
        denotes(e, lex, flip, w, i, j),
    ensures
        0 <= i <= j <= w.len(),
    decreases e, 1nat, 0nat,
{
    match e {
        RegularExpression::Concat(parts) => {
            lemma_parts_bounds(e, lex, flip, parts@.len(), w, i, j);
        },
        RegularExpression::Union(branches) => {
            let b = choose|b: int|
                #![trigger branches@[b]]
                0 <= b < branches@.len() && denotes(branches@[b], lex, flip, w, i, j);
            lemma_denotes_bounds(branches@[b], lex, flip, w, i, j);
        },
        RegularExpression::Star(inner) => {
            let n = choose|n: nat| #[trigger]
                repeated(n) && denotes_times(e, lex, flip, n, w, i, j);
            lemma_times_bounds(e, lex, flip, n, w, i, j);
        },
        _ => {},
    }
}

proof fn lemma_parts_bounds(
    e: RegularExpression,
    lex: PatternLex,
    flip: bool,
    n: nat,
    w: Seq<u8>,
    i: int,
    j: int,
)
    requires
        denotes_parts(e, lex, flip, n, w, i, j),
    ensures
        0 <= i <= j <= w.len(),
    decreases e, 0nat, n,
{
    if n > 0 {
        let parts = (e->Concat_0)@;
        let n1 = (n - 1) as nat;
        let k = choose|k: int| #[trigger]
            derivation::at(k) && if flip {
                denotes(parts[n - 1], lex, flip, w, i, k) && denotes_parts(
                    e,
                    lex,
                    flip,
                    n1,
                    w,
                    k,
                    j,
                )
            } else {
                denotes_parts(e, lex, flip, n1, w, i, k) && denotes(
                    parts[n - 1],
                    lex,
                    flip,
                    w,
                    k,
                    j,
                )
            };
        if flip {
            lemma_denotes_bounds(parts[n - 1], lex, flip, w, i, k);
            lemma_parts_bounds(e, lex, flip, n1, w, k, j);
        } else {
            lemma_parts_bounds(e, lex, flip, n1, w, i, k);
            lemma_denotes_bounds(parts[n - 1], lex, flip, w, k, j);
        }
    }
}

proof fn lemma_times_bounds(
    e: RegularExpression,
    lex: PatternLex,
    flip: bool,
    n: nat,
    w: Seq<u8>,
    i: int,
    j: int,
)
    requires
        denotes_times(e, lex, flip, n, w, i, j),
    ensures
        0 <= i <= j <= w.len(),
    decreases e, 0nat, n,
{
    if n > 0 {
        let inner = e->Star_0;
        let n1 = (n - 1) as nat;
        let k = choose|k: int| #[trigger]
            derivation::at(k) && if flip {
                denotes_times(e, lex, flip, n1, w, i, k) && denotes(*inner, lex, flip, w, k, j)
            } else {
                denotes(*inner, lex, flip, w, i, k) && denotes_times(e, lex, flip, n1, w, k, j)
            };
        if flip {
            lemma_times_bounds(e, lex, flip, n1, w, i, k);
            lemma_denotes_bounds(*inner, lex, flip, w, k, j);
        } else {
            lemma_denotes_bounds(*inner, lex, flip, w, i, k);
            lemma_times_bounds(e, lex, flip, n1, w, k, j);
        }
    }
}

/// Expressions that are built alike match alike.
pub proof fn lemma_alike_denotes(
    a: RegularExpression,
    b: RegularExpression,
    lex: PatternLex,
    flip: bool,
    w: Seq<u8>,
    i: int,
    j: int,
)
    requires
        alike(a, b),
    ensures
        denotes(a, lex, flip, w, i, j) == denotes(b, lex, flip, w, i, j),
    decreases a, 1nat, 0nat,
{
    match (a, b) {
        (RegularExpression::Concat(xs), RegularExpression::Concat(ys)) => {
            lemma_alike_parts(a, b, lex, flip, xs@.len(), w, i, j);
        },
        (RegularExpression::Union(xs), RegularExpression::Union(ys)) => {
            assert forall|x: int| 0 <= x < xs@.len() implies denotes(
                #[trigger] xs@[x],
                lex,
                flip,
                w,
                i,
                j,
            ) == denotes(ys@[x], lex, flip, w, i, j) by {
                lemma_alike_denotes(xs@[x], ys@[x], lex, flip, w, i, j);
            }
            if denotes(a, lex, flip, w, i, j) {
                let x = choose|x: int|
                    #![trigger xs@[x]]
                    0 <= x < xs@.len() && denotes(xs@[x], lex, flip, w, i, j);
                assert(denotes(ys@[x], lex, flip, w, i, j));
            }
            if denotes(b, lex, flip, w, i, j) {
                let x = choose|x: int|
                    #![trigger ys@[x]]
                    0 <= x < ys@.len() && denotes(ys@[x], lex, flip, w, i, j);
                assert(denotes(xs@[x], lex, flip, w, i, j));
            }
        },
        (RegularExpression::Star(x), RegularExpression::Star(y)) => {
            if denotes(a, lex, flip, w, i, j) {
                let n = choose|n: nat| #[trigger]
                    repeated(n) && denotes_times(a, lex, flip, n, w, i, j);
                lemma_alike_times(a, b, lex, flip, n, w, i, j);
                assert(repeated(n));
            }
            if denotes(b, lex, flip, w, i, j) {
                let n = choose|n: nat| #[trigger]
                    repeated(n) && denotes_times(b, lex, flip, n, w, i, j);
                lemma_alike_times(a, b, lex, flip, n, w, i, j);
                assert(repeated(n));
            }
        },
        _ => {},
    }
}

proof fn lemma_alike_parts(
    a: RegularExpression,
    b: RegularExpression,
    lex: PatternLex,
    flip: bool,
    n: nat,
    w: Seq<u8>,
    i: int,
    j: int,
)
    requires
        alike(a, b),
        a is Concat,
        n <= (a->Concat_0)@.len(),
    ensures
        denotes_parts(a, lex, flip, n, w, i, j) == denotes_parts(b, lex, flip, n, w, i, j),
    decreases a, 0nat, n,
{
    let xs = (a->Concat_0)@;
    let ys = (b->Concat_0)@;
    if n > 0 {
        let n1 = (n - 1) as nat;
        assert(alike(xs[n - 1], ys[n - 1]));
        assert forall|k: int| #[trigger] derivation::at(k) implies denotes_parts(
            a,
            lex,
            flip,
            n1,
            w,
            i,
            k,
        ) == denotes_parts(b, lex, flip, n1, w, i, k) && denotes_parts(
            a,
            lex,
            flip,
            n1,
            w,
            k,
            j,
        ) == denotes_parts(b, lex, flip, n1, w, k, j) && denotes(xs[n - 1], lex, flip, w, i, k)
            == denotes(ys[n - 1], lex, flip, w, i, k) && denotes(xs[n - 1], lex, flip, w, k, j)
            == denotes(ys[n - 1], lex, flip, w, k, j) by {
            lemma_alike_parts(a, b, lex, flip, n1, w, i, k);
            lemma_alike_parts(a, b, lex, flip, n1, w, k, j);
            lemma_alike_denotes(xs[n - 1], ys[n - 1], lex, flip, w, i, k);
            lemma_alike_denotes(xs[n - 1], ys[n - 1], lex, flip, w, k, j);
        }
        if denotes_parts(a, lex, flip, n, w, i, j) {
            let k = choose|k: int| #[trigger]
                derivation::at(k) && if flip {
                    denotes(xs[n - 1], lex, flip, w, i, k) && denotes_parts(
                        a,
                        lex,
                        flip,
                        n1,
                        w,
                        k,
                        j,
                    )
                } else {
                    denotes_parts(a, lex, flip, n1, w, i, k) && denotes(
                        xs[n - 1],
                        lex,
                        flip,
                        w,
                        k,
                        j,
                    )
                };
            assert(derivation::at(k));
        }
        if denotes_parts(b, lex, flip, n, w, i, j) {
            let k = choose|k: int| #[trigger]
                derivation::at(k) && if flip {
                    denotes(ys[n - 1], lex, flip, w, i, k) && denotes_parts(
                        b,
                        lex,
                        flip,
                        n1,
                        w,
                        k,
                        j,
                    )
                } else {
                    denotes_parts(b, lex, flip, n1, w, i, k) && denotes(
                        ys[n - 1],
                        lex,
                        flip,
                        w,
                        k,
                        j,
                    )
                };
            assert(derivation::at(k));
        }
    }
}

proof fn lemma_alike_times(
    a: RegularExpression,
    b: RegularExpression,
    lex: PatternLex,
    flip: bool,
    n: nat,
    w: Seq<u8>,
    i: int,
    j: int,
)
    requires
        alike(a, b),
        a is Star,
    ensures
        denotes_times(a, lex, flip, n, w, i, j) == denotes_times(b, lex, flip, n, w, i, j),
    decreases a, 0nat, n,
{
    let x = *(a->Star_0);
    let y = *(b->Star_0);
    if n > 0 {
        let n1 = (n - 1) as nat;
        assert forall|k: int| #[trigger] derivation::at(k) implies denotes_times(
            a,
            lex,
            flip,
            n1,
            w,
            i,
            k,
        ) == denotes_times(b, lex, flip, n1, w, i, k) && denotes_times(
            a,
            lex,
            flip,
            n1,
            w,
            k,
            j,
        ) == denotes_times(b, lex, flip, n1, w, k, j) && denotes(x, lex, flip, w, i, k)
            == denotes(y, lex, flip, w, i, k) && denotes(x, lex, flip, w, k, j) == denotes(
            y,
            lex,
            flip,
            w,
            k,
            j,
        ) by {
            lemma_alike_times(a, b, lex, flip, n1, w, i, k);
            lemma_alike_times(a, b, lex, flip, n1, w, k, j);
            lemma_alike_denotes(x, y, lex, flip, w, i, k);
            lemma_alike_denotes(x, y, lex, flip, w, k, j);
        }
        if denotes_times(a, lex, flip, n, w, i, j) {
            let k = choose|k: int| #[trigger]
                derivation::at(k) && if flip {
                    denotes_times(a, lex, flip, n1, w, i, k) && denotes(x, lex, flip, w, k, j)
                } else {
                    denotes(x, lex, flip, w, i, k) && denotes_times(a, lex, flip, n1, w, k, j)
                };
            assert(derivation::at(k));
        }
        if denotes_times(b, lex, flip, n, w, i, j) {
            let k = choose|k: int| #[trigger]
                derivation::at(k) && if flip {
                    denotes_times(b, lex, flip, n1, w, i, k) && denotes(y, lex, flip, w, k, j)
                } else {
                    denotes(y, lex, flip, w, i, k) && denotes_times(b, lex, flip, n1, w, k, j)
                };
            assert(derivation::at(k));
        }
    }
}

/// Whether what the left sequence matches, followed by what the right one matches, makes `w[i..j]`.
pub open spec fn denotes_both(
    left: Seq<RegularExpression>,
    right: Seq<RegularExpression>,
    lex: PatternLex,
    flip: bool,
    w: Seq<u8>,
    i: int,
    j: int,
) -> bool {
    exists|k: int| #[trigger]
        derivation::at(k) && if flip {
            denotes_seq(right, lex, flip, w, i, k) && denotes_seq(left, lex, flip, w, k, j)
        } else {
            denotes_seq(left, lex, flip, w, i, k) && denotes_seq(right, lex, flip, w, k, j)
        }
}

proof fn lemma_seq_bounds(
    parts: Seq<RegularExpression>,
    lex: PatternLex,
    flip: bool,
    w: Seq<u8>,
    i: int,
    j: int,
)
    requires
        denotes_seq(parts, lex, flip, w, i, j),
    ensures
        0 <= i <= j <= w.len(),
    decreases parts.len(),
{
    if parts.len() > 0 {
        let front = parts.drop_last();
        let k = choose|k: int| #[trigger]
            derivation::at(k) && if flip {
                denotes(parts.last(), lex, flip, w, i, k) && denotes_seq(front, lex, flip, w, k, j)
            } else {
                denotes_seq(front, lex, flip, w, i, k) && denotes(parts.last(), lex, flip, w, k, j)
            };
        if flip {
            lemma_denotes_bounds(parts.last(), lex, flip, w, i, k);
            lemma_seq_bounds(front, lex, flip, w, k, j);
        } else {
            lemma_seq_bounds(front, lex, flip, w, i, k);
            lemma_denotes_bounds(parts.last(), lex, flip, w, k, j);
        }
    }
}

/// Sequences match one after the other as they do put together.
proof fn lemma_seq_append(
    left: Seq<RegularExpression>,
    right: Seq<RegularExpression>,
    lex: PatternLex,
    flip: bool,
    w: Seq<u8>,
    i: int,
    j: int,
)
    ensures
        denotes_seq(left + right, lex, flip, w, i, j) == denotes_both(
            left,
            right,
            lex,
            flip,
            w,
            i,
            j,
        ),
    decreases right.len(),
{
    let all = left + right;
    if right.len() == 0 {
        assert(all =~= left);
        if denotes_seq(left, lex, flip, w, i, j) {
            lemma_seq_bounds(left, lex, flip, w, i, j);
            if flip {
                assert(derivation::at(i) && denotes_seq(right, lex, flip, w, i, i));
            } else {
                assert(derivation::at(j) && denotes_seq(right, lex, flip, w, j, j));
            }
        }
    } else {
        let front = right.drop_last();
        let last = right.last();
        assert(all.drop_last() =~= left + front);
        assert(all.last() == last);
        if denotes_seq(all, lex, flip, w, i, j) {
            let k = choose|k: int| #[trigger]
                derivation::at(k) && if flip {
                    denotes(last, lex, flip, w, i, k) && denotes_seq(
                        all.drop_last(),
                        lex,
                        flip,
                        w,
                        k,
                        j,
                    )
                } else {
                    denotes_seq(all.drop_last(), lex, flip, w, i, k) && denotes(
                        last,
                        lex,
                        flip,
                        w,
                        k,
                        j,
                    )
                };
            if flip {
                lemma_seq_append(left, front, lex, flip, w, k, j);
                let m = choose|m: int| #[trigger]
                    derivation::at(m) && denotes_seq(front, lex, flip, w, k, m) && denotes_seq(
                        left,
                        lex,
                        flip,
                        w,
                        m,
                        j,
                    );
                assert(derivation::at(k));
                assert(denotes_seq(right, lex, flip, w, i, m));
                assert(derivation::at(m));
            } else {
                lemma_seq_append(left, front, lex, flip, w, i, k);
                let m = choose|m: int| #[trigger]
                    derivation::at(m) && denotes_seq(left, lex, flip, w, i, m) && denotes_seq(
                        front,
                        lex,
                        flip,
                        w,
                        m,
                        k,
                    );
                assert(derivation::at(k));
                assert(denotes_seq(right, lex, flip, w, m, j));
                assert(derivation::at(m));
            }
        }
        if denotes_both(left, right, lex, flip, w, i, j) {
            let m = choose|m: int| #[trigger]
                derivation::at(m) && if flip {
                    denotes_seq(right, lex, flip, w, i, m) && denotes_seq(left, lex, flip, w, m, j)
                } else {
                    denotes_seq(left, lex, flip, w, i, m) && denotes_seq(right, lex, flip, w, m, j)
                };
            if flip {
                let k = choose|k: int| #[trigger]
                    derivation::at(k) && denotes(last, lex, flip, w, i, k) && denotes_seq(
                        front,
                        lex,
                        flip,
                        w,
                        k,
                        m,
                    );
                assert(derivation::at(m));
                assert(denotes_both(left, front, lex, flip, w, k, j));
                lemma_seq_append(left, front, lex, flip, w, k, j);
                assert(derivation::at(k));
            } else {
                let k = choose|k: int| #[trigger]
                    derivation::at(k) && denotes_seq(front, lex, flip, w, m, k) && denotes(
                        last,
                        lex,
                        flip,
                        w,
                        k,
                        j,
                    );
                assert(derivation::at(m));
                assert(denotes_both(left, front, lex, flip, w, i, k));
                lemma_seq_append(left, front, lex, flip, w, i, k);
                assert(derivation::at(k));
            }
        }
    }
}

/// A sequence of one expression matches what that matches.
pub proof fn lemma_seq_one(
    e: RegularExpression,
    lex: PatternLex,
    flip: bool,
    w: Seq<u8>,
    i: int,
    j: int,
)
    ensures
        denotes_seq(seq![e], lex, flip, w, i, j) == denotes(e, lex, flip, w, i, j),
{
    let one = seq![e];
    let none = one.drop_last();
    assert(none.len() == 0);
    assert(one.last() == e);
    if denotes_seq(one, lex, flip, w, i, j) {
        let k = choose|k: int| #[trigger]
            derivation::at(k) && if flip {
                denotes(e, lex, flip, w, i, k) && denotes_seq(none, lex, flip, w, k, j)
            } else {
                denotes_seq(none, lex, flip, w, i, k) && denotes(e, lex, flip, w, k, j)
            };
        assert(denotes_seq(none, lex, flip, w, k, j) ==> k == j);
        assert(denotes_seq(none, lex, flip, w, i, k) ==> k == i);
    }
    if denotes(e, lex, flip, w, i, j) {
        lemma_denotes_bounds(e, lex, flip, w, i, j);
        if flip {
            assert(derivation::at(j) && denotes_seq(none, lex, flip, w, j, j));
        } else {
            assert(derivation::at(i) && denotes_seq(none, lex, flip, w, i, i));
        }
    }
}

/// Whether two sequences match the same strings.
#[verifier::opaque]
pub open spec fn same_seq(a: Seq<RegularExpression>, b: Seq<RegularExpression>) -> bool {
    forall|lex: PatternLex, flip: bool, w: Seq<u8>, i: int, j: int|
        denotes_seq(a, lex, flip, w, i, j) == denotes_seq(b, lex, flip, w, i, j)
}

proof fn lemma_same_use(
    a: Seq<RegularExpression>,
    b: Seq<RegularExpression>,
    lex: PatternLex,
    flip: bool,
    w: Seq<u8>,
    i: int,
    j: int,
)
    requires
        same_seq(a, b),
    ensures
        denotes_seq(a, lex, flip, w, i, j) == denotes_seq(b, lex, flip, w, i, j),
{
    reveal(same_seq);
}

/// Sequences that match alike do so between the same neighbours.
proof fn lemma_same_between(
    left: Seq<RegularExpression>,
    a: Seq<RegularExpression>,
    b: Seq<RegularExpression>,
    right: Seq<RegularExpression>,
)
    requires
        same_seq(a, b),
    ensures
        same_seq(left + a + right, left + b + right),
{
    assert forall|lex: PatternLex, flip: bool, w: Seq<u8>, i: int, j: int|
        denotes_seq(left + a + right, lex, flip, w, i, j) == denotes_seq(
            left + b + right,
            lex,
            flip,
            w,
            i,
            j,
        ) by {
        assert(same_seq(b, a)) by {
            reveal(same_seq);
        }
        if denotes_seq(left + a + right, lex, flip, w, i, j) {
            lemma_between_one(left, a, b, right, lex, flip, w, i, j);
        }
        if denotes_seq(left + b + right, lex, flip, w, i, j) {
            lemma_between_one(left, b, a, right, lex, flip, w, i, j);
        }
    }
    reveal(same_seq);
}

proof fn lemma_between_one(
    left: Seq<RegularExpression>,
    a: Seq<RegularExpression>,
    b: Seq<RegularExpression>,
    right: Seq<RegularExpression>,
    lex: PatternLex,
    flip: bool,
    w: Seq<u8>,
    i: int,
    j: int,
)
    requires
        same_seq(a, b),
        denotes_seq(left + a + right, lex, flip, w, i, j),
    ensures
        denotes_seq(left + b + right, lex, flip, w, i, j),
{
    lemma_seq_append(left + a, right, lex, flip, w, i, j);
    let m = choose|m: int| #[trigger]
        derivation::at(m) && if flip {
            denotes_seq(right, lex, flip, w, i, m) && denotes_seq(left + a, lex, flip, w, m, j)
        } else {
            denotes_seq(left + a, lex, flip, w, i, m) && denotes_seq(right, lex, flip, w, m, j)
        };
    let (x, y) = if flip {
        (m, j)
    } else {
        (i, m)
    };
    lemma_seq_append(left, a, lex, flip, w, x, y);
    let k = choose|k: int| #[trigger]
        derivation::at(k) && if flip {
            denotes_seq(a, lex, flip, w, x, k) && denotes_seq(left, lex, flip, w, k, y)
        } else {
            denotes_seq(left, lex, flip, w, x, k) && denotes_seq(a, lex, flip, w, k, y)
        };
    lemma_same_use(a, b, lex, flip, w, x, k);
    lemma_same_use(a, b, lex, flip, w, k, y);
    assert(derivation::at(k));
    assert(denotes_both(left, b, lex, flip, w, x, y));
    lemma_seq_append(left, b, lex, flip, w, x, y);
    assert(derivation::at(m));
    assert(denotes_both(left + b, right, lex, flip, w, i, j));
    lemma_seq_append(left + b, right, lex, flip, w, i, j);
}

proof fn lemma_same_join(
    a: Seq<RegularExpression>,
    b: Seq<RegularExpression>,
    c: Seq<RegularExpression>,
)
    requires
        same_seq(a, b),
        same_seq(b, c),
    ensures
        same_seq(a, c),
{
    reveal(same_seq);
}

/// A list in the opposite order.
fn backwards(list: Vec<RegularExpression>) -> (result: Vec<RegularExpression>)
    ensures
        result@ == list@.reverse(),
{
    let mut rest = list;
    let mut result: Vec<RegularExpression> = Vec::new();
    while rest.len() > 0
        invariant
            rest@.len() + result@.len() == list@.len(),
            rest@ == list@.take(rest@.len() as int),
            result@ == list@.skip(rest@.len() as int).reverse(),
        decreases rest@.len(),
    {
        let ghost before = rest@;
        match rest.pop() {
            Some(last) => {
                let ghost then = result@;
                result.push(last);
                proof {
                    let n = rest@.len() as int;
                    assert(rest@ =~= list@.take(n));
                    assert(last == list@[n]);
                    assert(result@ =~= list@.skip(n).reverse());
                }
            },
            None => {},
        }
    }
    assert(list@.skip(0) =~= list@);
    result
}

/// The concatenation of expressions: without empty words, and flat.
pub(crate) fn concat(parts: Vec<RegularExpression>) -> (result: RegularExpression)
    ensures
        forall|lex: PatternLex, flip: bool, w: Seq<u8>, i: int, j: int| #[trigger]
            denotes(result, lex, flip, w, i, j) == denotes_seq(parts@, lex, flip, w, i, j),
        all_reversible(parts@) ==> reversible(result),
        all_plain(parts@) ==> plain(result),
{
    let ghost original = parts@;
    let mut rest = parts;
    let mut tail: Vec<RegularExpression> = Vec::new();
    proof {
        assert(original + tail@.reverse() =~= original);
        reveal(same_seq);
    }
    while rest.len() > 0
        invariant
            original == parts@,
            same_seq(original, rest@ + tail@.reverse()),
            all_reversible(original) ==> all_reversible(rest@) && all_reversible(tail@),
            all_plain(original) ==> all_plain(rest@) && all_firm(tail@),
        decreases rest@.len(),
    {
        let ghost before = rest@;
        let ghost after = tail@.reverse();
        match rest.pop() {
            Some(part) => {
                let ghost front = rest@;
                assert(before =~= front + seq![part]);
                match part {
                    RegularExpression::Empty => {
                        proof {
                            lemma_empty_part(original, front, after);
                        }
                        return RegularExpression::Empty;
                    },
                    RegularExpression::Epsilon => {
                        proof {
                            lemma_epsilon_part();
                            lemma_same_between(front, seq![part], Seq::empty(), after);
                            assert(front + Seq::<RegularExpression>::empty() + after =~= front
                                + after);
                            lemma_same_join(original, before + after, front + after);
                        }
                    },
                    RegularExpression::Concat(nested) => {
                        let ghost inner = nested@;
                        let mut nested_rest = nested;
                        let ghost then = tail@;
                        while nested_rest.len() > 0
                            invariant
                                nested_rest@.len() <= inner.len(),
                                nested_rest@ == inner.take(nested_rest@.len() as int),
                                tail@ == then + inner.skip(nested_rest@.len() as int).reverse(),
                                all_reversible(original) ==> all_reversible(tail@)
                                    && all_reversible(inner),
                                all_plain(original) ==> all_firm(tail@) && all_firm(inner),
                            decreases nested_rest@.len(),
                        {
                            match nested_rest.pop() {
                                Some(last) => {
                                    tail.push(last);
                                    proof {
                                        let n = nested_rest@.len() as int;
                                        assert(nested_rest@ =~= inner.take(n));
                                        assert(last == inner[n]);
                                        assert(tail@ =~= then + inner.skip(n).reverse());
                                    }
                                },
                                None => {},
                            }
                        }
                        proof {
                            assert(inner.skip(0) =~= inner);
                            assert(tail@.reverse() =~= inner + after);
                            lemma_concat_part(part);
                            lemma_same_between(front, seq![part], inner, after);
                            assert(front + inner + after =~= front + tail@.reverse());
                            lemma_same_join(original, before + after, front + tail@.reverse());
                        }
                    },
                    other => {
                        tail.push(other);
                        proof {
                            assert(tail@.reverse() =~= seq![part] + after);
                            assert(front + tail@.reverse() =~= before + after);
                        }
                    },
                }
            },
            None => {},
        }
    }
    let mut flat = backwards(tail);
    assert(rest@ + tail@.reverse() =~= flat@);
    let count: usize = flat.len();
    if count == 0 {
        assert forall|lex: PatternLex, flip: bool, w: Seq<u8>, i: int, j: int| #[trigger]
            denotes(RegularExpression::Epsilon, lex, flip, w, i, j) == denotes_seq(
                original,
                lex,
                flip,
                w,
                i,
                j,
            ) by {
            lemma_same_use(original, flat@, lex, flip, w, i, j);
        }
        return RegularExpression::Epsilon;
    }
    if count == 1 {
        let ghost all = flat@;
        match flat.pop() {
            Some(only) => {
                assert forall|lex: PatternLex, flip: bool, w: Seq<u8>, i: int, j: int| #[trigger]
                    denotes(only, lex, flip, w, i, j) == denotes_seq(
                        original,
                        lex,
                        flip,
                        w,
                        i,
                        j,
                    ) by {
                    assert(all =~= seq![only]);
                    lemma_same_use(original, all, lex, flip, w, i, j);
                    lemma_seq_one(only, lex, flip, w, i, j);
                }
                return only;
            },
            None => {},
        }
    }
    let result = RegularExpression::Concat(flat);
    assert forall|lex: PatternLex, flip: bool, w: Seq<u8>, i: int, j: int| #[trigger]
        denotes(result, lex, flip, w, i, j) == denotes_seq(original, lex, flip, w, i, j) by {
        lemma_concat_denotes(result, lex, flip, w, i, j);
        lemma_same_use(original, flat@, lex, flip, w, i, j);
    }
    result
}

proof fn lemma_epsilon_part()
    ensures
        same_seq(seq![RegularExpression::Epsilon], Seq::empty()),
{
    assert forall|lex: PatternLex, flip: bool, w: Seq<u8>, i: int, j: int|
        denotes_seq(seq![RegularExpression::Epsilon], lex, flip, w, i, j) == denotes_seq(
            Seq::empty(),
            lex,
            flip,
            w,
            i,
            j,
        ) by {
        lemma_seq_one(RegularExpression::Epsilon, lex, flip, w, i, j);
    }
    reveal(same_seq);
}

proof fn lemma_concat_part(part: RegularExpression)
    requires
        part is Concat,
    ensures
        same_seq(seq![part], (part->Concat_0)@),
{
    assert forall|lex: PatternLex, flip: bool, w: Seq<u8>, i: int, j: int|
        denotes_seq(seq![part], lex, flip, w, i, j) == denotes_seq(
            (part->Concat_0)@,
            lex,
            flip,
            w,
            i,
            j,
        ) by {
        lemma_seq_one(part, lex, flip, w, i, j);
        lemma_concat_denotes(part, lex, flip, w, i, j);
    }
    reveal(same_seq);
}

/// A sequence with an empty part matches nothing.
proof fn lemma_empty_part(
    original: Seq<RegularExpression>,
    front: Seq<RegularExpression>,
    after: Seq<RegularExpression>,
)
    requires
        same_seq(original, front + seq![RegularExpression::Empty] + after),
    ensures
        forall|lex: PatternLex, flip: bool, w: Seq<u8>, i: int, j: int|
            !#[trigger] denotes_seq(original, lex, flip, w, i, j),
{
    let empty = seq![RegularExpression::Empty];
    assert forall|lex: PatternLex, flip: bool, w: Seq<u8>, i: int, j: int|
        !#[trigger] denotes_seq(original, lex, flip, w, i, j) by {
        lemma_same_use(original, front + empty + after, lex, flip, w, i, j);
        lemma_seq_append(front + empty, after, lex, flip, w, i, j);
        if denotes_seq(original, lex, flip, w, i, j) {
            let m = choose|m: int| #[trigger]
                derivation::at(m) && if flip {
                    denotes_seq(after, lex, flip, w, i, m) && denotes_seq(
                        front + empty,
                        lex,
                        flip,
                        w,
                        m,
                        j,
                    )
                } else {
                    denotes_seq(front + empty, lex, flip, w, i, m) && denotes_seq(
                        after,
                        lex,
                        flip,
                        w,
                        m,
                        j,
                    )
                };
            let (x, y) = if flip {
                (m, j)
            } else {
                (i, m)
            };
            lemma_seq_append(front, empty, lex, flip, w, x, y);
            let k = choose|k: int| #[trigger]
                derivation::at(k) && if flip {
                    denotes_seq(empty, lex, flip, w, x, k) && denotes_seq(
                        front,
                        lex,
                        flip,
                        w,
                        k,
                        y,
                    )
                } else {
                    denotes_seq(front, lex, flip, w, x, k) && denotes_seq(
                        empty,
                        lex,
                        flip,
                        w,
                        k,
                        y,
                    )
                };
            lemma_seq_one(RegularExpression::Empty, lex, flip, w, x, k);
            lemma_seq_one(RegularExpression::Empty, lex, flip, w, k, y);
        }
    }
}

/// The text of an expression as a pattern: none for the empty language.
pub open spec fn spec_pattern(e: RegularExpression) -> Option<Seq<char>>
    decreases e, 1nat, 0nat,
{
    match e {
        RegularExpression::Empty => None,
        RegularExpression::Epsilon => Some(Seq::empty()),
        RegularExpression::Atom { forward, .. } => Some(forward@),
        RegularExpression::Concat(parts) => concat_pattern(e, parts@.len()),
        RegularExpression::Union(branches) => match union_pattern(e, branches@.len()) {
            Some(inner) => Some("(?:"@ + inner + ")"@),
            None => None,
        },
        RegularExpression::Star(inner) => match spec_pattern(*inner) {
            Some(inner) => Some("(?:"@ + inner + ")*"@),
            None => None,
        },
    }
}

/// The text of the first `n` parts of a concatenation, each in a group.
pub open spec fn concat_pattern(e: RegularExpression, n: nat) -> Option<Seq<char>>
    decreases e, 0nat, n,
{
    if n == 0 {
        Some(Seq::empty())
    } else {
        match e {
            RegularExpression::Concat(parts) => if n <= parts@.len() {
                match (concat_pattern(e, (n - 1) as nat), spec_pattern(parts@[n - 1])) {
                    (Some(before), Some(part)) => Some(before + "(?:"@ + part + ")"@),
                    _ => None,
                }
            } else {
                None
            },
            _ => None,
        }
    }
}

/// The text of the first `n` branches of a union, with bars between them.
pub open spec fn union_pattern(e: RegularExpression, n: nat) -> Option<Seq<char>>
    decreases e, 0nat, n,
{
    if n == 0 {
        Some(Seq::empty())
    } else {
        match e {
            RegularExpression::Union(branches) => if n <= branches@.len() {
                match (union_pattern(e, (n - 1) as nat), spec_pattern(branches@[n - 1])) {
                    (Some(before), Some(branch)) => if n == 1 {
                        Some(branch)
                    } else {
                        Some(before + "|"@ + branch)
                    },
                    _ => None,
                }
            } else {
                None
            },
            _ => None,
        }
    }
}

/// Whether every atom knows the pattern of its reversed words.
pub open spec fn reversible(e: RegularExpression) -> bool
    decreases e,
{
    match e {
        RegularExpression::Empty => true,
        RegularExpression::Epsilon => true,
        RegularExpression::Atom { reverse, .. } => reverse is Some,
        RegularExpression::Concat(parts) => forall|i: int|
            0 <= i < parts@.len() ==> reversible(#[trigger] parts@[i]),
        RegularExpression::Union(branches) => forall|i: int|
            0 <= i < branches@.len() ==> reversible(#[trigger] branches@[i]),
        RegularExpression::Star(inner) => reversible(*inner),
    }
}

/// Whether every atom of every expression knows the pattern of its reversed words.
pub open spec fn all_reversible(list: Seq<RegularExpression>) -> bool {
    forall|i: int| 0 <= i < list.len() ==> reversible(#[trigger] list[i])
}

/// Whether every atom is plain in both directions, and no part is the empty language.
pub open spec fn firm(e: RegularExpression) -> bool
    decreases e,
{
    match e {
        RegularExpression::Empty => false,
        RegularExpression::Epsilon => true,
        RegularExpression::Atom { forward, reverse } => dense::plain_pattern(forward@) && (
        reverse matches Some(backward) ==> dense::plain_pattern(backward@)),
        RegularExpression::Concat(parts) => forall|i: int|
            0 <= i < parts@.len() ==> firm(#[trigger] parts@[i]),
        RegularExpression::Union(branches) => branches@.len() > 0 && forall|i: int|
            0 <= i < branches@.len() ==> firm(#[trigger] branches@[i]),
        RegularExpression::Star(inner) => firm(*inner),
    }
}

/// Whether an expression is the empty language, or firm.
pub open spec fn plain(e: RegularExpression) -> bool {
    e is Empty || firm(e)
}

/// Whether every expression is firm.
pub open spec fn all_firm(list: Seq<RegularExpression>) -> bool {
    forall|i: int| 0 <= i < list.len() ==> firm(#[trigger] list[i])
}

/// Whether every expression is the empty language, or firm.
pub open spec fn all_plain(list: Seq<RegularExpression>) -> bool {
    forall|i: int| 0 <= i < list.len() ==> plain(#[trigger] list[i])
}

/// Expressions that are built alike are firm alike.
pub proof fn lemma_alike_firm(a: RegularExpression, b: RegularExpression)
    requires
        alike(a, b),
        firm(a),
    ensures
        firm(b),
    decreases a,
{
    match (a, b) {
        (RegularExpression::Concat(xs), RegularExpression::Concat(ys)) => {
            assert forall|i: int| 0 <= i < ys@.len() implies firm(#[trigger] ys@[i]) by {
                lemma_alike_firm(xs@[i], ys@[i]);
            }
        },
        (RegularExpression::Union(xs), RegularExpression::Union(ys)) => {
            assert forall|i: int| 0 <= i < ys@.len() implies firm(#[trigger] ys@[i]) by {
                lemma_alike_firm(xs@[i], ys@[i]);
            }
        },
        (RegularExpression::Star(x), RegularExpression::Star(y)) => {
            lemma_alike_firm(*x, *y);
        },
        _ => {},
    }
}

/// Expressions that are built alike are plain alike.
pub proof fn lemma_alike_plain(a: RegularExpression, b: RegularExpression)
    requires
        alike(a, b),
        plain(a),
    ensures
        plain(b),
{
    if firm(a) {
        lemma_alike_firm(a, b);
    }
}

/// A firm expression is solid.
pub proof fn lemma_firm_solid(e: RegularExpression)
    requires
        firm(e),
    ensures
        dense::solid(e),
    decreases e,
{
    match e {
        RegularExpression::Concat(parts) => {
            assert forall|i: int| 0 <= i < parts@.len() implies dense::solid(
                #[trigger] parts@[i],
            ) by {
                lemma_firm_solid(parts@[i]);
            }
        },
        RegularExpression::Union(branches) => {
            assert forall|i: int| 0 <= i < branches@.len() implies dense::solid(
                #[trigger] branches@[i],
            ) by {
                lemma_firm_solid(branches@[i]);
            }
        },
        RegularExpression::Star(inner) => {
            lemma_firm_solid(*inner);
        },
        _ => {},
    }
}

/// Expressions that are built alike are reversible alike.
pub proof fn lemma_alike_reversible(a: RegularExpression, b: RegularExpression)
    requires
        alike(a, b),
        reversible(a),
    ensures
        reversible(b),
    decreases a,
{
    match (a, b) {
        (RegularExpression::Concat(xs), RegularExpression::Concat(ys)) => {
            assert forall|i: int| 0 <= i < ys@.len() implies reversible(#[trigger] ys@[i]) by {
                lemma_alike_reversible(xs@[i], ys@[i]);
            }
        },
        (RegularExpression::Union(xs), RegularExpression::Union(ys)) => {
            assert forall|i: int| 0 <= i < ys@.len() implies reversible(#[trigger] ys@[i]) by {
                lemma_alike_reversible(xs@[i], ys@[i]);
            }
        },
        (RegularExpression::Star(x), RegularExpression::Star(y)) => {
            lemma_alike_reversible(*x, *y);
        },
        _ => {},
    }
}

/// Being built alike goes both ways.
pub proof fn lemma_alike_turn(a: RegularExpression, b: RegularExpression)
    requires
        alike(a, b),
    ensures
        alike(b, a),
    decreases a,
{
    match (a, b) {
        (RegularExpression::Concat(xs), RegularExpression::Concat(ys)) => {
            assert forall|i: int| 0 <= i < ys@.len() implies alike(#[trigger] ys@[i], xs@[i]) by {
                lemma_alike_turn(xs@[i], ys@[i]);
            }
        },
        (RegularExpression::Union(xs), RegularExpression::Union(ys)) => {
            assert forall|i: int| 0 <= i < ys@.len() implies alike(#[trigger] ys@[i], xs@[i]) by {
                lemma_alike_turn(xs@[i], ys@[i]);
            }
        },
        (RegularExpression::Star(x), RegularExpression::Star(y)) => {
            lemma_alike_turn(*x, *y);
        },
        _ => {},
    }
}

/// Whether `b` matches, read the other way, what `a` matches.
#[verifier::opaque]
pub open spec fn flipped(a: RegularExpression, b: RegularExpression) -> bool {
    forall|lex: PatternLex, flip: bool, w: Seq<u8>, i: int, j: int|
        denotes(b, lex, flip, w, i, j) == denotes(a, lex, !flip, w, i, j)
}

pub proof fn lemma_flipped_use(
    a: RegularExpression,
    b: RegularExpression,
    lex: PatternLex,
    flip: bool,
    w: Seq<u8>,
    i: int,
    j: int,
)
    requires
        flipped(a, b),
    ensures
        denotes(b, lex, flip, w, i, j) == denotes(a, lex, !flip, w, i, j),
{
    reveal(flipped);
}

/// Expressions flipped one by one, in the opposite order, match as the sequence does flipped.
proof fn lemma_flipped_seq(
    parts: Seq<RegularExpression>,
    others: Seq<RegularExpression>,
    lex: PatternLex,
    flip: bool,
    w: Seq<u8>,
    i: int,
    j: int,
)
    requires
        parts.len() == others.len(),
        forall|x: int|
            0 <= x < parts.len() ==> flipped(#[trigger] parts[x], others[parts.len() - 1 - x]),
    ensures
        denotes_seq(others, lex, flip, w, i, j) == denotes_seq(parts, lex, !flip, w, i, j),
    decreases parts.len(),
{
    if parts.len() > 0 {
        let front = parts.drop_last();
        let last = parts.last();
        let first = others[0];
        let rest = others.skip(1);
        assert(others =~= seq![first] + rest);
        assert(flipped(parts[parts.len() - 1], others[0]));
        assert forall|x: int| 0 <= x < front.len() implies flipped(
            #[trigger] front[x],
            rest[front.len() - 1 - x],
        ) by {
            assert(flipped(parts[x], others[parts.len() - 1 - x]));
        }
        lemma_seq_append(seq![first], rest, lex, flip, w, i, j);
        assert forall|k: int| #[trigger] derivation::at(k) implies {
            &&& denotes_seq(rest, lex, flip, w, i, k) == denotes_seq(front, lex, !flip, w, i, k)
            &&& denotes_seq(rest, lex, flip, w, k, j) == denotes_seq(front, lex, !flip, w, k, j)
            &&& denotes_seq(seq![first], lex, flip, w, i, k) == denotes(last, lex, !flip, w, i, k)
            &&& denotes_seq(seq![first], lex, flip, w, k, j) == denotes(last, lex, !flip, w, k, j)
        } by {
            lemma_flipped_seq(front, rest, lex, flip, w, i, k);
            lemma_flipped_seq(front, rest, lex, flip, w, k, j);
            lemma_seq_one(first, lex, flip, w, i, k);
            lemma_seq_one(first, lex, flip, w, k, j);
            lemma_flipped_use(last, first, lex, flip, w, i, k);
            lemma_flipped_use(last, first, lex, flip, w, k, j);
        }
        if denotes_seq(others, lex, flip, w, i, j) {
            let k = choose|k: int| #[trigger]
                derivation::at(k) && if flip {
                    denotes_seq(rest, lex, flip, w, i, k) && denotes_seq(
                        seq![first],
                        lex,
                        flip,
                        w,
                        k,
                        j,
                    )
                } else {
                    denotes_seq(seq![first], lex, flip, w, i, k) && denotes_seq(
                        rest,
                        lex,
                        flip,
                        w,
                        k,
                        j,
                    )
                };
            assert(derivation::at(k));
        }
        if denotes_seq(parts, lex, !flip, w, i, j) {
            let k = choose|k: int| #[trigger]
                derivation::at(k) && if !flip {
                    denotes(last, lex, !flip, w, i, k) && denotes_seq(front, lex, !flip, w, k, j)
                } else {
                    denotes_seq(front, lex, !flip, w, i, k) && denotes(last, lex, !flip, w, k, j)
                };
            assert(derivation::at(k));
            assert(denotes_both(seq![first], rest, lex, flip, w, i, j));
        }
    }
}

proof fn lemma_flipped_power(
    a: RegularExpression,
    b: RegularExpression,
    lex: PatternLex,
    flip: bool,
    n: nat,
    w: Seq<u8>,
    i: int,
    j: int,
)
    requires
        flipped(a, b),
        denotes_power(b, lex, flip, n, w, i, j),
    ensures
        denotes_power(a, lex, !flip, n, w, i, j),
    decreases n,
{
    if n > 0 {
        let n1 = (n - 1) as nat;
        let k = choose|k: int| #[trigger]
            derivation::at(k) && if flip {
                denotes_power(b, lex, flip, n1, w, i, k) && denotes(b, lex, flip, w, k, j)
            } else {
                denotes(b, lex, flip, w, i, k) && denotes_power(b, lex, flip, n1, w, k, j)
            };
        lemma_flipped_use(a, b, lex, flip, w, k, j);
        lemma_flipped_use(a, b, lex, flip, w, i, k);
        if flip {
            lemma_flipped_power(a, b, lex, flip, n1, w, i, k);
            lemma_power_turn(a, lex, !flip, n1, w, i, k, j);
        } else {
            lemma_flipped_power(a, b, lex, flip, n1, w, k, j);
            lemma_power_turn(a, lex, !flip, n1, w, i, k, j);
        }
    }
}

/// One more repetition on the far side is one more repetition.
proof fn lemma_power_turn(
    e: RegularExpression,
    lex: PatternLex,
    flip: bool,
    n: nat,
    w: Seq<u8>,
    i: int,
    k: int,
    j: int,
)
    requires
        if flip {
            denotes(e, lex, flip, w, i, k) && denotes_power(e, lex, flip, n, w, k, j)
        } else {
            denotes_power(e, lex, flip, n, w, i, k) && denotes(e, lex, flip, w, k, j)
        },
    ensures
        denotes_power(e, lex, flip, n + 1, w, i, j),
    decreases n,
{
    let n1 = (n - 1) as nat;
    if n == 0 {
        if flip {
            lemma_denotes_bounds(e, lex, flip, w, i, k);
            assert(derivation::at(i) && denotes_power(e, lex, flip, 0, w, i, i));
        } else {
            lemma_denotes_bounds(e, lex, flip, w, k, j);
            assert(derivation::at(j) && denotes_power(e, lex, flip, 0, w, j, j));
        }
        assert((n + 1 - 1) as nat == 0);
    } else if flip {
        let m = choose|m: int| #[trigger]
            derivation::at(m) && denotes_power(e, lex, flip, n1, w, k, m) && denotes(
                e,
                lex,
                flip,
                w,
                m,
                j,
            );
        lemma_power_turn(e, lex, flip, n1, w, i, k, m);
        assert(n1 + 1 == n);
        assert(derivation::at(m));
        assert((n + 1 - 1) as nat == n);
    } else {
        let m = choose|m: int| #[trigger]
            derivation::at(m) && denotes(e, lex, flip, w, i, m) && denotes_power(
                e,
                lex,
                flip,
                n1,
                w,
                m,
                k,
            );
        lemma_power_turn(e, lex, flip, n1, w, m, k, j);
        assert(n1 + 1 == n);
        assert(derivation::at(m));
        assert((n + 1 - 1) as nat == n);
    }
}

/// Repetitions put together are repetitions.
proof fn lemma_power_join(
    e: RegularExpression,
    lex: PatternLex,
    flip: bool,
    n: nat,
    m: nat,
    w: Seq<u8>,
    i: int,
    k: int,
    j: int,
)
    requires
        denotes_power(e, lex, flip, n, w, i, k),
        denotes_power(e, lex, flip, m, w, k, j),
    ensures
        denotes_power(e, lex, flip, n + m, w, i, j),
    decreases
            if flip {
                m
            } else {
                n
            },
{
    if flip {
        if m == 0 {
            assert(n + m == n);
        } else {
            let m1 = (m - 1) as nat;
            let x = choose|x: int| #[trigger]
                derivation::at(x) && denotes_power(e, lex, flip, m1, w, k, x) && denotes(
                    e,
                    lex,
                    flip,
                    w,
                    x,
                    j,
                );
            lemma_power_join(e, lex, flip, n, m1, w, i, k, x);
            assert((n + m - 1) as nat == n + m1);
            assert(derivation::at(x));
        }
    } else {
        if n == 0 {
            assert(n + m == m);
        } else {
            let n1 = (n - 1) as nat;
            let x = choose|x: int| #[trigger]
                derivation::at(x) && denotes(e, lex, flip, w, i, x) && denotes_power(
                    e,
                    lex,
                    flip,
                    n1,
                    w,
                    x,
                    k,
                );
            lemma_power_join(e, lex, flip, n1, m, w, x, k, j);
            assert((n + m - 1) as nat == n1 + m);
            assert(derivation::at(x));
        }
    }
}

/// Repetitions of a star are a star.
proof fn lemma_star_star(
    e: RegularExpression,
    lex: PatternLex,
    flip: bool,
    n: nat,
    w: Seq<u8>,
    i: int,
    j: int,
)
    requires
        e is Star,
        denotes_power(e, lex, flip, n, w, i, j),
    ensures
        denotes(e, lex, flip, w, i, j),
    decreases n,
{
    let inner = *(e->Star_0);
    if n == 0 {
        assert(repeated(0) && denotes_power(inner, lex, flip, 0, w, i, j));
        lemma_star_denotes(e, lex, flip, w, i, j);
    } else {
        let n1 = (n - 1) as nat;
        let k = choose|k: int| #[trigger]
            derivation::at(k) && if flip {
                denotes_power(e, lex, flip, n1, w, i, k) && denotes(e, lex, flip, w, k, j)
            } else {
                denotes(e, lex, flip, w, i, k) && denotes_power(e, lex, flip, n1, w, k, j)
            };
        if flip {
            lemma_star_star(e, lex, flip, n1, w, i, k);
        } else {
            lemma_star_star(e, lex, flip, n1, w, k, j);
        }
        lemma_star_denotes(e, lex, flip, w, i, k);
        lemma_star_denotes(e, lex, flip, w, k, j);
        let a = choose|a: nat| #[trigger]
            repeated(a) && denotes_power(inner, lex, flip, a, w, i, k);
        let b = choose|b: nat| #[trigger]
            repeated(b) && denotes_power(inner, lex, flip, b, w, k, j);
        lemma_power_join(inner, lex, flip, a, b, w, i, k, j);
        assert(repeated(a + b));
        lemma_star_denotes(e, lex, flip, w, i, j);
    }
}

/// One repetition is a repetition.
proof fn lemma_power_one(
    e: RegularExpression,
    lex: PatternLex,
    flip: bool,
    w: Seq<u8>,
    i: int,
    j: int,
)
    requires
        denotes(e, lex, flip, w, i, j),
    ensures
        denotes_power(e, lex, flip, 1, w, i, j),
{
    lemma_denotes_bounds(e, lex, flip, w, i, j);
    if flip {
        assert(derivation::at(i) && denotes_power(e, lex, flip, 0, w, i, i));
    } else {
        assert(derivation::at(j) && denotes_power(e, lex, flip, 0, w, j, j));
    }
}

/// Repetitions of nothing or of the empty word are the empty word.
proof fn lemma_power_trivial(
    e: RegularExpression,
    lex: PatternLex,
    flip: bool,
    n: nat,
    w: Seq<u8>,
    i: int,
    j: int,
)
    requires
        e is Empty || e is Epsilon,
        denotes_power(e, lex, flip, n, w, i, j),
    ensures
        0 <= i == j <= w.len(),
    decreases n,
{
    if n > 0 {
        let n1 = (n - 1) as nat;
        let k = choose|k: int| #[trigger]
            derivation::at(k) && if flip {
                denotes_power(e, lex, flip, n1, w, i, k) && denotes(e, lex, flip, w, k, j)
            } else {
                denotes(e, lex, flip, w, i, k) && denotes_power(e, lex, flip, n1, w, k, j)
            };
        if flip {
            lemma_power_trivial(e, lex, flip, n1, w, i, k);
        } else {
            lemma_power_trivial(e, lex, flip, n1, w, k, j);
        }
    }
}

/// Any number of repetitions of an expression.
pub(crate) fn star(expression: RegularExpression) -> (result: RegularExpression)
    ensures
        forall|lex: PatternLex, flip: bool, w: Seq<u8>, i: int, j: int| #[trigger]
            denotes(result, lex, flip, w, i, j) == denotes_star(expression, lex, flip, w, i, j),
        reversible(expression) ==> reversible(result),
        plain(expression) ==> plain(result),
{
    let ghost e = expression;
    match expression {
        RegularExpression::Empty | RegularExpression::Epsilon => {
            assert forall|lex: PatternLex, flip: bool, w: Seq<u8>, i: int, j: int| #[trigger]
                denotes(RegularExpression::Epsilon, lex, flip, w, i, j) == denotes_star(
                    e,
                    lex,
                    flip,
                    w,
                    i,
                    j,
                ) by {
                if denotes_star(e, lex, flip, w, i, j) {
                    let n = choose|n: nat| #[trigger]
                        repeated(n) && denotes_power(e, lex, flip, n, w, i, j);
                    lemma_power_trivial(e, lex, flip, n, w, i, j);
                }
                if denotes(RegularExpression::Epsilon, lex, flip, w, i, j) {
                    assert(repeated(0) && denotes_power(e, lex, flip, 0, w, i, j));
                }
            }
            RegularExpression::Epsilon
        },
        RegularExpression::Star(inner) => {
            let result = RegularExpression::Star(inner);
            assert forall|lex: PatternLex, flip: bool, w: Seq<u8>, i: int, j: int| #[trigger]
                denotes(result, lex, flip, w, i, j) == denotes_star(e, lex, flip, w, i, j) by {
                assert(result == e);
                if denotes_star(e, lex, flip, w, i, j) {
                    let n = choose|n: nat| #[trigger]
                        repeated(n) && denotes_power(e, lex, flip, n, w, i, j);
                    lemma_star_star(e, lex, flip, n, w, i, j);
                }
                if denotes(e, lex, flip, w, i, j) {
                    lemma_power_one(e, lex, flip, w, i, j);
                    assert(repeated(1));
                }
            }
            result
        },
        other => {
            let result = RegularExpression::Star(Box::new(other));
            assert forall|lex: PatternLex, flip: bool, w: Seq<u8>, i: int, j: int| #[trigger]
                denotes(result, lex, flip, w, i, j) == denotes_star(e, lex, flip, w, i, j) by {
                lemma_star_denotes(result, lex, flip, w, i, j);
            }
            result
        },
    }
}

/// The text by which the branches of a union are ordered: the `Debug` form of an expression.
pub open spec fn spec_key(e: RegularExpression) -> Seq<char>
    decreases e, 1nat, 0nat,
{
    match e {
        RegularExpression::Empty => "Empty"@,
        RegularExpression::Epsilon => "Epsilon"@,
        RegularExpression::Atom { forward, reverse } => "Atom { forward: "@ + text::quoted(forward@)
            + ", reverse: "@ + (match reverse {
            Some(pattern) => "Some("@ + text::quoted(pattern@) + ")"@,
            None => "None"@,
        }) + " }"@,
        RegularExpression::Concat(parts) => "Concat(["@ + list_key(e, parts@, parts@.len()) + "])"@,
        RegularExpression::Union(branches) => "Union(["@ + list_key(
            e,
            branches@,
            branches@.len(),
        ) + "])"@,
        RegularExpression::Star(inner) => "Star("@ + spec_key(*inner) + ")"@,
    }
}

/// The keys of the first `n` expressions of a list within `e`, with commas between them.
pub open spec fn list_key(e: RegularExpression, list: Seq<RegularExpression>, n: nat) -> Seq<char>
    decreases e, 0nat, n,
{
    if n == 0 || n > list.len() || !(match e {
        RegularExpression::Concat(parts) => parts@ == list,
        RegularExpression::Union(branches) => branches@ == list,
        _ => false,
    }) {
        Seq::empty()
    } else if n == 1 {
        spec_key(list[0])
    } else {
        list_key(e, list, (n - 1) as nat) + ", "@ + spec_key(list[n - 1])
    }
}

/// The text by which the branches of a union are ordered.
fn expression_key(expression: &RegularExpression) -> (key: String)
    ensures
        key@ == spec_key(*expression),
    decreases expression, 1nat, 0nat,
{
    match expression {
        RegularExpression::Empty => "Empty".to_owned(),
        RegularExpression::Epsilon => "Epsilon".to_owned(),
        RegularExpression::Atom { forward, reverse } => {
            let mut key = "Atom { forward: ".to_owned();
            key.append(text::quote(forward.as_str()).as_str());
            key.append(", reverse: ");
            match reverse {
                Some(pattern) => {
                    let mut known = "Some(".to_owned();
                    known.append(text::quote(pattern.as_str()).as_str());
                    known.append(")");
                    key.append(known.as_str());
                },
                None => {
                    key.append("None");
                },
            }
            key.append(" }");
            key
        },
        RegularExpression::Concat(parts) => {
            let mut key = "Concat([".to_owned();
            key.append(keys_of(expression, parts).as_str());
            key.append("])");
            key
        },
        RegularExpression::Union(branches) => {
            let mut key = "Union([".to_owned();
            key.append(keys_of(expression, branches).as_str());
            key.append("])");
            key
        },
        RegularExpression::Star(inner) => {
            let mut key = "Star(".to_owned();
            key.append(expression_key(&**inner).as_str());
            key.append(")");
            key
        },
    }
}

/// The keys of the expressions of a list within `expression`, with commas between them.
fn keys_of(expression: &RegularExpression, list: &Vec<RegularExpression>) -> (key: String)
    requires
        *expression == RegularExpression::Concat(*list) || *expression == RegularExpression::Union(
            *list,
        ),
    ensures
        key@ == list_key(*expression, list@, list@.len()),
    decreases expression, 0nat, list@.len(),
{
    let mut key = String::new();
    let mut index: usize = 0;
    assert(key@ =~= Seq::empty());
    while index < list.len()
        invariant
            index <= list@.len(),
            *expression == RegularExpression::Concat(*list) || *expression
                == RegularExpression::Union(*list),
            key@ == list_key(*expression, list@, index as nat),
        decreases list@.len() - index,
    {
        if index != 0 {
            key.append(", ");
        }
        let one = expression_key(&list[index]);
        key.append(one.as_str());
        proof {
            if index == 0 {
                assert(key@ =~= one@);
            } else {
                assert(key@ =~= list_key(*expression, list@, index as nat) + ", "@ + one@);
            }
        }
        index += 1;
    }
    key
}

/// Whether two expressions are built alike.
fn is_alike(a: &RegularExpression, b: &RegularExpression) -> (result: bool)
    ensures
        result == alike(*a, *b),
    decreases a,
{
    match (a, b) {
        (RegularExpression::Empty, RegularExpression::Empty) => true,
        (RegularExpression::Epsilon, RegularExpression::Epsilon) => true,
        (
            RegularExpression::Atom { forward: f, reverse: r },
            RegularExpression::Atom { forward: g, reverse: s },
        ) => *f == *g && (match (r, s) {
            (Some(r), Some(s)) => *r == *s,
            (None, None) => true,
            _ => false,
        }),
        (RegularExpression::Concat(xs), RegularExpression::Concat(ys)) => lists_alike(xs, ys),
        (RegularExpression::Union(xs), RegularExpression::Union(ys)) => lists_alike(xs, ys),
        (RegularExpression::Star(x), RegularExpression::Star(y)) => is_alike(&**x, &**y),
        _ => false,
    }
}

fn lists_alike(xs: &Vec<RegularExpression>, ys: &Vec<RegularExpression>) -> (result: bool)
    ensures
        result == (xs@.len() == ys@.len() && forall|i: int|
            0 <= i < xs@.len() ==> alike(#[trigger] xs@[i], ys@[i])),
    decreases xs,
{
    if xs.len() != ys.len() {
        return false;
    }
    let mut index: usize = 0;
    while index < xs.len()
        invariant
            index <= xs@.len() == ys@.len(),
            forall|i: int| 0 <= i < index ==> alike(#[trigger] xs@[i], ys@[i]),
        decreases xs@.len() - index,
    {
        if !is_alike(&xs[index], &ys[index]) {
            return false;
        }
        index += 1;
    }
    true
}

/// Whether some expression of a list of keyed expressions matches `w[i..j]`.
spec fn any_entry(
    entries: Seq<(String, RegularExpression)>,
    lex: PatternLex,
    flip: bool,
    w: Seq<u8>,
    i: int,
    j: int,
) -> bool {
    exists|b: int|
        #![trigger entries[b]]
        0 <= b < entries.len() && denotes(entries[b].1, lex, flip, w, i, j)
}

spec fn entries_firm(entries: Seq<(String, RegularExpression)>) -> bool {
    forall|b: int| 0 <= b < entries.len() ==> firm((#[trigger] entries[b]).1)
}

spec fn entries_reversible(entries: Seq<(String, RegularExpression)>) -> bool {
    forall|b: int| 0 <= b < entries.len() ==> reversible((#[trigger] entries[b]).1)
}

/// Adds a branch in the order of the keys. One that is built like a branch with the same key takes
/// its place.
fn insert_branch(entries: &mut Vec<(String, RegularExpression)>, branch: RegularExpression)
    ensures
        forall|lex: PatternLex, flip: bool, w: Seq<u8>, i: int, j: int| #[trigger]
            any_entry(final(entries)@, lex, flip, w, i, j) == (any_entry(
                old(entries)@,
                lex,
                flip,
                w,
                i,
                j,
            ) || denotes(branch, lex, flip, w, i, j)),
        entries_reversible(old(entries)@) && reversible(branch) ==> entries_reversible(
            final(entries)@,
        ),
        entries_firm(old(entries)@) && firm(branch) ==> entries_firm(final(entries)@),
{
    let ghost before = entries@;
    let key = expression_key(&branch);
    let mut position: usize = 0;
    while position < entries.len() && text::is_before(
        entries[position].0.as_str().as_bytes(),
        key.as_str().as_bytes(),
    )
        invariant
            position <= entries@.len(),
            entries@ == before,
        decreases entries@.len() - position,
    {
        position += 1;
    }
    if position < entries.len() && entries[position].0 == key && is_alike(
        &entries[position].1,
        &branch,
    ) {
        let ghost then = before[position as int].1;
        let ghost new = branch;
        entries[position] = (key, branch);
        assert forall|lex: PatternLex, flip: bool, w: Seq<u8>, i: int, j: int| #[trigger]
            any_entry(entries@, lex, flip, w, i, j) == (any_entry(before, lex, flip, w, i, j)
                || denotes(new, lex, flip, w, i, j)) by {
            lemma_alike_denotes(then, new, lex, flip, w, i, j);
            if any_entry(entries@, lex, flip, w, i, j) {
                let b = choose|b: int|
                    #![trigger entries@[b]]
                    0 <= b < entries@.len() && denotes(entries@[b].1, lex, flip, w, i, j);
                if b != position {
                    assert(before[b] == entries@[b]);
                }
            }
            if any_entry(before, lex, flip, w, i, j) {
                let b = choose|b: int|
                    #![trigger before[b]]
                    0 <= b < before.len() && denotes(before[b].1, lex, flip, w, i, j);
                if b != position {
                    assert(before[b] == entries@[b]);
                } else {
                    assert(entries@[position as int].1 == new);
                }
            }
            if denotes(new, lex, flip, w, i, j) {
                assert(entries@[position as int].1 == new);
            }
        }
    } else {
        let ghost new = branch;
        entries.insert(position, (key, branch));
        assert forall|lex: PatternLex, flip: bool, w: Seq<u8>, i: int, j: int| #[trigger]
            any_entry(entries@, lex, flip, w, i, j) == (any_entry(before, lex, flip, w, i, j)
                || denotes(new, lex, flip, w, i, j)) by {
            if any_entry(entries@, lex, flip, w, i, j) {
                let b = choose|b: int|
                    #![trigger entries@[b]]
                    0 <= b < entries@.len() && denotes(entries@[b].1, lex, flip, w, i, j);
                if b < position {
                    assert(before[b] == entries@[b]);
                } else if b > position {
                    assert(before[b - 1] == entries@[b]);
                }
            }
            if any_entry(before, lex, flip, w, i, j) {
                let b = choose|b: int|
                    #![trigger before[b]]
                    0 <= b < before.len() && denotes(before[b].1, lex, flip, w, i, j);
                if b < position {
                    assert(before[b] == entries@[b]);
                } else {
                    assert(before[b] == entries@[b + 1]);
                }
            }
            if denotes(new, lex, flip, w, i, j) {
                assert(entries@[position as int].1 == new);
            }
        }
    }
}

/// The union of expressions: without empty languages, flat, and without repetition.
pub(crate) fn union(branches: Vec<RegularExpression>) -> (result: RegularExpression)
    ensures
        forall|lex: PatternLex, flip: bool, w: Seq<u8>, i: int, j: int| #[trigger]
            denotes(result, lex, flip, w, i, j) == denotes_any(branches@, lex, flip, w, i, j),
        all_reversible(branches@) ==> reversible(result),
        all_plain(branches@) ==> plain(result),
{
    let ghost original = branches@;
    let mut entries: Vec<(String, RegularExpression)> = Vec::new();
    let mut rest = backwards(branches);
    assert(original.take(0) =~= Seq::empty());
    while rest.len() > 0
        invariant
            rest@.len() <= original.len(),
            rest@ == original.skip(original.len() - rest@.len()).reverse(),
            all_reversible(original) ==> entries_reversible(entries@),
            all_plain(original) ==> entries_firm(entries@),
            forall|lex: PatternLex, flip: bool, w: Seq<u8>, i: int, j: int| #[trigger]
                any_entry(entries@, lex, flip, w, i, j) == denotes_any(
                    original.take(original.len() - rest@.len()),
                    lex,
                    flip,
                    w,
                    i,
                    j,
                ),
        decreases rest@.len(),
    {
        let ghost done = original.len() - rest@.len();
        let ghost then = entries@;
        match rest.pop() {
            Some(branch) => {
                let ghost new = branch;
                proof {
                    assert(new == original[done]);
                    assert(rest@ =~= original.skip(done + 1).reverse());
                    assert(original.take(done + 1) =~= original.take(done).push(new));
                }
                match branch {
                    RegularExpression::Empty => {},
                    RegularExpression::Union(nested) => {
                        let ghost inner = nested@;
                        let mut nested_rest = backwards(nested);
                        assert(inner.take(0) =~= Seq::empty());
                        while nested_rest.len() > 0
                            invariant
                                nested_rest@.len() <= inner.len(),
                                nested_rest@ == inner.skip(
                                    inner.len() - nested_rest@.len(),
                                ).reverse(),
                                all_reversible(original) ==> entries_reversible(entries@)
                                    && all_reversible(inner),
                                all_plain(original) ==> entries_firm(entries@) && all_firm(inner),
                                forall|
                                    lex: PatternLex,
                                    flip: bool,
                                    w: Seq<u8>,
                                    i: int,
                                    j: int,
                                | #[trigger]
                                    any_entry(entries@, lex, flip, w, i, j) == (any_entry(
                                        then,
                                        lex,
                                        flip,
                                        w,
                                        i,
                                        j,
                                    ) || denotes_any(
                                        inner.take(inner.len() - nested_rest@.len()),
                                        lex,
                                        flip,
                                        w,
                                        i,
                                        j,
                                    )),
                            decreases nested_rest@.len(),
                        {
                            let ghost taken = inner.len() - nested_rest@.len();
                            let ghost between = entries@;
                            match nested_rest.pop() {
                                Some(one) => {
                                    let ghost single = one;
                                    proof {
                                        assert(single == inner[taken]);
                                        assert(nested_rest@ =~= inner.skip(taken + 1).reverse());
                                        assert(inner.take(taken + 1) =~= inner.take(taken).push(
                                            single,
                                        ));
                                    }
                                    insert_branch(&mut entries, one);
                                    assert forall|
                                        lex: PatternLex,
                                        flip: bool,
                                        w: Seq<u8>,
                                        i: int,
                                        j: int,
                                    | #[trigger]
                                        any_entry(entries@, lex, flip, w, i, j) == (any_entry(
                                            then,
                                            lex,
                                            flip,
                                            w,
                                            i,
                                            j,
                                        ) || denotes_any(
                                            inner.take(taken + 1),
                                            lex,
                                            flip,
                                            w,
                                            i,
                                            j,
                                        )) by {
                                        assert(any_entry(between, lex, flip, w, i, j) == (any_entry(
                                            then,
                                            lex,
                                            flip,
                                            w,
                                            i,
                                            j,
                                        ) || denotes_any(
                                            inner.take(taken),
                                            lex,
                                            flip,
                                            w,
                                            i,
                                            j,
                                        )));
                                        lemma_any_push(
                                            inner.take(taken),
                                            single,
                                            lex,
                                            flip,
                                            w,
                                            i,
                                            j,
                                        );
                                    }
                                },
                                None => {},
                            }
                        }
                        assert(inner.take(inner.len() as int) =~= inner);
                    },
                    other => {
                        insert_branch(&mut entries, other);
                    },
                }
                assert forall|lex: PatternLex, flip: bool, w: Seq<u8>, i: int, j: int| #[trigger]
                    any_entry(entries@, lex, flip, w, i, j) == denotes_any(
                        original.take(done + 1),
                        lex,
                        flip,
                        w,
                        i,
                        j,
                    ) by {
                    assert(any_entry(then, lex, flip, w, i, j) == denotes_any(
                        original.take(done),
                        lex,
                        flip,
                        w,
                        i,
                        j,
                    ));
                    lemma_any_push(original.take(done), new, lex, flip, w, i, j);
                }
            },
            None => {},
        }
    }
    assert(original.take(original.len() as int) =~= original);
    collect(entries, Ghost(original))
}

/// A list with one more branch matches what it matched and what the branch matches.
proof fn lemma_any_push(
    branches: Seq<RegularExpression>,
    branch: RegularExpression,
    lex: PatternLex,
    flip: bool,
    w: Seq<u8>,
    i: int,
    j: int,
)
    ensures
        denotes_any(branches.push(branch), lex, flip, w, i, j) == (denotes_any(
            branches,
            lex,
            flip,
            w,
            i,
            j,
        ) || denotes(branch, lex, flip, w, i, j)),
{
    let more = branches.push(branch);
    if denotes_any(branches, lex, flip, w, i, j) {
        let b = choose|b: int|
            #![trigger branches[b]]
            0 <= b < branches.len() && denotes(branches[b], lex, flip, w, i, j);
        assert(more[b] == branches[b]);
    }
    if denotes(branch, lex, flip, w, i, j) {
        assert(more[branches.len() as int] == branch);
    }
    if denotes_any(more, lex, flip, w, i, j) {
        let b = choose|b: int|
            #![trigger more[b]]
            0 <= b < more.len() && denotes(more[b], lex, flip, w, i, j);
        if b < branches.len() {
            assert(more[b] == branches[b]);
        }
    }
}

/// A union matches what one of its branches matches.
proof fn lemma_union_denotes(
    e: RegularExpression,
    lex: PatternLex,
    flip: bool,
    w: Seq<u8>,
    i: int,
    j: int,
)
    requires
        e is Union,
    ensures
        denotes(e, lex, flip, w, i, j) == denotes_any((e->Union_0)@, lex, flip, w, i, j),
{
    match e {
        RegularExpression::Union(branches) => {
            if denotes_any(branches@, lex, flip, w, i, j) {
                let b = choose|b: int|
                    #![trigger branches@[b]]
                    0 <= b < branches@.len() && denotes(branches@[b], lex, flip, w, i, j);
                assert(denotes(branches@[b], lex, flip, w, i, j));
            }
        },
        _ => {},
    }
}

/// The expression of the branches, without their keys.
fn collect(
    entries: Vec<(String, RegularExpression)>,
    Ghost(original): Ghost<Seq<RegularExpression>>,
) -> (result: RegularExpression)
    requires
        forall|lex: PatternLex, flip: bool, w: Seq<u8>, i: int, j: int| #[trigger]
            any_entry(entries@, lex, flip, w, i, j) == denotes_any(original, lex, flip, w, i, j),
    ensures
        forall|lex: PatternLex, flip: bool, w: Seq<u8>, i: int, j: int| #[trigger]
            denotes(result, lex, flip, w, i, j) == denotes_any(original, lex, flip, w, i, j),
        entries_reversible(entries@) ==> reversible(result),
        entries_firm(entries@) ==> plain(result),
{
    let ghost all = entries@;
    let mut rest = entries;
    let mut reversed: Vec<RegularExpression> = Vec::new();
    while rest.len() > 0
        invariant
            rest@.len() + reversed@.len() == all.len(),
            rest@ == all.take(rest@.len() as int),
            forall|x: int|
                0 <= x < reversed@.len() ==> #[trigger] reversed@[x] == all[all.len() - 1 - x].1,
        decreases rest@.len(),
    {
        match rest.pop() {
            Some((_, branch)) => {
                reversed.push(branch);
                assert(rest@ =~= all.take(rest@.len() as int));
            },
            None => {},
        }
    }
    let mut list = backwards(reversed);
    let ghost branches = list@;
    assert forall|x: int| 0 <= x < branches.len() implies #[trigger] branches[x] == all[x].1 by {
        assert(branches[x] == reversed@[reversed@.len() - 1 - x]);
    }
    assert forall|lex: PatternLex, flip: bool, w: Seq<u8>, i: int, j: int| #[trigger]
        denotes_any(branches, lex, flip, w, i, j) == denotes_any(
            original,
            lex,
            flip,
            w,
            i,
            j,
        ) by {
        assert(any_entry(all, lex, flip, w, i, j) == denotes_any(original, lex, flip, w, i, j));
        if any_entry(all, lex, flip, w, i, j) {
            let b = choose|b: int|
                #![trigger all[b]]
                0 <= b < all.len() && denotes(all[b].1, lex, flip, w, i, j);
            assert(branches[b] == all[b].1);
        }
        if denotes_any(branches, lex, flip, w, i, j) {
            let b = choose|b: int|
                #![trigger branches[b]]
                0 <= b < branches.len() && denotes(branches[b], lex, flip, w, i, j);
            assert(branches[b] == all[b].1);
        }
    }
    let count: usize = list.len();
    if count == 0 {
        assert forall|lex: PatternLex, flip: bool, w: Seq<u8>, i: int, j: int| #[trigger]
            denotes(RegularExpression::Empty, lex, flip, w, i, j) == denotes_any(
                original,
                lex,
                flip,
                w,
                i,
                j,
            ) by {
            assert(!denotes_any(branches, lex, flip, w, i, j));
        }
        return RegularExpression::Empty;
    }
    if count == 1 {
        match list.pop() {
            Some(only) => {
                assert forall|lex: PatternLex, flip: bool, w: Seq<u8>, i: int, j: int| #[trigger]
                    denotes(only, lex, flip, w, i, j) == denotes_any(
                        original,
                        lex,
                        flip,
                        w,
                        i,
                        j,
                    ) by {
                    assert(branches[0] == only);
                    assert(denotes_any(branches, lex, flip, w, i, j) == denotes(
                        only,
                        lex,
                        flip,
                        w,
                        i,
                        j,
                    ));
                }
                return only;
            },
            None => {},
        }
    }
    let result = RegularExpression::Union(list);
    assert forall|lex: PatternLex, flip: bool, w: Seq<u8>, i: int, j: int| #[trigger]
        denotes(result, lex, flip, w, i, j) == denotes_any(original, lex, flip, w, i, j) by {
        lemma_union_denotes(result, lex, flip, w, i, j);
        assert((result->Union_0)@ == branches);
        assert(denotes_any(branches, lex, flip, w, i, j) == denotes_any(
            original,
            lex,
            flip,
            w,
            i,
            j,
        ));
    }
    result
}

impl RegularExpression {
    /// The text of the expression as a pattern: none for the empty language.
    pub fn pattern(&self) -> (pattern: Option<String>)
        ensures
            crate::grammar::optional_view(pattern) == spec_pattern(*self),
        decreases self,
    {
        match self {
            RegularExpression::Empty => None,
            RegularExpression::Epsilon => {
                let none = String::new();
                assert(none@ =~= Seq::empty());
                Some(none)
            },
            RegularExpression::Atom { forward, .. } => Some(forward.clone()),
            RegularExpression::Concat(parts) => {
                let mut pattern = String::new();
                assert(pattern@ =~= Seq::empty());
                let mut index: usize = 0;
                while index < parts.len()
                    invariant
                        index <= parts@.len(),
                        *self == RegularExpression::Concat(*parts),
                        concat_pattern(*self, index as nat) == Some(pattern@),
                    decreases parts@.len() - index,
                {
                    assert(decreases_to!(*parts => parts@[index as int]));
                    let part = parts[index].pattern();
                    match part {
                        Some(part) => {
                            pattern.append("(?:");
                            pattern.append(part.as_str());
                            pattern.append(")");
                        },
                        None => {
                            proof {
                                lemma_no_concat(*self, index as nat + 1, parts@.len());
                            }
                            return None;
                        },
                    }
                    index += 1;
                }
                Some(pattern)
            },
            RegularExpression::Union(branches) => {
                let mut inner = String::new();
                assert(inner@ =~= Seq::empty());
                let mut index: usize = 0;
                while index < branches.len()
                    invariant
                        index <= branches@.len(),
                        *self == RegularExpression::Union(*branches),
                        union_pattern(*self, index as nat) == Some(inner@),
                    decreases branches@.len() - index,
                {
                    let branch = branches[index].pattern();
                    match branch {
                        Some(branch) => {
                            if index != 0 {
                                inner.append("|");
                            }
                            let ghost then = inner@;
                            inner.append(branch.as_str());
                            assert(index == 0 ==> inner@ =~= branch@);
                        },
                        None => {
                            proof {
                                lemma_no_union(*self, index as nat + 1, branches@.len());
                            }
                            return None;
                        },
                    }
                    index += 1;
                }
                let mut pattern = "(?:".to_owned();
                pattern.append(inner.as_str());
                pattern.append(")");
                Some(pattern)
            },
            RegularExpression::Star(inner) => {
                match (&**inner).pattern() {
                    Some(inner) => {
                        let mut pattern = "(?:".to_owned();
                        pattern.append(inner.as_str());
                        pattern.append(")*");
                        Some(pattern)
                    },
                    None => None,
                }
            },
        }
    }

    /// The expression of the reversed words, if every atom knows its own.
    pub fn reversed(&self) -> (result: Option<RegularExpression>)
        ensures
            result is Some <==> reversible(*self),
            result matches Some(other) ==> flipped(*self, other) && reversible(other),
            result matches Some(other) ==> plain(*self) ==> plain(other),
        decreases self,
    {
        match self {
            RegularExpression::Empty => {
                proof {
                    reveal(flipped);
                }
                Some(RegularExpression::Empty)
            },
            RegularExpression::Epsilon => {
                proof {
                    reveal(flipped);
                }
                Some(RegularExpression::Epsilon)
            },
            RegularExpression::Atom { forward, reverse } => match reverse {
                Some(pattern) => {
                    proof {
                        reveal(flipped);
                    }
                    Some(
                        RegularExpression::Atom {
                            forward: pattern.clone(),
                            reverse: Some(forward.clone()),
                        },
                    )
                },
                None => None,
            },
            RegularExpression::Concat(parts) => {
                match reversed_list(parts) {
                    Some(list) => {
                        let list = backwards(list);
                        let ghost others = list@;
                        let result = concat(list);
                        assert(flipped(*self, result)) by {
                            assert forall|
                                lex: PatternLex,
                                flip: bool,
                                w: Seq<u8>,
                                i: int,
                                j: int,
                            |
                                denotes(result, lex, flip, w, i, j) == denotes(
                                    *self,
                                    lex,
                                    !flip,
                                    w,
                                    i,
                                    j,
                                ) by {
                                lemma_flipped_seq(parts@, others, lex, flip, w, i, j);
                                lemma_concat_denotes(*self, lex, !flip, w, i, j);
                            }
                            reveal(flipped);
                        }
                        Some(result)
                    },
                    None => None,
                }
            },
            RegularExpression::Union(branches) => {
                match reversed_list(branches) {
                    Some(list) => {
                        let ghost others = list@;
                        let result = union(list);
                        assert(flipped(*self, result)) by {
                            assert forall|
                                lex: PatternLex,
                                flip: bool,
                                w: Seq<u8>,
                                i: int,
                                j: int,
                            |
                                denotes(result, lex, flip, w, i, j) == denotes(
                                    *self,
                                    lex,
                                    !flip,
                                    w,
                                    i,
                                    j,
                                ) by {
                                lemma_flipped_any(branches@, others, lex, flip, w, i, j);
                            }
                            reveal(flipped);
                        }
                        Some(result)
                    },
                    None => None,
                }
            },
            RegularExpression::Star(inner) => {
                match (&**inner).reversed() {
                    Some(other) => {
                        let ghost o = other;
                        let result = star(other);
                        assert(flipped(*self, result)) by {
                            assert forall|
                                lex: PatternLex,
                                flip: bool,
                                w: Seq<u8>,
                                i: int,
                                j: int,
                            |
                                denotes(result, lex, flip, w, i, j) == denotes(
                                    *self,
                                    lex,
                                    !flip,
                                    w,
                                    i,
                                    j,
                                ) by {
                                lemma_flipped_star(**inner, o, lex, flip, w, i, j);
                                lemma_star_denotes(*self, lex, !flip, w, i, j);
                            }
                            reveal(flipped);
                        }
                        Some(result)
                    },
                    None => None,
                }
            },
        }
    }
}

/// The expressions of the reversed words, if every atom of every expression knows its own.
fn reversed_list(list: &Vec<RegularExpression>) -> (result: Option<Vec<RegularExpression>>)
    ensures
        result is Some <==> forall|i: int|
            0 <= i < list@.len() ==> reversible(#[trigger] list@[i]),
        result matches Some(others) ==> others@.len() == list@.len() && forall|i: int|
            0 <= i < list@.len() ==> flipped(#[trigger] list@[i], others@[i]),
        result matches Some(others) ==> all_reversible(others@),
        result matches Some(others) ==> all_plain(list@) ==> all_plain(others@),
    decreases list,
{
    let mut others: Vec<RegularExpression> = Vec::new();
    let mut index: usize = 0;
    while index < list.len()
        invariant
            index == others@.len() <= list@.len(),
            forall|i: int|
                0 <= i < index ==> reversible(#[trigger] list@[i]) && flipped(list@[i], others@[i]),
            all_reversible(others@),
            all_plain(list@) ==> all_plain(others@),
        decreases list@.len() - index,
    {
        match list[index].reversed() {
            Some(other) => {
                others.push(other);
            },
            None => {
                return None;
            },
        }
        index += 1;
    }
    Some(others)
}

proof fn lemma_flipped_any(
    branches: Seq<RegularExpression>,
    others: Seq<RegularExpression>,
    lex: PatternLex,
    flip: bool,
    w: Seq<u8>,
    i: int,
    j: int,
)
    requires
        branches.len() == others.len(),
        forall|x: int| 0 <= x < branches.len() ==> flipped(#[trigger] branches[x], others[x]),
    ensures
        denotes_any(others, lex, flip, w, i, j) == denotes_any(branches, lex, !flip, w, i, j),
{
    if denotes_any(others, lex, flip, w, i, j) {
        let b = choose|b: int|
            #![trigger others[b]]
            0 <= b < others.len() && denotes(others[b], lex, flip, w, i, j);
        lemma_flipped_use(branches[b], others[b], lex, flip, w, i, j);
    }
    if denotes_any(branches, lex, !flip, w, i, j) {
        let b = choose|b: int|
            #![trigger branches[b]]
            0 <= b < branches.len() && denotes(branches[b], lex, !flip, w, i, j);
        lemma_flipped_use(branches[b], others[b], lex, flip, w, i, j);
        assert(denotes(others[b], lex, flip, w, i, j));
    }
}

proof fn lemma_flipped_star(
    a: RegularExpression,
    b: RegularExpression,
    lex: PatternLex,
    flip: bool,
    w: Seq<u8>,
    i: int,
    j: int,
)
    requires
        flipped(a, b),
    ensures
        denotes_star(b, lex, flip, w, i, j) == denotes_star(a, lex, !flip, w, i, j),
{
    if denotes_star(b, lex, flip, w, i, j) {
        let n = choose|n: nat| #[trigger] repeated(n) && denotes_power(b, lex, flip, n, w, i, j);
        lemma_flipped_power(a, b, lex, flip, n, w, i, j);
        assert(repeated(n));
    }
    if denotes_star(a, lex, !flip, w, i, j) {
        let n = choose|n: nat| #[trigger] repeated(n) && denotes_power(a, lex, !flip, n, w, i, j);
        assert(flipped(b, a)) by {
            assert forall|lex: PatternLex, flip: bool, w: Seq<u8>, i: int, j: int|
                denotes(a, lex, flip, w, i, j) == denotes(b, lex, !flip, w, i, j) by {
                lemma_flipped_use(a, b, lex, !flip, w, i, j);
            }
            reveal(flipped);
        }
        lemma_flipped_power(b, a, lex, !flip, n, w, i, j);
        assert(repeated(n));
    }
}

proof fn lemma_no_concat(e: RegularExpression, n: nat, m: nat)
    requires
        concat_pattern(e, n) is None,
        n <= m,
    ensures
        concat_pattern(e, m) is None,
    decreases m,
{
    if n < m {
        lemma_no_concat(e, n, (m - 1) as nat);
    }
}

proof fn lemma_no_union(e: RegularExpression, n: nat, m: nat)
    requires
        union_pattern(e, n) is None,
        n <= m,
    ensures
        union_pattern(e, m) is None,
    decreases m,
{
    if n < m {
        lemma_no_union(e, n, (m - 1) as nat);
    }
}

} // verus!
