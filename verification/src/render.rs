//! What the text of an expression says as a pattern.

use regex_automata::dfa::dense::DFA;
use vstd::prelude::*;

use crate::dense;
use crate::derivation;
use crate::lexical;
use crate::regular;
use crate::regular::RegularExpression;
use crate::syntax;
use crate::syntax::Syntax;

verus! {

/// Whether a pattern matches of every string what an expression denotes of it.
pub open spec fn means(tree: Syntax, e: RegularExpression) -> bool {
    forall|w: Seq<u8>, i: int, j: int|
        0 <= i <= j <= w.len() ==> (#[trigger] regular::denotes(
            e,
            dense::pattern_lex(),
            false,
            w,
            i,
            j,
        ) <==> syntax::reads(tree, w.subrange(i, j)))
}

/// Whether a pattern matches of every string what the first parts of a sequence denote of it.
spec fn means_parts(tree: Syntax, e: RegularExpression, n: nat) -> bool {
    forall|w: Seq<u8>, i: int, j: int|
        0 <= i <= j <= w.len() ==> (#[trigger] regular::denotes_parts(
            e,
            dense::pattern_lex(),
            false,
            n,
            w,
            i,
            j,
        ) <==> syntax::reads(tree, w.subrange(i, j)))
}

/// Whether some of the first branches of a union denotes a string.
spec fn some_branch(
    branches: Seq<RegularExpression>,
    n: nat,
    w: Seq<u8>,
    i: int,
    j: int,
) -> bool {
    exists|b: int|
        #![trigger branches[b]]
        0 <= b < n && regular::denotes(branches[b], dense::pattern_lex(), false, w, i, j)
}

/// Whether a pattern matches of every string what some of the first branches of a union denotes.
spec fn means_branches(tree: Syntax, branches: Seq<RegularExpression>, n: nat) -> bool {
    forall|w: Seq<u8>, i: int, j: int|
        0 <= i <= j <= w.len() ==> (#[trigger] some_branch(branches, n, w, i, j)
            <==> syntax::reads(tree, w.subrange(i, j)))
}

/// The text of an expression, read as a pattern, matches just what the expression denotes: of a
/// union every branch, of a sequence the parts one after the other, of a repetition any number of
/// what is repeated.
pub proof fn law_text_means_expression(e: RegularExpression) -> (tree: Syntax)
    requires
        dense::solid(e),
    ensures
        syntax::valid(tree),
        regular::spec_pattern(e) == Some(syntax::written(tree)),
        means(tree, e),
    decreases e, 1nat, 0nat,
{
    reveal_strlit("(?:");
    reveal_strlit(")");
    reveal_strlit(")*");
    match e {
        RegularExpression::Empty => Syntax::Nothing,
        RegularExpression::Epsilon => {
            let tree = Syntax::Nothing;
            assert(syntax::written(tree) =~= Seq::empty());
            tree
        },
        RegularExpression::Atom { forward, .. } => {
            let tree = lexical::lemma_plain_tree(forward@);
            assert forall|w: Seq<u8>, i: int, j: int|
                0 <= i <= j <= w.len() implies (#[trigger] regular::denotes(
                e,
                dense::pattern_lex(),
                false,
                w,
                i,
                j,
            ) <==> syntax::reads(tree, w.subrange(i, j))) by {
                assert(syntax::reads(tree, w.subrange(i, j)) <==> dense::matches(
                    forward@,
                    w.subrange(i, j),
                ));
            }
            tree
        },
        RegularExpression::Concat(parts) => {
            let tree = lemma_parts(e, parts@.len());
            assert forall|w: Seq<u8>, i: int, j: int|
                0 <= i <= j <= w.len() implies (#[trigger] regular::denotes(
                e,
                dense::pattern_lex(),
                false,
                w,
                i,
                j,
            ) <==> syntax::reads(tree, w.subrange(i, j))) by {
                assert(regular::denotes_parts(
                    e,
                    dense::pattern_lex(),
                    false,
                    parts@.len(),
                    w,
                    i,
                    j,
                ) <==> syntax::reads(tree, w.subrange(i, j)));
            }
            tree
        },
        RegularExpression::Union(branches) => {
            let inner = lemma_branches(e, branches@.len());
            let tree = Syntax::Group(Box::new(inner));
            assert(syntax::written(tree) =~= "(?:"@ + syntax::written(inner) + ")"@);
            assert forall|w: Seq<u8>, i: int, j: int|
                0 <= i <= j <= w.len() implies (#[trigger] regular::denotes(
                e,
                dense::pattern_lex(),
                false,
                w,
                i,
                j,
            ) <==> syntax::reads(tree, w.subrange(i, j))) by {
                assert(some_branch(branches@, branches@.len(), w, i, j) <==> syntax::reads(
                    inner,
                    w.subrange(i, j),
                ));
                if regular::denotes(e, dense::pattern_lex(), false, w, i, j) {
                    let b = choose|b: int|
                        #![trigger branches@[b]]
                        0 <= b < branches@.len() && regular::denotes(
                            branches@[b],
                            dense::pattern_lex(),
                            false,
                            w,
                            i,
                            j,
                        );
                    assert(some_branch(branches@, branches@.len(), w, i, j));
                }
                if some_branch(branches@, branches@.len(), w, i, j) {
                    let b = choose|b: int|
                        #![trigger branches@[b]]
                        0 <= b < branches@.len() && regular::denotes(
                            branches@[b],
                            dense::pattern_lex(),
                            false,
                            w,
                            i,
                            j,
                        );
                    assert(regular::denotes(e, dense::pattern_lex(), false, w, i, j));
                }
            }
            tree
        },
        RegularExpression::Star(inner) => {
            let below = law_text_means_expression(*inner);
            let group = Syntax::Group(Box::new(below));
            let tree = Syntax::Star(Box::new(group));
            assert(syntax::written(group) =~= "(?:"@ + syntax::written(below) + ")"@);
            assert(syntax::written(tree) =~= "(?:"@ + syntax::written(below) + ")*"@);
            assert(syntax::valid(group));
            assert forall|w: Seq<u8>, i: int, j: int|
                0 <= i <= j <= w.len() implies (#[trigger] regular::denotes(
                e,
                dense::pattern_lex(),
                false,
                w,
                i,
                j,
            ) <==> syntax::reads(tree, w.subrange(i, j))) by {
                let part = w.subrange(i, j);
                if regular::denotes(e, dense::pattern_lex(), false, w, i, j) {
                    let n = choose|n: nat| #[trigger]
                        regular::repeated(n) && regular::denotes_times(
                            e,
                            dense::pattern_lex(),
                            false,
                            n,
                            w,
                            i,
                            j,
                        );
                    lemma_times(e, *inner, below, n, w, i, j);
                    assert(syntax::times(n));
                }
                if syntax::reads(tree, part) {
                    let n = choose|n: nat| #[trigger]
                        syntax::times(n) && syntax::repeats(tree, n, part);
                    lemma_times(e, *inner, below, n, w, i, j);
                    assert(regular::repeated(n));
                }
            }
            tree
        },
    }
}

/// Repetitions are read as they are denoted.
proof fn lemma_times(
    e: RegularExpression,
    inner: RegularExpression,
    below: Syntax,
    n: nat,
    w: Seq<u8>,
    i: int,
    j: int,
)
    requires
        e matches RegularExpression::Star(body) && *body == inner,
        means(below, inner),
        0 <= i <= j <= w.len(),
    ensures
        regular::denotes_times(e, dense::pattern_lex(), false, n, w, i, j) <==> syntax::repeats(
            Syntax::Star(Box::new(Syntax::Group(Box::new(below)))),
            n,
            w.subrange(i, j),
        ),
    decreases n,
{
    let lex = dense::pattern_lex();
    let group = Syntax::Group(Box::new(below));
    let tree = Syntax::Star(Box::new(group));
    let part = w.subrange(i, j);
    if n > 0 {
        let m = (n - 1) as nat;
        if regular::denotes_times(e, lex, false, n, w, i, j) {
            let k = choose|k: int| #[trigger]
                derivation::at(k) && regular::denotes(inner, lex, false, w, i, k)
                    && regular::denotes_times(e, lex, false, m, w, k, j);
            regular::lemma_denotes_bounds(inner, lex, false, w, i, k);
            lemma_times_bounds(e, m, w, k, j);
            lemma_times(e, inner, below, m, w, k, j);
            assert(part.take(k - i) =~= w.subrange(i, k));
            assert(part.skip(k - i) =~= w.subrange(k, j));
            assert(syntax::reads(below, w.subrange(i, k)));
            assert(syntax::reads(group, part.take(k - i)));
            assert(syntax::cut(k - i));
        }
        if syntax::repeats(tree, n, part) {
            let d = choose|d: int| #[trigger]
                syntax::cut(d) && 0 <= d <= part.len() && syntax::repeats(tree, m, part.skip(d))
                    && syntax::reads(group, part.take(d));
            let k = i + d;
            assert(part.take(d) =~= w.subrange(i, k));
            assert(part.skip(d) =~= w.subrange(k, j));
            lemma_times(e, inner, below, m, w, k, j);
            assert(syntax::reads(below, w.subrange(i, k)));
            assert(regular::denotes(inner, lex, false, w, i, k));
            assert(derivation::at(k));
        }
    }
}

proof fn lemma_times_bounds(e: RegularExpression, n: nat, w: Seq<u8>, i: int, j: int)
    requires
        regular::denotes_times(e, dense::pattern_lex(), false, n, w, i, j),
    ensures
        0 <= i <= j <= w.len(),
    decreases n,
{
    let lex = dense::pattern_lex();
    if n > 0 {
        if let RegularExpression::Star(inner) = e {
            let m = (n - 1) as nat;
            let k = choose|k: int| #[trigger]
                derivation::at(k) && regular::denotes(*inner, lex, false, w, i, k)
                    && regular::denotes_times(e, lex, false, m, w, k, j);
            regular::lemma_denotes_bounds(*inner, lex, false, w, i, k);
            lemma_times_bounds(e, m, w, k, j);
        }
    }
}

proof fn lemma_parts_bounds(e: RegularExpression, n: nat, w: Seq<u8>, i: int, j: int)
    requires
        regular::denotes_parts(e, dense::pattern_lex(), false, n, w, i, j),
    ensures
        0 <= i <= j <= w.len(),
    decreases n,
{
    let lex = dense::pattern_lex();
    if n > 0 {
        if let RegularExpression::Concat(parts) = e {
            let m = (n - 1) as nat;
            let k = choose|k: int| #[trigger]
                derivation::at(k) && regular::denotes_parts(e, lex, false, m, w, i, k)
                    && regular::denotes(parts@[n - 1], lex, false, w, k, j);
            regular::lemma_denotes_bounds(parts@[n - 1], lex, false, w, k, j);
            lemma_parts_bounds(e, m, w, i, k);
        }
    }
}

/// As [`law_text_means_expression`], of the first parts of a sequence.
proof fn lemma_parts(e: RegularExpression, n: nat) -> (tree: Syntax)
    requires
        dense::solid(e),
        e matches RegularExpression::Concat(parts) && n <= parts@.len(),
    ensures
        syntax::valid(tree),
        !(tree is Bar),
        regular::concat_pattern(e, n) == Some(syntax::written(tree)),
        means_parts(tree, e, n),
    decreases e, 0nat, n,
{
    reveal_strlit("(?:");
    reveal_strlit(")");
    let lex = dense::pattern_lex();
    if n == 0 {
        let tree = Syntax::Nothing;
        assert(syntax::written(tree) =~= Seq::empty());
        tree
    } else {
        let m = (n - 1) as nat;
        let front = lemma_parts(e, m);
        let part = (e->Concat_0)@[n - 1];
        assert(dense::solid(part));
        let below = law_text_means_expression(part);
        let group = Syntax::Group(Box::new(below));
        let tree = Syntax::Join(Box::new(front), Box::new(group));
        assert(syntax::valid(group));
        assert(syntax::written(group) =~= "(?:"@ + syntax::written(below) + ")"@);
        assert(syntax::written(tree) =~= syntax::written(front) + "(?:"@ + syntax::written(below)
            + ")"@);
        assert forall|w: Seq<u8>, i: int, j: int|
            0 <= i <= j <= w.len() implies (#[trigger] regular::denotes_parts(
            e,
            lex,
            false,
            n,
            w,
            i,
            j,
        ) <==> syntax::reads(tree, w.subrange(i, j))) by {
            let whole = w.subrange(i, j);
            if regular::denotes_parts(e, lex, false, n, w, i, j) {
                let k = choose|k: int| #[trigger]
                    derivation::at(k) && regular::denotes_parts(e, lex, false, m, w, i, k)
                        && regular::denotes(part, lex, false, w, k, j);
                regular::lemma_denotes_bounds(part, lex, false, w, k, j);
                lemma_parts_bounds(e, m, w, i, k);
                assert(whole.take(k - i) =~= w.subrange(i, k));
                assert(whole.skip(k - i) =~= w.subrange(k, j));
                assert(syntax::reads(below, w.subrange(k, j)));
                assert(syntax::reads(group, whole.skip(k - i)));
                assert(syntax::reads(front, whole.take(k - i)));
                assert(syntax::cut(k - i));
            }
            if syntax::reads(tree, whole) {
                let d = choose|d: int| #[trigger]
                    syntax::cut(d) && 0 <= d <= whole.len() && syntax::reads(front, whole.take(d))
                        && syntax::reads(group, whole.skip(d));
                let k = i + d;
                assert(whole.take(d) =~= w.subrange(i, k));
                assert(whole.skip(d) =~= w.subrange(k, j));
                assert(syntax::reads(below, w.subrange(k, j)));
                assert(regular::denotes(part, lex, false, w, k, j));
                assert(regular::denotes_parts(e, lex, false, m, w, i, k));
                assert(derivation::at(k));
            }
        }
        tree
    }
}

/// As [`law_text_means_expression`], of the first branches of a union.
proof fn lemma_branches(e: RegularExpression, n: nat) -> (tree: Syntax)
    requires
        dense::solid(e),
        e matches RegularExpression::Union(branches) && 0 < n <= branches@.len(),
    ensures
        syntax::valid(tree),
        regular::union_pattern(e, n) == Some(syntax::written(tree)),
        means_branches(tree, (e->Union_0)@, n),
    decreases e, 0nat, n,
{
    reveal_strlit("|");
    let lex = dense::pattern_lex();
    let branches = (e->Union_0)@;
    let m = (n - 1) as nat;
    let branch = branches[n - 1];
    assert(dense::solid(branch));
    let last = law_text_means_expression(branch);
    let tree = if n == 1 {
        last
    } else {
        let front = lemma_branches(e, m);
        let tree = Syntax::Bar(Box::new(front), Box::new(last));
        assert(syntax::written(tree) =~= syntax::written(front) + "|"@ + syntax::written(last));
        assert forall|w: Seq<u8>, i: int, j: int|
            0 <= i <= j <= w.len() implies (syntax::reads(tree, #[trigger] w.subrange(i, j))
            <==> some_branch(branches, m, w, i, j) || syntax::reads(last, w.subrange(i, j))) by {
            assert(some_branch(branches, m, w, i, j) <==> syntax::reads(
                front,
                w.subrange(i, j),
            ));
        }
        tree
    };
    assert forall|w: Seq<u8>, i: int, j: int|
        0 <= i <= j <= w.len() implies (#[trigger] some_branch(branches, n, w, i, j)
        <==> syntax::reads(tree, w.subrange(i, j))) by {
        let part = w.subrange(i, j);
        assert(regular::denotes(branch, lex, false, w, i, j) <==> syntax::reads(last, part));
        if some_branch(branches, n, w, i, j) {
            let b = choose|b: int|
                #![trigger branches[b]]
                0 <= b < n && regular::denotes(branches[b], lex, false, w, i, j);
            if b < m {
                assert(some_branch(branches, m, w, i, j));
            }
        }
        if syntax::reads(last, part) {
            assert(branches[n - 1] == branch);
            assert(some_branch(branches, n, w, i, j));
        }
        if some_branch(branches, m, w, i, j) {
            let b = choose|b: int|
                #![trigger branches[b]]
                0 <= b < m && regular::denotes(branches[b], lex, false, w, i, j);
            assert(some_branch(branches, n, w, i, j));
        }
    }
    tree
}

/// The text of a union holds the text of every branch, between a bar or the bracket before it and a
/// bar or the bracket behind it.
pub proof fn law_union_holds_every_branch(e: RegularExpression, b: int) -> (ends: (
    Seq<char>,
    Seq<char>,
))
    requires
        e matches RegularExpression::Union(branches) && 0 <= b < branches@.len(),
        regular::spec_pattern(e) is Some,
    ensures
        regular::spec_pattern((e->Union_0)@[b]) is Some,
        regular::spec_pattern(e)->0 == ends.0 + regular::spec_pattern((e->Union_0)@[b])->0 + ends.1,
        ends.0.len() > 0,
        ends.1.len() > 0,
        ends.0.last() == (if b == 0 {
            ':'
        } else {
            '|'
        }),
        ends.1[0] == (if b == (e->Union_0)@.len() - 1 {
            ')'
        } else {
            '|'
        }),
{
    reveal_strlit("(?:");
    reveal_strlit(")");
    let branches = (e->Union_0)@;
    let (before, after) = lemma_holds_branch(e, branches.len(), b);
    let branch = regular::spec_pattern(branches[b])->0;
    let ends = ("(?:"@ + before, after + ")"@);
    assert(regular::spec_pattern(e)->0 =~= ends.0 + branch + ends.1);
    ends
}

proof fn lemma_holds_branch(e: RegularExpression, n: nat, b: int) -> (ends: (Seq<char>, Seq<char>))
    requires
        e matches RegularExpression::Union(branches) && 0 <= b < n <= branches@.len(),
        regular::union_pattern(e, n) is Some,
    ensures
        regular::spec_pattern((e->Union_0)@[b]) is Some,
        regular::union_pattern(e, n)->0 == ends.0 + regular::spec_pattern((e->Union_0)@[b])->0
            + ends.1,
        b == 0 ==> ends.0.len() == 0,
        b > 0 ==> ends.0.len() > 0 && ends.0.last() == '|',
        b == n - 1 ==> ends.1.len() == 0,
        b < n - 1 ==> ends.1.len() > 0 && ends.1[0] == '|',
    decreases n,
{
    reveal_strlit("|");
    let branches = (e->Union_0)@;
    let m = (n - 1) as nat;
    let none = Seq::<char>::empty();
    let all = regular::union_pattern(e, n)->0;
    let last = regular::spec_pattern(branches[n - 1])->0;
    if n == 1 {
        assert(all =~= none + last + none);
        (none, none)
    } else {
        let front = regular::union_pattern(e, m)->0;
        assert(all == front + "|"@ + last);
        if b == n - 1 {
            let before = front + "|"@;
            assert(all =~= before + last + none);
            (before, none)
        } else {
            let (before, after) = lemma_holds_branch(e, m, b);
            let branch = regular::spec_pattern(branches[b])->0;
            let more = after + "|"@ + last;
            assert(all =~= before + branch + more);
            (before, more)
        }
    }
}

/// An automaton that obeys the syntax of a text accepts what every expression with that text
/// denotes.
pub proof fn law_obeying_automaton_composes(dfa: DFA<Vec<u32>>, pattern: Seq<char>)
    requires
        dense::obeys(dfa, pattern),
    ensures
        dense::composes(dfa, pattern),
{
    assert forall|e: RegularExpression, w: Seq<u8>|
        dense::solid(e) && regular::spec_pattern(e) == Some(pattern) implies (dense::dense_accepts(
        dfa,
        w,
    ) <==> #[trigger] regular::denotes(
        e,
        dense::pattern_lex(),
        false,
        w,
        0,
        w.len() as int,
    )) by {
        let tree = law_text_means_expression(e);
        assert(w.subrange(0, w.len() as int) =~= w);
        assert(dense::dense_accepts(dfa, w) <==> syntax::reads(tree, w));
    }
}

} // verus!
