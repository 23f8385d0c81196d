//! Incremental recognition with LALR(1) tables.

use std::sync::Arc;

use vstd::prelude::*;

use crate::count;
use crate::derivation;
use crate::derivation::Lex;
use crate::error::{enforce_runtime_limit, usize_to_u64, RuntimeError, RuntimeResource};
use crate::lalr;
use crate::lalr::CompiledLalr;
use crate::lr;
use crate::lr::{Action, LalrStateId, Lookahead, Machine};
use crate::residual;
use crate::residual::{CompiledTerminal, ResidualGrammar, TerminalCursorState};
use crate::schema::RuntimeLimits;
use crate::symbol::{Symbol, TerminalId};
use crate::tokens;

verus! {

/// What a recognizer has done.
#[derive(Clone, Copy, Debug, Default, PartialEq, Eq)]
pub struct LalrRuntimeStats {
    pub shifts: u64,
    pub reductions: u64,
    pub max_stack_depth: u64,
    pub bytes: u64,
}

/// A token that is being read: how far, and what follows when it ends.
#[derive(Debug, PartialEq, Eq)]
pub struct TerminalCandidate {
    pub terminal: TerminalId,
    pub cursor: TerminalCursorState,
    pub stack: Vec<LalrStateId>,
    pub shift: LalrStateId,
    pub reductions: u64,
}

impl Clone for TerminalCandidate {
    fn clone(&self) -> (copy: Self)
        ensures
            same_candidate(copy, *self),
    {
        let stack = self.stack.clone();
        assert(stack@ =~= self.stack@);
        TerminalCandidate {
            terminal: self.terminal,
            cursor: self.cursor,
            stack,
            shift: self.shift,
            reductions: self.reductions,
        }
    }
}

/// Whether two candidates are the same.
pub open spec fn same_candidate(a: TerminalCandidate, b: TerminalCandidate) -> bool {
    &&& a.terminal == b.terminal
    &&& a.cursor == b.cursor
    &&& a.stack@ == b.stack@
    &&& a.shift == b.shift
    &&& a.reductions == b.reductions
}

/// Whether two lists of candidates are the same.
pub open spec fn same_candidates(a: Seq<TerminalCandidate>, b: Seq<TerminalCandidate>) -> bool {
    a.len() == b.len() && forall|x: int|
        0 <= x < a.len() ==> same_candidate(#[trigger] a[x], b[x])
}

fn clone_candidates(list: &Vec<TerminalCandidate>) -> (copies: Vec<TerminalCandidate>)
    ensures
        same_candidates(copies@, list@),
{
    let mut copies: Vec<TerminalCandidate> = Vec::new();
    while copies.len() < list.len()
        invariant
            copies@.len() <= list@.len(),
            forall|x: int|
                0 <= x < copies@.len() ==> same_candidate(#[trigger] copies@[x], list@[x]),
        decreases list@.len() - copies@.len(),
    {
        copies.push(list[copies.len()].clone());
    }
    copies
}

/// A state to come back to.
#[derive(Debug, PartialEq, Eq)]
pub struct LalrCheckpoint {
    pub generation: u64,
    pub stack: Vec<LalrStateId>,
    pub candidates: Vec<TerminalCandidate>,
    pub byte_position: u32,
    pub stats: LalrRuntimeStats,
}

impl Clone for LalrCheckpoint {
    fn clone(&self) -> (copy: Self)
        ensures
            copy.generation == self.generation,
            copy.stack@ == self.stack@,
            same_candidates(copy.candidates@, self.candidates@),
            copy.byte_position == self.byte_position,
            copy.stats == self.stats,
    {
        let stack = self.stack.clone();
        assert(stack@ =~= self.stack@);
        LalrCheckpoint {
            generation: self.generation,
            stack,
            candidates: clone_candidates(&self.candidates),
            byte_position: self.byte_position,
            stats: self.stats,
        }
    }
}

/// A recognizer that is driven by tables.
#[derive(Debug, PartialEq, Eq)]
pub struct LalrRecognizer {
    pub compiled: Arc<CompiledLalr>,
    pub limits: RuntimeLimits,
    pub generation: u64,
    pub stack: Vec<LalrStateId>,
    pub candidates: Vec<TerminalCandidate>,
    pub byte_position: u32,
    pub stats: LalrRuntimeStats,
}

/// Whether a terminal can be shifted next.
pub open spec fn startable(machine: Machine, stack: Seq<u32>, t: u32) -> bool {
    exists|end: Seq<u32>| #[trigger] shift_ready(machine, stack, t, end)
}

/// Whether a stack settles to one on which a terminal is shifted.
pub open spec fn shift_ready(machine: Machine, stack: Seq<u32>, t: u32, end: Seq<u32>) -> bool {
    &&& machine.settles(stack, Lookahead::Terminal(t), end)
    &&& machine.act(end, Lookahead::Terminal(t)) matches Some(Action::Shift(_))
}

/// Whether a stack settles to one that accepts at the end of the input.
pub open spec fn accepts_now(machine: Machine, stack: Seq<u32>) -> bool {
    exists|end: Seq<u32>| #[trigger]
        machine.settles(stack, Lookahead::Eof, end) && machine.act(end, Lookahead::Eof) == Some(
            Action::Accept,
        )
}

/// Whether the reductions under a lookahead make the stack too deep, or are too many to count.
pub open spec fn overruns(
    machine: Machine,
    limits: RuntimeLimits,
    stack: Seq<u32>,
    lookahead: Lookahead,
) -> bool {
    exists|n: nat, middle: Seq<u32>| #[trigger]
        machine.reduces(n, stack, lookahead, middle) && n > 0 && (middle.len()
            > limits.max_parse_stack || n >= u64::MAX)
}

/// Whether a candidate is a terminal that can be shifted, read as far as `r` goes.
pub open spec fn candidate_ok(
    machine: Machine,
    terminals: Seq<CompiledTerminal>,
    stack: Seq<u32>,
    r: Seq<u8>,
    candidate: TerminalCandidate,
) -> bool {
    let t = candidate.terminal;
    &&& t < terminals.len()
    &&& machine.settles(stack, Lookahead::Terminal(t), candidate.stack@)
    &&& machine.reduces(
        candidate.reductions as nat,
        stack,
        Lookahead::Terminal(t),
        candidate.stack@,
    )
    &&& machine.act(candidate.stack@, Lookahead::Terminal(t)) == Some(
        Action::Shift(candidate.shift),
    )
    &&& terminals[t as int].read(r) == Some(candidate.cursor)
    &&& r.len() > 0 ==> terminals[t as int].spec_live(candidate.cursor)
}

/// Whether a terminal is among candidates.
pub open spec fn among(candidates: Seq<TerminalCandidate>, t: u32) -> bool {
    exists|x: int| 0 <= x < candidates.len() && (#[trigger] candidates[x]).terminal == t
}

/// Whether the candidates are the terminals that can be shifted and read as far as `r` goes and on.
pub open spec fn candidates_exact(
    machine: Machine,
    terminals: Seq<CompiledTerminal>,
    stack: Seq<u32>,
    r: Seq<u8>,
    candidates: Seq<TerminalCandidate>,
) -> bool {
    &&& forall|x: int|
        0 <= x < candidates.len() ==> candidate_ok(
            machine,
            terminals,
            stack,
            r,
            #[trigger] candidates[x],
        )
    &&& forall|t: u32|
        #![trigger startable(machine, stack, t)]
        t < terminals.len() && startable(machine, stack, t) && terminals[t as int].read(r) is Some
            && (r.len() > 0 ==> terminals[t as int].spec_live(terminals[t as int].read(r)->0))
            ==> among(candidates, t)
    &&& unmatched(machine, terminals, stack, r)
    &&& terminals_ascend(candidates)
}

/// Whether the terminals of candidates ascend, each once.
pub open spec fn terminals_ascend(candidates: Seq<TerminalCandidate>) -> bool {
    forall|x: int, y: int|
        0 <= x < y < candidates.len() ==> (#[trigger] candidates[x]).terminal < (
        #[trigger] candidates[y]).terminal
}

/// Whether no terminal that can be shifted ends within `r`.
pub open spec fn unmatched(
    machine: Machine,
    terminals: Seq<CompiledTerminal>,
    stack: Seq<u32>,
    r: Seq<u8>,
) -> bool {
    forall|t: u32, c: int|
        #![trigger startable(machine, stack, t), r.take(c)]
        t < terminals.len() && startable(machine, stack, t) && 0 < c <= r.len()
            ==> !terminals[t as int].matches(r.take(c))
}

impl LalrRecognizer {
    /// The terminals.
    pub open spec fn terminals(&self) -> Seq<CompiledTerminal> {
        self.compiled.grammar.terminals@
    }

    /// Whether the input so far is `h`, of which the tokens `u` make up the first `k` bytes.
    pub open spec fn split(&self, h: Seq<u8>, u: Seq<u32>, k: int) -> bool {
        let machine = self.compiled.machine();
        &&& 0 <= k <= h.len()
        &&& tokens::lexes(self.compiled.grammar.lex(), u, h, 0, k)
        &&& machine.after(u, self.stack@)
        &&& if self.candidates@.len() == 0 {
            k == h.len()
        } else {
            k < h.len() && candidates_exact(
                machine,
                self.terminals(),
                self.stack@,
                h.skip(k),
                self.candidates@,
            )
        }
    }

    /// Whether the input so far is `h`.
    pub open spec fn recognizes(&self, h: Seq<u8>) -> bool {
        exists|u: Seq<u32>, k: int| self.split(h, u, k)
    }

    /// What holds of every recognizer.
    pub open spec fn wf(&self) -> bool {
        &&& self.compiled.exact()
        &&& exists|h: Seq<u8>| self.recognizes(h)
    }

    /// Whether the tables are those of the whole language.
    pub open spec fn faithful(&self) -> bool {
        &&& self.compiled.conflicts@.len() == 0
        &&& self.compiled.lexical_safe
        &&& self.compiled.grammar.nullable_exact()
    }

    /// Whether the input so far is accepted, within the limits.
    pub open spec fn accepting(&self) -> bool {
        let machine = self.compiled.machine();
        &&& self.candidates@.len() == 0
        &&& !overruns(machine, self.limits, self.stack@, Lookahead::Eof)
        &&& accepts_now(machine, self.stack@)
    }

    /// Whether tokens can be started within the limits.
    pub open spec fn can_start(&self) -> bool {
        let machine = self.compiled.machine();
        &&& forall|t: u32|
            t < self.terminals().len() ==> !#[trigger] overruns(
                machine,
                self.limits,
                self.stack@,
                Lookahead::Terminal(t),
            )
        &&& exists|t: u32|
            t < self.terminals().len() && #[trigger] startable(machine, self.stack@, t)
    }
}

pub proof fn lemma_machine(compiled: &CompiledLalr)
    requires
        compiled.exact(),
    ensures
        compiled.machine().sound(),
        compiled.conflicts@.len() == 0 ==> compiled.machine().complete(),
        compiled.machine().rules == compiled.rules(),
        compiled.machine().nullable == compiled.grammar.nullable@,
{
    let items = choose|items: Seq<Seq<lr::Lr1Item>>| compiled.explained(items);
    assert(compiled.explained(items));
}

/// What was lexed does not depend on what follows.
pub proof fn lemma_lexes_prefix(lex: Lex, u: Seq<u32>, w: Seq<u8>, v: Seq<u8>, i: int, j: int)
    requires
        tokens::lexes(lex, u, w, i, j),
        j <= v.len(),
        forall|x: int| 0 <= x < j ==> x < w.len() && w[x] == v[x],
    ensures
        tokens::lexes(lex, u, v, i, j),
    decreases u.len(),
{
    tokens::lemma_lexes_bounds(lex, u, w, i, j);
    if u.len() > 0 {
        let k = choose|k: int| #[trigger]
            derivation::at(k) && 0 <= i <= k <= w.len() && lex(u[0], w.subrange(i, k))
                && tokens::lexes(lex, u.skip(1), w, k, j);
        tokens::lemma_lexes_bounds(lex, u.skip(1), w, k, j);
        lemma_lexes_prefix(lex, u.skip(1), w, v, k, j);
        assert(w.subrange(i, k) =~= v.subrange(i, k));
        assert(derivation::at(k));
    }
}

/// Reductions lead to one stack after each number of them.
proof fn lemma_reduces_one(
    machine: Machine,
    n: nat,
    stack: Seq<u32>,
    lookahead: Lookahead,
    a: Seq<u32>,
    b: Seq<u32>,
)
    requires
        machine.reduces(n, stack, lookahead, a),
        machine.reduces(n, stack, lookahead, b),
    ensures
        a == b,
    decreases n,
{
    if n > 0 {
        let p = machine.act(stack, lookahead)->0->Reduce_0;
        lemma_reduces_one(
            machine,
            (n - 1) as nat,
            machine.reduced(stack, p)->0,
            lookahead,
            a,
            b,
        );
    }
}

/// No reductions follow a stack on which none is called for.
proof fn lemma_reduces_stop(
    machine: Machine,
    n: nat,
    m: nat,
    stack: Seq<u32>,
    lookahead: Lookahead,
    a: Seq<u32>,
    b: Seq<u32>,
)
    requires
        machine.reduces(n, stack, lookahead, a),
        machine.reduces(m, stack, lookahead, b),
        !(machine.act(a, lookahead) matches Some(Action::Reduce(_))),
    ensures
        m <= n,
    decreases n,
{
    if n > 0 && m > 0 {
        let p = machine.act(stack, lookahead)->0->Reduce_0;
        lemma_reduces_stop(
            machine,
            (n - 1) as nat,
            (m - 1) as nat,
            machine.reduced(stack, p)->0,
            lookahead,
            a,
            b,
        );
    }
}

/// Whether an error says that the reductions under a lookahead made the stack so deep that it is over
/// the limit, or did not end, and they do.
pub open spec fn overrun_error(
    machine: Machine,
    limits: RuntimeLimits,
    stack: Seq<u32>,
    lookahead: Lookahead,
    error: RuntimeError,
) -> bool {
    exists|n: nat, middle: Seq<u32>| #[trigger]
        machine.reduces(n, stack, lookahead, middle) && n > 0 && ((middle.len()
            > limits.max_parse_stack && error == (RuntimeError::ResourceLimitExceeded {
            resource: RuntimeResource::ParseStack,
            observed: middle.len() as usize,
            limit: limits.max_parse_stack,
        })) || (n >= u64::MAX && error == (RuntimeError::InternalInvariant {
            message: "LALR reductions did not end",
        })))
}

impl LalrRecognizer {
    /// The stack after the reductions under a lookahead, the action there, and the number of
    /// reductions.
    fn action_after_reductions(
        &self,
        from: Vec<LalrStateId>,
        lookahead: Lookahead,
        Ghost(u): Ghost<Seq<u32>>,
    ) -> (result: Result<(Vec<LalrStateId>, Option<Action>, u64), RuntimeError>)
        requires
            self.compiled.exact(),
            self.compiled.machine().after(u, from@),
        ensures
            match result {
                Ok(settled) => {
                    &&& self.compiled.machine().settles(from@, lookahead, settled.0@)
                    &&& settled.1 == self.compiled.machine().act(settled.0@, lookahead)
                    &&& self.compiled.machine().reduces(
                        settled.2 as nat,
                        from@,
                        lookahead,
                        settled.0@,
                    )
                    &&& settled.0@.len() > 0
                    &&& !overruns(self.compiled.machine(), self.limits, from@, lookahead)
                },
                Err(error) => {
                    &&& overrun_error(
                        self.compiled.machine(),
                        self.limits,
                        from@,
                        lookahead,
                        error,
                    )
                    &&& overruns(self.compiled.machine(), self.limits, from@, lookahead)
                },
            },
    {
        let ghost machine = self.compiled.machine();
        let ghost start = from@;
        let mut stack = from;
        let mut reductions: u64 = 0;
        let ghost mut symbols: Seq<Symbol> = Seq::empty();
        proof {
            lemma_machine(&*self.compiled);
            symbols = machine.lemma_after_carries(u, start);
        }
        while reductions < u64::MAX
            invariant
                self.compiled.exact(),
                machine == self.compiled.machine(),
                start == from@,
                machine.sound(),
                machine.rules == self.compiled.rules(),
                machine.carries(stack@, symbols, u),
                machine.reduces(reductions as nat, start, lookahead, stack@),
                forall|n: nat, middle: Seq<u32>|
                    0 < n <= reductions && #[trigger] machine.reduces(n, start, lookahead, middle)
                        ==> middle.len() <= self.limits.max_parse_stack,
            decreases u64::MAX - reductions,
        {
            let length: usize = stack.len();
            let state = stack[length - 1];
            let action = self.compiled.table.find_action(state, lookahead);
            assert(stack@.last() == state);
            assert(action == machine.act(stack@, lookahead));
            match action {
                Some(Action::Reduce(production)) => {
                    let ghost before = stack@;
                    let ghost mut next: Seq<Symbol> = Seq::empty();
                    proof {
                        next = machine.lemma_reduce(before, symbols, u, lookahead, production);
                        machine.lemma_reduces_push(
                            reductions as nat,
                            start,
                            lookahead,
                            before,
                            production,
                        );
                        assert(production < machine.rules.len());
                        assert(machine.rules[production as int] == crate::item_sets::parser_rule(
                            self.compiled.productions@[production as int],
                        ));
                    }
                    let rule = &self.compiled.productions[production as usize];
                    let kept: usize = length - rule.rhs.len();
                    stack.truncate(kept);
                    assert(stack@ =~= before.take(kept as int));
                    let base = stack[kept - 1];
                    assert(base == before.take(kept as int).last());
                    match self.compiled.table.find_goto(base, rule.lhs) {
                        Some(target) => {
                            stack.push(target);
                        },
                        None => {},
                    }
                    assert(stack@ == machine.reduced(before, production)->0);
                    reductions += 1;
                    match enforce_runtime_limit(
                        RuntimeResource::ParseStack,
                        stack.len(),
                        self.limits.max_parse_stack,
                    ) {
                        Ok(()) => {},
                        Err(error) => {
                            return Err(error);
                        },
                    }
                    proof {
                        symbols = next;
                        assert forall|n: nat, middle: Seq<u32>|
                            0 < n <= reductions && #[trigger] machine.reduces(
                                n,
                                start,
                                lookahead,
                                middle,
                            ) implies middle.len() <= self.limits.max_parse_stack by {
                            if n == reductions {
                                lemma_reduces_one(machine, n, start, lookahead, middle, stack@);
                            }
                        }
                    }
                },
                other => {
                    proof {
                        assert(machine.settles(start, lookahead, stack@));
                        if overruns(machine, self.limits, start, lookahead) {
                            let (n, middle) = choose|n: nat, middle: Seq<u32>| #[trigger]
                                machine.reduces(n, start, lookahead, middle) && n > 0 && (
                                middle.len() > self.limits.max_parse_stack || n >= u64::MAX);
                            lemma_reduces_stop(
                                machine,
                                reductions as nat,
                                n,
                                start,
                                lookahead,
                                stack@,
                                middle,
                            );
                        }
                    }
                    return Ok((stack, other, reductions));
                },
            }
        }
        assert(machine.reduces(reductions as nat, start, lookahead, stack@));
        Err(RuntimeError::InternalInvariant { message: "LALR reductions did not end" })
    }
}

impl LalrRecognizer {
    /// The terminals that can be shifted next, before their first bytes.
    fn start_candidates(&self, Ghost(u): Ghost<Seq<u32>>) -> (result: Result<
        Vec<TerminalCandidate>,
        RuntimeError,
    >)
        requires
            self.compiled.exact(),
            self.compiled.machine().after(u, self.stack@),
        ensures
            match result {
                Ok(candidates) => {
                    &&& candidates_exact(
                        self.compiled.machine(),
                        self.terminals(),
                        self.stack@,
                        Seq::empty(),
                        candidates@,
                    )
                    &&& candidates@.len() <= self.limits.max_active_scans
                    &&& forall|t: u32|
                        t < self.terminals().len() ==> !#[trigger] overruns(
                            self.compiled.machine(),
                            self.limits,
                            self.stack@,
                            Lookahead::Terminal(t),
                        )
                },
                Err(error) => self.start_fails(error),
            },
    {
        let ghost machine = self.compiled.machine();
        let ghost terminals = self.terminals();
        let count: usize = self.compiled.grammar.terminals.len();
        let mut candidates: Vec<TerminalCandidate> = Vec::new();
        let mut index: usize = 0;
        while index < count
            invariant
                self.compiled.exact(),
                machine == self.compiled.machine(),
                machine.after(u, self.stack@),
                terminals == self.terminals(),
                count == terminals.len(),
                index <= count,
                forall|x: int|
                    0 <= x < candidates@.len() ==> candidate_ok(
                        machine,
                        terminals,
                        self.stack@,
                        Seq::empty(),
                        #[trigger] candidates@[x],
                    ),
                terminals_ascend(candidates@),
                forall|x: int|
                    0 <= x < candidates@.len() ==> (#[trigger] candidates@[x]).terminal < index,
                forall|t: u32|
                    #![trigger startable(machine, self.stack@, t)]
                    t < index && startable(machine, self.stack@, t) ==> among(candidates@, t),
                forall|t: u32|
                    t < index ==> !#[trigger] overruns(
                        machine,
                        self.limits,
                        self.stack@,
                        Lookahead::Terminal(t),
                    ),
            decreases count - index,
        {
            if index > u32::MAX as usize {
                return Err(
                    RuntimeError::InternalInvariant { message: "terminal ID does not fit u32" },
                );
            }
            let terminal: u32 = index as u32;
            let lookahead = Lookahead::Terminal(terminal);
            let stack = self.stack.clone();
            assert(stack@ =~= self.stack@);
            let ghost before = candidates@;
            match self.action_after_reductions(stack, lookahead, Ghost(u)) {
                Ok((settled, action, reductions)) => {
                    match action {
                        Some(Action::Shift(shift)) => {
                            let cursor = self.compiled.grammar.terminals[terminal as usize].start();
                            candidates.push(
                                TerminalCandidate {
                                    terminal,
                                    cursor,
                                    stack: settled,
                                    shift,
                                    reductions,
                                },
                            );
                            assert(candidates@[before.len() as int].terminal == terminal);
                        },
                        _ => {
                            assert(!startable(machine, self.stack@, terminal)) by {
                                if startable(machine, self.stack@, terminal) {
                                    let end = choose|end: Seq<u32>| #[trigger]
                                        shift_ready(machine, self.stack@, terminal, end);
                                    machine.lemma_settles_unique(
                                        self.stack@,
                                        lookahead,
                                        end,
                                        settled@,
                                    );
                                }
                            }
                        },
                    }
                    proof {
                        assert forall|t: u32|
                            #![trigger startable(machine, self.stack@, t)]
                            t < index + 1 && startable(machine, self.stack@, t) implies among(
                            candidates@,
                            t,
                        ) by {
                            if t < terminal {
                                assert(among(before, t));
                                let x = choose|x: int|
                                    0 <= x < before.len() && (#[trigger] before[x]).terminal == t;
                                assert(candidates@[x].terminal == t);
                            }
                        }
                    }
                },
                Err(error) => {
                    return Err(error);
                },
            }
            index += 1;
        }
        assert(candidates_exact(
            machine,
            terminals,
            self.stack@,
            Seq::empty(),
            candidates@,
        ));
        match enforce_runtime_limit(
            RuntimeResource::ActiveScans,
            candidates.len(),
            self.limits.max_active_scans,
        ) {
            Ok(()) => {},
            Err(error) => {
                return Err(error);
            },
        }
        Ok(candidates)
    }
}

impl LalrRecognizer {
    /// Whether starting tokens fails with an error for a reason: the reductions for a terminal
    /// overrun, or there are too many tokens to read at once.
    pub open spec fn start_fails(&self, error: RuntimeError) -> bool {
        let machine = self.compiled.machine();
        ||| exists|t: u32|
            t < self.terminals().len() && #[trigger] overrun_error(
                machine,
                self.limits,
                self.stack@,
                Lookahead::Terminal(t),
                error,
            )
        ||| (error matches RuntimeError::ResourceLimitExceeded { resource, observed, limit }
            && resource == RuntimeResource::ActiveScans && limit == self.limits.max_active_scans
            && observed > limit && exists|list: Seq<TerminalCandidate>|
            list.len() == observed && #[trigger] candidates_exact(
                machine,
                self.terminals(),
                self.stack@,
                Seq::empty(),
                list,
            ))
        ||| (error == (RuntimeError::InternalInvariant {
            message: "terminal ID does not fit u32",
        }) && self.terminals().len() > u32::MAX)
    }
}

/// What reading a byte comes to: the token that ended with it, or those that go on.
spec fn read_exact(
    machine: Machine,
    terminals: Seq<CompiledTerminal>,
    stack: Seq<u32>,
    r: Seq<u8>,
    candidates: Seq<TerminalCandidate>,
    accepted: Seq<TerminalCandidate>,
    next: Seq<TerminalCandidate>,
) -> bool {
    &&& forall|x: int|
        0 <= x < accepted.len() ==> ended_ok(machine, terminals, stack, r, #[trigger] accepted[x])
    &&& forall|x: int|
        0 <= x < next.len() ==> candidate_ok(machine, terminals, stack, r, #[trigger] next[x])
    &&& forall|x: int|
        #![trigger candidates[x]]
        0 <= x < candidates.len() ==> went(terminals, r, candidates[x].terminal, accepted, next)
}

/// Whether a candidate's token ended with the last byte of `r`.
spec fn ended_ok(
    machine: Machine,
    terminals: Seq<CompiledTerminal>,
    stack: Seq<u32>,
    r: Seq<u8>,
    candidate: TerminalCandidate,
) -> bool {
    let t = candidate.terminal;
    &&& t < terminals.len()
    &&& machine.settles(stack, Lookahead::Terminal(t), candidate.stack@)
    &&& machine.reduces(
        candidate.reductions as nat,
        stack,
        Lookahead::Terminal(t),
        candidate.stack@,
    )
    &&& machine.act(candidate.stack@, Lookahead::Terminal(t)) == Some(
        Action::Shift(candidate.shift),
    )
    &&& terminals[t as int].matches(r)
}

/// Whether a terminal is among those that ended, or those that go on, as it should be.
spec fn went(
    terminals: Seq<CompiledTerminal>,
    r: Seq<u8>,
    t: u32,
    accepted: Seq<TerminalCandidate>,
    next: Seq<TerminalCandidate>,
) -> bool {
    &&& t < terminals.len() && terminals[t as int].matches(r) ==> among(accepted, t)
    &&& t < terminals.len() && !terminals[t as int].matches(r) && terminals[t as int].read(r) is Some
        && terminals[t as int].spec_live(terminals[t as int].read(r)->0) ==> among(next, t)
}

proof fn lemma_among_push(list: Seq<TerminalCandidate>, new: TerminalCandidate, t: u32)
    ensures
        among(list, t) ==> among(list.push(new), t),
        among(list.push(new), new.terminal),
{
    if among(list, t) {
        let x = choose|x: int| 0 <= x < list.len() && (#[trigger] list[x]).terminal == t;
        assert(list.push(new)[x].terminal == t);
    }
    assert(list.push(new)[list.len() as int].terminal == new.terminal);
}

/// Whether a candidate is another one a byte on.
spec fn stepped_from(
    terminals: Seq<CompiledTerminal>,
    byte: u8,
    candidates: Seq<TerminalCandidate>,
    after: TerminalCandidate,
) -> bool {
    exists|y: int|
        0 <= y < candidates.len() && steps(terminals, byte, #[trigger] candidates[y], after)
}

spec fn steps(
    terminals: Seq<CompiledTerminal>,
    byte: u8,
    before: TerminalCandidate,
    after: TerminalCandidate,
) -> bool {
    &&& after.terminal == before.terminal
    &&& after.stack@ == before.stack@
    &&& after.shift == before.shift
    &&& after.reductions == before.reductions
    &&& terminals[before.terminal as int].spec_advance(before.cursor, byte) == Some(after.cursor)
}

/// Whether a candidate is where it should be after a byte.
spec fn placed(
    terminals: Seq<CompiledTerminal>,
    byte: u8,
    before: TerminalCandidate,
    accepted: Seq<TerminalCandidate>,
    next: Seq<TerminalCandidate>,
) -> bool {
    let terminal = terminals[before.terminal as int];
    terminal.spec_advance(before.cursor, byte) matches Some(cursor) ==> {
        &&& terminal.spec_accepting(cursor) ==> among(accepted, before.terminal)
        &&& !terminal.spec_accepting(cursor) && terminal.spec_live(cursor) ==> among(
            next,
            before.terminal,
        )
    }
}

/// What a byte does to candidates: those whose tokens end with it, and those that go on.
spec fn stepped(
    terminals: Seq<CompiledTerminal>,
    byte: u8,
    candidates: Seq<TerminalCandidate>,
    accepted: Seq<TerminalCandidate>,
    next: Seq<TerminalCandidate>,
) -> bool {
    &&& forall|x: int|
        0 <= x < accepted.len() ==> stepped_from(
            terminals,
            byte,
            candidates,
            #[trigger] accepted[x],
        ) && terminals[accepted[x].terminal as int].spec_accepting(accepted[x].cursor)
    &&& forall|x: int|
        0 <= x < next.len() ==> stepped_from(terminals, byte, candidates, #[trigger] next[x])
            && !terminals[next[x].terminal as int].spec_accepting(next[x].cursor)
            && terminals[next[x].terminal as int].spec_live(next[x].cursor)
    &&& forall|y: int|
        #![trigger candidates[y]]
        0 <= y < candidates.len() ==> placed(terminals, byte, candidates[y], accepted, next)
    &&& terminals_ascend(accepted)
    &&& terminals_ascend(next)
}

/// What a byte does to candidates is right for every input that leads to them.
proof fn lemma_stepped(
    machine: Machine,
    terminals: Seq<CompiledTerminal>,
    stack: Seq<u32>,
    r: Seq<u8>,
    byte: u8,
    candidates: Seq<TerminalCandidate>,
    accepted: Seq<TerminalCandidate>,
    next: Seq<TerminalCandidate>,
)
    requires
        candidates_exact(machine, terminals, stack, r, candidates),
        stepped(terminals, byte, candidates, accepted, next),
    ensures
        read_exact(machine, terminals, stack, r.push(byte), candidates, accepted, next),
{
    let on = r.push(byte);
    assert(on.drop_last() =~= r);
    assert forall|x: int| 0 <= x < accepted.len() implies ended_ok(
        machine,
        terminals,
        stack,
        on,
        #[trigger] accepted[x],
    ) by {
        let y = choose|y: int|
            0 <= y < candidates.len() && steps(terminals, byte, #[trigger] candidates[y], accepted[x]);
        assert(candidate_ok(machine, terminals, stack, r, candidates[y]));
        let t = candidates[y].terminal as int;
        assert(terminals[t].read(on) == Some(accepted[x].cursor));
    }
    assert forall|x: int| 0 <= x < next.len() implies candidate_ok(
        machine,
        terminals,
        stack,
        on,
        #[trigger] next[x],
    ) by {
        let y = choose|y: int|
            0 <= y < candidates.len() && steps(terminals, byte, #[trigger] candidates[y], next[x]);
        assert(candidate_ok(machine, terminals, stack, r, candidates[y]));
        let t = candidates[y].terminal as int;
        assert(terminals[t].read(on) == Some(next[x].cursor));
    }
    assert forall|x: int|
        #![trigger candidates[x]]
        0 <= x < candidates.len() implies went(
        terminals,
        on,
        candidates[x].terminal,
        accepted,
        next,
    ) by {
        assert(candidate_ok(machine, terminals, stack, r, candidates[x]));
        assert(placed(terminals, byte, candidates[x], accepted, next));
    }
}

/// Reads a byte with every candidate.
fn read_byte(grammar: &ResidualGrammar, candidates: Vec<TerminalCandidate>, byte: u8) -> (read: (
    Vec<TerminalCandidate>,
    Vec<TerminalCandidate>,
))
    requires
        grammar.wf(),
        forall|x: int|
            0 <= x < candidates@.len() ==> (#[trigger] candidates@[x]).terminal
                < grammar.terminals@.len(),
        terminals_ascend(candidates@),
    ensures
        stepped(grammar.terminals@, byte, candidates@, read.0@, read.1@),
{
    let ghost terminals = grammar.terminals@;
    let ghost all = candidates@;
    let mut rest: Vec<TerminalCandidate> = Vec::new();
    let mut candidates = candidates;
    while candidates.len() > 0
        invariant
            candidates@.len() <= all.len(),
            candidates@ == all.take(candidates@.len() as int),
            rest@ == all.skip(candidates@.len() as int).reverse(),
        decreases candidates@.len(),
    {
        match candidates.pop() {
            Some(candidate) => {
                rest.push(candidate);
                assert(candidates@ =~= all.take(candidates@.len() as int));
                assert(rest@ =~= all.skip(candidates@.len() as int).reverse());
            },
            None => {},
        }
    }
    assert(all.skip(0) =~= all);
    let mut accepted: Vec<TerminalCandidate> = Vec::new();
    let mut next: Vec<TerminalCandidate> = Vec::new();
    while rest.len() > 0
        invariant
            grammar.wf(),
            terminals == grammar.terminals@,
            forall|x: int|
                0 <= x < all.len() ==> (#[trigger] all[x]).terminal < terminals.len(),
            rest@.len() <= all.len(),
            rest@ == all.skip(all.len() - rest@.len()).reverse(),
            terminals_ascend(all),
            terminals_ascend(accepted@),
            terminals_ascend(next@),
            forall|x: int, y: int|
                0 <= x < accepted@.len() && all.len() - rest@.len() <= y < all.len() ==> (
                #[trigger] accepted@[x]).terminal < (#[trigger] all[y]).terminal,
            forall|x: int, y: int|
                0 <= x < next@.len() && all.len() - rest@.len() <= y < all.len() ==> (
                #[trigger] next@[x]).terminal < (#[trigger] all[y]).terminal,
            forall|x: int|
                0 <= x < accepted@.len() ==> stepped_from(
                    terminals,
                    byte,
                    all,
                    #[trigger] accepted@[x],
                ) && terminals[accepted@[x].terminal as int].spec_accepting(accepted@[x].cursor),
            forall|x: int|
                0 <= x < next@.len() ==> stepped_from(terminals, byte, all, #[trigger] next@[x])
                    && !terminals[next@[x].terminal as int].spec_accepting(next@[x].cursor)
                    && terminals[next@[x].terminal as int].spec_live(next@[x].cursor),
            forall|y: int|
                #![trigger all[y]]
                0 <= y < all.len() - rest@.len() ==> placed(
                    terminals,
                    byte,
                    all[y],
                    accepted@,
                    next@,
                ),
        decreases rest@.len(),
    {
        let ghost place = all.len() - rest@.len();
        let ghost accepted_before = accepted@;
        let ghost next_before = next@;
        match rest.pop() {
            Some(candidate) => {
                let ghost current = candidate;
                proof {
                    assert(current == all[place]);
                    assert(rest@ =~= all.skip(place + 1).reverse());
                }
                let terminal = &grammar.terminals[candidate.terminal as usize];
                assert(terminals[candidate.terminal as int].wf());
                match terminal.advance(candidate.cursor, byte) {
                    Some(cursor) => {
                        let mut moved = candidate;
                        moved.cursor = cursor;
                        assert(steps(terminals, byte, all[place], moved));
                        assert(stepped_from(terminals, byte, all, moved));
                        if terminal.is_accepting(cursor) {
                            proof {
                                lemma_among_push(accepted_before, moved, moved.terminal);
                            }
                            accepted.push(moved);
                        } else if terminal.is_live(cursor) {
                            proof {
                                lemma_among_push(next_before, moved, moved.terminal);
                            }
                            next.push(moved);
                        }
                    },
                    None => {},
                }
                proof {
                    assert forall|y: int|
                        #![trigger all[y]]
                        0 <= y < place + 1 implies placed(
                        terminals,
                        byte,
                        all[y],
                        accepted@,
                        next@,
                    ) by {
                        if y < place {
                            assert(placed(
                                terminals,
                                byte,
                                all[y],
                                accepted_before,
                                next_before,
                            ));
                            if accepted@.len() > accepted_before.len() {
                                lemma_among_push(
                                    accepted_before,
                                    accepted@.last(),
                                    all[y].terminal,
                                );
                                assert(accepted@ =~= accepted_before.push(accepted@.last()));
                            }
                            if next@.len() > next_before.len() {
                                lemma_among_push(next_before, next@.last(), all[y].terminal);
                                assert(next@ =~= next_before.push(next@.last()));
                            }
                        }
                    }
                }
            },
            None => {},
        }
    }
    (accepted, next)
}

/// Tokens whose ends can be told are told in one way.
proof fn lemma_token_prefix(
    terminals: Seq<CompiledTerminal>,
    u: Seq<u32>,
    other: Seq<u32>,
    h: Seq<u8>,
    g: Seq<u8>,
    i: int,
    k: int,
)
    requires
        forall|t: int| 0 <= t < terminals.len() ==> (#[trigger] terminals[t]).wf(),
        lalr::lexically_safe(terminals),
        tokens::lexes(residual::terminal_lex(terminals), u, h, i, k),
        tokens::lexes(residual::terminal_lex(terminals), other, g, i, g.len() as int),
        h.len() <= g.len(),
        forall|x: int| 0 <= x < h.len() ==> h[x] == g[x],
    ensures
        u.len() <= other.len(),
        other.take(u.len() as int) == u,
        tokens::lexes(
            residual::terminal_lex(terminals),
            other.skip(u.len() as int),
            g,
            k,
            g.len() as int,
        ),
    decreases u.len(),
{
    let lex = residual::terminal_lex(terminals);
    tokens::lemma_lexes_bounds(lex, u, h, i, k);
    if u.len() == 0 {
        assert(other.take(0) =~= u);
        assert(other.skip(0) =~= other);
    } else {
        let c = choose|c: int| #[trigger]
            derivation::at(c) && 0 <= i <= c <= h.len() && lex(u[0], h.subrange(i, c))
                && tokens::lexes(lex, u.skip(1), h, c, k);
        let v = h.subrange(i, c);
        assert(v.len() > 0);
        assert(other.len() > 0) by {
            if other.len() == 0 {
                assert(i == g.len());
            }
        }
        let d = choose|d: int| #[trigger]
            derivation::at(d) && 0 <= i <= d <= g.len() && lex(other[0], g.subrange(i, d))
                && tokens::lexes(lex, other.skip(1), g, d, g.len() as int);
        let w = g.subrange(i, d);
        let t = u[0];
        let s = other[0];
        lemma_one_end(terminals, t, s, v, w, g.subrange(i, g.len() as int));
        assert(c == d);
        lemma_token_prefix(terminals, u.skip(1), other.skip(1), h, g, c, k);
        assert(other.take(u.len() as int) =~= u) by {
            assert forall|x: int| 0 <= x < u.len() implies other[x] == u[x] by {
                if x > 0 {
                    assert(other.skip(1).take(u.len() - 1)[x - 1] == u.skip(1)[x - 1]);
                }
            }
        }
        assert(other.skip(1).skip(u.len() - 1) =~= other.skip(u.len() as int));
    }
}

/// Two words at the start of a string are the same, and of the same terminal.
proof fn lemma_one_end(
    terminals: Seq<CompiledTerminal>,
    t: u32,
    s: u32,
    v: Seq<u8>,
    w: Seq<u8>,
    all: Seq<u8>,
)
    requires
        forall|t: int| 0 <= t < terminals.len() ==> (#[trigger] terminals[t]).wf(),
        lalr::lexically_safe(terminals),
        t < terminals.len(),
        s < terminals.len(),
        terminals[t as int].matches(v),
        terminals[s as int].matches(w),
        v.is_prefix_of(all),
        w.is_prefix_of(all),
    ensures
        t == s,
        v == w,
{
    if v.len() <= w.len() {
        lemma_shorter(terminals, t, s, v, w);
    } else {
        lemma_shorter(terminals, s, t, w, v);
    }
}

/// A word that begins another is that other, and of the same terminal.
proof fn lemma_shorter(
    terminals: Seq<CompiledTerminal>,
    t: u32,
    s: u32,
    v: Seq<u8>,
    w: Seq<u8>,
)
    requires
        forall|t: int| 0 <= t < terminals.len() ==> (#[trigger] terminals[t]).wf(),
        lalr::lexically_safe(terminals),
        t < terminals.len(),
        s < terminals.len(),
        terminals[t as int].matches(v),
        terminals[s as int].matches(w),
        v.len() <= w.len(),
        forall|x: int| 0 <= x < v.len() ==> v[x] == w[x],
    ensures
        t == s,
        v == w,
{
    let a = terminals[t as int];
    let b = terminals[s as int];
    let n = v.len() as int;
    assert(w.take(n) =~= v);
    b.lemma_read_prefix(w, n);
    if t != s {
        if t < s {
            assert(lalr::overlaps_on(a, b, v));
            assert(lalr::overlap(a, b));
        } else {
            assert(lalr::overlaps_on(b, a, v));
            assert(lalr::overlap(b, a));
        }
    }
    if v.len() < w.len() {
        b.lemma_match_live(w, n);
        assert(lalr::prefix_free(b));
        match b {
            CompiledTerminal::Literal(_) => {
                b.lemma_literal_matches(v);
                b.lemma_literal_matches(w);
            },
            CompiledTerminal::Dfa(dfa) => {
                b.lemma_dfa_matches(v);
                assert(dfa.accepts_at(dfa.run(0, v)));
                assert(dfa.extendable_at(dfa.run(0, v)));
            },
        }
    } else {
        assert(v =~= w);
    }
}

/// The nonterminals that derive nothing are marked nullable.
proof fn lemma_nullable_marked(compiled: &CompiledLalr)
    requires
        compiled.exact(),
        compiled.grammar.nullable_exact(),
    ensures
        compiled.machine().nullable_marked(),
{
    lemma_machine(compiled);
    let machine = compiled.machine();
    let grammar = compiled.grammar;
    let extra = lalr::augmented_rule(&*grammar);
    assert forall|a: u32, n: nat| #[trigger]
        tokens::spells(machine.rules, n, Symbol::Nonterminal(a), Seq::empty()) && a
            != machine.rules.last().lhs implies lr::is_nullable(
        machine.nullable,
        Symbol::Nonterminal(a),
    ) by {
        let lex = grammar.lex();
        let none = Seq::<u8>::empty();
        assert(tokens::lexes(lex, Seq::empty(), none, 0, 0));
        tokens::lemma_spells_derives(
            machine.rules,
            lex,
            n,
            Symbol::Nonterminal(a),
            Seq::empty(),
            none,
            0,
            0,
        );
        lemma_plain_derives(&*grammar, n, Symbol::Nonterminal(a), none, 0, 0);
        assert(derivation::generates(grammar.rules(), lex, a, none));
        assert(a < grammar.nonterminals@.len()) by {
            let p = choose|p: int|
                #![trigger grammar.rules()[p]]
                0 <= p < grammar.rules().len() && grammar.rules()[p].lhs == a
                    && derivation::derives_seq(
                    grammar.rules(),
                    lex,
                    (n - 1) as nat,
                    grammar.rules()[p].rhs,
                    none,
                    0,
                    0,
                );
            assert(grammar.rules()[p] == residual::residual_rule(grammar.productions@[p]));
        }
    }
}

/// The augmented production does not bear on what the other nonterminals derive.
pub proof fn lemma_plain_derives(
    grammar: &ResidualGrammar,
    n: nat,
    symbol: Symbol,
    w: Seq<u8>,
    i: int,
    j: int,
)
    requires
        grammar.wf(),
        symbol != Symbol::Nonterminal(lalr::augmented_rule(grammar).lhs),
        grammar.nonterminals@.len() <= u32::MAX,
    ensures
        derivation::derives(
            grammar.rules().push(lalr::augmented_rule(grammar)),
            grammar.lex(),
            n,
            symbol,
            w,
            i,
            j,
        ) == derivation::derives(grammar.rules(), grammar.lex(), n, symbol, w, i, j),
    decreases n, 0nat,
{
    let rules = grammar.rules();
    let extra = lalr::augmented_rule(grammar);
    let more = rules.push(extra);
    let lex = grammar.lex();
    if let Symbol::Nonterminal(a) = symbol {
        if n > 0 {
            let n1 = (n - 1) as nat;
            if derivation::derives(more, lex, n, symbol, w, i, j) {
                let p = choose|p: int|
                    #![trigger more[p]]
                    0 <= p < more.len() && more[p].lhs == a && derivation::derives_seq(
                        more,
                        lex,
                        n1,
                        more[p].rhs,
                        w,
                        i,
                        j,
                    );
                assert(more[p] == rules[p]);
                assert(rules[p] == residual::residual_rule(grammar.productions@[p]));
                lemma_plain_derives_seq(grammar, n1, rules[p].rhs, w, i, j);
            }
            if derivation::derives(rules, lex, n, symbol, w, i, j) {
                let p = choose|p: int|
                    #![trigger rules[p]]
                    0 <= p < rules.len() && rules[p].lhs == a && derivation::derives_seq(
                        rules,
                        lex,
                        n1,
                        rules[p].rhs,
                        w,
                        i,
                        j,
                    );
                assert(rules[p] == residual::residual_rule(grammar.productions@[p]));
                lemma_plain_derives_seq(grammar, n1, rules[p].rhs, w, i, j);
                assert(more[p] == rules[p]);
            }
        }
    }
}

proof fn lemma_plain_derives_seq(
    grammar: &ResidualGrammar,
    n: nat,
    symbols: Seq<Symbol>,
    w: Seq<u8>,
    i: int,
    j: int,
)
    requires
        grammar.wf(),
        residual::symbols_in(symbols, grammar.nonterminals@.len(), grammar.terminals@.len()),
        grammar.nonterminals@.len() <= u32::MAX,
    ensures
        derivation::derives_seq(
            grammar.rules().push(lalr::augmented_rule(grammar)),
            grammar.lex(),
            n,
            symbols,
            w,
            i,
            j,
        ) == derivation::derives_seq(grammar.rules(), grammar.lex(), n, symbols, w, i, j),
    decreases n, symbols.len(),
{
    let rules = grammar.rules();
    let more = rules.push(lalr::augmented_rule(grammar));
    let lex = grammar.lex();
    if symbols.len() > 0 {
        let front = symbols.drop_last();
        let last = symbols.last();
        assert(residual::symbol_in(
            symbols[symbols.len() - 1],
            grammar.nonterminals@.len(),
            grammar.terminals@.len(),
        ));
        assert forall|x: int| 0 <= x < front.len() implies residual::symbol_in(
            #[trigger] front[x],
            grammar.nonterminals@.len(),
            grammar.terminals@.len(),
        ) by {
            assert(front[x] == symbols[x]);
        }
        if derivation::derives_seq(more, lex, n, symbols, w, i, j) {
            let k = choose|k: int| #[trigger]
                derivation::at(k) && derivation::derives_seq(more, lex, n, front, w, i, k)
                    && derivation::derives(more, lex, n, last, w, k, j);
            lemma_plain_derives_seq(grammar, n, front, w, i, k);
            lemma_plain_derives(grammar, n, last, w, k, j);
            assert(derivation::at(k));
        }
        if derivation::derives_seq(rules, lex, n, symbols, w, i, j) {
            let k = choose|k: int| #[trigger]
                derivation::at(k) && derivation::derives_seq(rules, lex, n, front, w, i, k)
                    && derivation::derives(rules, lex, n, last, w, k, j);
            lemma_plain_derives_seq(grammar, n, front, w, i, k);
            lemma_plain_derives(grammar, n, last, w, k, j);
            assert(derivation::at(k));
        }
    }
}

/// Whether a terminal that can be shifted matches a string from a position on.
spec fn goes_on(
    machine: Machine,
    terminals: Seq<CompiledTerminal>,
    stack: Seq<u32>,
    g: Seq<u8>,
    k: int,
    t: u32,
    c: int,
) -> bool {
    &&& t < terminals.len()
    &&& startable(machine, stack, t)
    &&& k < c <= g.len()
    &&& terminals[t as int].matches(g.subrange(k, c))
}

/// What the grammar generates goes on from the tokens read so far: it ends there and is accepted, or
/// a token follows that can be shifted.
proof fn lemma_continues(
    compiled: &CompiledLalr,
    stack: Seq<u32>,
    h: Seq<u8>,
    u: Seq<u32>,
    k: int,
    g: Seq<u8>,
) -> (next: Option<(u32, int)>)
    requires
        compiled.exact(),
        compiled.conflicts@.len() == 0,
        compiled.lexical_safe,
        compiled.grammar.nullable_exact(),
        0 <= k <= h.len() <= g.len(),
        forall|x: int| 0 <= x < h.len() ==> h[x] == g[x],
        tokens::lexes(compiled.grammar.lex(), u, h, 0, k),
        compiled.machine().after(u, stack),
        compiled.grammar.generates(g),
    ensures
        match next {
            Some(on) => goes_on(
                compiled.machine(),
                compiled.grammar.terminals@,
                stack,
                g,
                k,
                on.0,
                on.1,
            ),
            None => k == g.len() && accepts_now(compiled.machine(), stack),
        },
{
    lemma_machine(compiled);
    lemma_nullable_marked(compiled);
    let machine = compiled.machine();
    let grammar = compiled.grammar;
    let terminals = grammar.terminals@;
    let lex = grammar.lex();
    let symbol = Symbol::Nonterminal(grammar.start);
    let len = g.len() as int;
    let n = choose|n: nat| derivation::derives(grammar.rules(), lex, n, symbol, g, 0, len);
    lemma_plain_derives(&*grammar, n, symbol, g, 0, len);
    let other = tokens::lemma_derives_spells(machine.rules, lex, n, symbol, g, 0, len);
    lemma_token_prefix(terminals, u, other, h, g, 0, k);
    let cut = u.len() as int;
    assert(machine.start() == grammar.start);
    let (before, end) = machine.lemma_accepts_complete(n, other, cut);
    machine.lemma_after_unique(u, stack, before);
    let rest = other.skip(cut);
    if rest.len() == 0 {
        assert(k == g.len());
        assert(accepts_now(machine, stack));
        None
    } else {
        let t = rest[0];
        assert(t == other[cut]);
        let c = choose|c: int| #[trigger]
            derivation::at(c) && 0 <= k <= c <= g.len() && lex(rest[0], g.subrange(k, c))
                && tokens::lexes(lex, rest.skip(1), g, c, len);
        assert(shift_ready(machine, stack, t, end));
        assert(g.subrange(k, c).len() > 0);
        Some((t, c))
    }
}

impl CompiledLalr {
    /// A recognizer at the start of the input. The generation tells its checkpoints from those of
    /// others.
    #[must_use]
    pub fn recognizer(
        self: &Arc<CompiledLalr>,
        limits: RuntimeLimits,
        generation: u64,
    ) -> (recognizer: LalrRecognizer)
        requires
            self.exact(),
        ensures
            recognizer.wf(),
            recognizer.recognizes(Seq::empty()),
            recognizer.compiled == *self,
            recognizer.limits == limits,
            recognizer.generation == generation,
            recognizer.byte_position == 0,
            recognizer.candidates@.len() == 0,
            recognizer.stats == (LalrRuntimeStats {
                shifts: 0,
                reductions: 0,
                max_stack_depth: 1,
                bytes: 0,
            }),
    {
        let mut stack: Vec<LalrStateId> = Vec::new();
        stack.push(0);
        let recognizer = LalrRecognizer {
            compiled: Arc::clone(self),
            limits,
            generation,
            stack,
            candidates: Vec::new(),
            byte_position: 0,
            stats: LalrRuntimeStats { shifts: 0, reductions: 0, max_stack_depth: 1, bytes: 0 },
        };
        proof {
            let none = Seq::<u32>::empty();
            assert(recognizer.stack@ =~= seq![0u32]);
            assert(recognizer.split(Seq::empty(), none, 0));
            assert(recognizer.recognizes(Seq::empty()));
        }
        recognizer
    }
}

impl LalrRecognizer {
    /// Whether reading a byte fails with an error for a reason: the input is too long, tokens cannot
    /// be started, the stack is too deep, or tokens whose ends cannot be told ended together.
    pub open spec fn advance_fails(&self, error: RuntimeError) -> bool {
        ||| (error matches RuntimeError::ResourceLimitExceeded { resource, observed, limit }
            && resource == RuntimeResource::InputBytes && observed == count::saturated(
            (self.byte_position + 1) as nat,
        ) && ((limit == self.limits.max_input_bytes && observed > limit) || (limit == u32::MAX
            && self.byte_position == u32::MAX)))
        ||| (self.candidates@.len() == 0 && self.start_fails(error))
        ||| (error matches RuntimeError::ResourceLimitExceeded { resource, observed, limit }
            && resource == RuntimeResource::ParseStack && limit == self.limits.max_parse_stack
            && observed > limit && exists|t: u32, end: Seq<u32>|
            end.len() + 1 == observed && #[trigger] shift_ready(
                self.compiled.machine(),
                self.stack@,
                t,
                end,
            ))
        ||| (error == (RuntimeError::InternalInvariant {
            message: "lexically safe LALR state accepted multiple terminals",
        }) && !self.compiled.lexical_safe)
    }
}

/// A count with one more, up to the largest number.
pub open spec fn one_more(count: u64) -> u64 {
    if count == u64::MAX {
        count
    } else {
        (count + 1) as u64
    }
}

impl LalrRecognizer {
    /// Without candidates, what was read is what the tokens make up.
    proof fn lemma_dropped(&self, before: &LalrRecognizer, h: Seq<u8>, u: Seq<u32>, k: int)
        requires
            before.compiled.exact(),
            before.split(h, u, k),
            self.compiled == before.compiled,
            self.stack@ == before.stack@,
            self.candidates@.len() == 0,
        ensures
            self.wf(),
    {
        let front = h.take(k);
        lemma_lexes_prefix(self.compiled.grammar.lex(), u, h, front, 0, k);
        assert(self.split(front, u, k));
        assert(self.recognizes(front));
    }

    /// Whether the tokens that can be started keep within the limits.
    pub open spec fn starts_within(&self) -> bool {
        let machine = self.compiled.machine();
        &&& forall|t: u32|
            t < self.terminals().len() ==> !#[trigger] overruns(
                machine,
                self.limits,
                self.stack@,
                Lookahead::Terminal(t),
            )
        &&& exists|list: Seq<TerminalCandidate>|
            list.len() <= self.limits.max_active_scans && #[trigger] candidates_exact(
                machine,
                self.terminals(),
                self.stack@,
                Seq::empty(),
                list,
            )
    }

    /// Whether no limit keeps the recognizer from seeing whether the input may end here and which
    /// tokens may start.
    pub open spec fn unhindered(&self) -> bool {
        self.candidates@.len() == 0 ==> self.starts_within() && !overruns(
            self.compiled.machine(),
            self.limits,
            self.stack@,
            Lookahead::Eof,
        )
    }

    /// Whether a token that ends was shifted behind its reductions, and these were counted.
    pub open spec fn shifted(&self, before: &Self, terminal: u32, reductions: u64) -> bool {
        let machine = self.compiled.machine();
        let lookahead = Lookahead::Terminal(terminal);
        &&& self.stack@.len() > 0
        &&& machine.reduces(
            reductions as nat,
            before.stack@,
            lookahead,
            self.stack@.drop_last(),
        )
        &&& machine.act(self.stack@.drop_last(), lookahead) == Some(
            Action::Shift(self.stack@.last()),
        )
        &&& self.stats.reductions == (if before.stats.reductions + reductions > u64::MAX {
            u64::MAX
        } else {
            (before.stats.reductions + reductions) as u64
        })
    }

    /// Whether a byte was read, or was answered by no.
    pub open spec fn took(&self, before: &Self, byte: u8, answer: bool) -> bool {
        &&& before.candidates@.len() == 0 ==> before.starts_within()
        &&& if answer {
            &&& forall|h: Seq<u8>| #[trigger]
                before.recognizes(h) ==> self.recognizes(h.push(byte))
            &&& self.byte_position == before.byte_position + 1
            &&& self.stats.bytes == one_more(before.stats.bytes)
            &&& if self.candidates@.len() == 0 {
                &&& self.stack@.len() <= before.limits.max_parse_stack
                &&& self.stats.shifts == one_more(before.stats.shifts)
                &&& exists|terminal: u32, reductions: u64| #[trigger]
                    self.shifted(before, terminal, reductions)
                &&& self.stats.max_stack_depth == (if self.stack@.len()
                    > before.stats.max_stack_depth {
                    self.stack@.len() as u64
                } else {
                    before.stats.max_stack_depth
                })
            } else {
                &&& self.stack@ == before.stack@
                &&& self.stats.shifts == before.stats.shifts
                &&& self.stats.reductions == before.stats.reductions
                &&& self.stats.max_stack_depth == before.stats.max_stack_depth
            }
        } else {
            &&& self.stack@ == before.stack@
            &&& self.candidates@.len() == 0
            &&& self.byte_position == before.byte_position
            &&& self.stats == before.stats
            &&& before.faithful() ==> forall|h: Seq<u8>, rest: Seq<u8>|
                before.recognizes(h) ==> !#[trigger] before.compiled.grammar.generates(
                    #[trigger] h.push(byte) + rest,
                )
        }
    }

    /// Reads a byte. Says whether the input so far can be read.
    #[verifier::rlimit(60)]
    pub fn advance_byte(&mut self, byte: u8) -> (result: Result<bool, RuntimeError>)
        requires
            old(self).wf(),
        ensures
            final(self).wf(),
            final(self).compiled == old(self).compiled,
            final(self).limits == old(self).limits,
            final(self).generation == old(self).generation,
            result matches Ok(answer) ==> final(self).took(old(self), byte, answer),
            result matches Err(error) ==> old(self).advance_fails(error),
            old(self).limits.max_input_bytes <= old(self).byte_position < u32::MAX ==> result is Err,
    {
        let ghost before = *self;
        let next_position: usize = (self.byte_position as usize).saturating_add(1);
        match enforce_runtime_limit(
            RuntimeResource::InputBytes,
            next_position,
            self.limits.max_input_bytes,
        ) {
            Ok(()) => {},
            Err(error) => {
                return Err(error);
            },
        }
        let ghost machine = self.compiled.machine();
        let ghost terminals = self.terminals();
        let ghost mut h0: Seq<u8> = Seq::empty();
        let ghost mut u0: Seq<u32> = Seq::empty();
        let ghost mut k0: int = 0;
        proof {
            h0 = choose|h: Seq<u8>| before.recognizes(h);
            let (u, k) = choose|u: Seq<u32>, k: int| before.split(h0, u, k);
            u0 = u;
            k0 = k;
        }
        let mut candidates: Vec<TerminalCandidate> = Vec::new();
        std::mem::swap(&mut candidates, &mut self.candidates);
        if candidates.len() == 0 {
            match self.start_candidates(Ghost(u0)) {
                Ok(started) => {
                    candidates = started;
                },
                Err(error) => {
                    proof {
                        self.lemma_dropped(&before, h0, u0, k0);
                        assert(before.start_fails(error));
                    }
                    return Err(error);
                },
            }
        }
        let ghost started = candidates@;
        assert(before.candidates@.len() == 0 ==> before.starts_within());
        assert(before.ready(started));
        proof {
            before.lemma_ready(started, h0, u0, k0);
        }
        assert forall|x: int| 0 <= x < started.len() implies (#[trigger] started[x]).terminal
            < terminals.len() by {
            assert(candidate_ok(
                machine,
                terminals,
                before.stack@,
                before.rest_of(h0, k0),
                started[x],
            ));
        }
        let (mut accepted, next) = read_byte(&self.compiled.grammar, candidates, byte);
        let ghost ended = accepted@;
        let ghost going = next@;
        let ghost rest = before.rest_of(h0, k0);
        proof {
            lemma_stepped(
                machine,
                terminals,
                before.stack@,
                rest,
                byte,
                started,
                ended,
                going,
            );
        }
        if accepted.len() > 1 {
            proof {
                self.lemma_dropped(&before, h0, u0, k0);
                if before.compiled.lexical_safe {
                    let word = rest.push(byte);
                    assert(ended_ok(machine, terminals, before.stack@, word, ended[0]));
                    assert(ended_ok(machine, terminals, before.stack@, word, ended[1]));
                    lemma_one_end(
                        terminals,
                        ended[0].terminal,
                        ended[1].terminal,
                        word,
                        word,
                        word,
                    );
                }
            }
            return Err(
                RuntimeError::InternalInvariant {
                    message: "lexically safe LALR state accepted multiple terminals",
                },
            );
        }
        match accepted.pop() {
            Some(candidate) => {
                let ghost settled = candidate.stack@;
                let mut stack = candidate.stack;
                stack.push(candidate.shift);
                match enforce_runtime_limit(
                    RuntimeResource::ParseStack,
                    stack.len(),
                    self.limits.max_parse_stack,
                ) {
                    Ok(()) => {},
                    Err(error) => {
                        proof {
                            self.lemma_dropped(&before, h0, u0, k0);
                            assert(ended_ok(
                                machine,
                                terminals,
                                before.stack@,
                                rest.push(byte),
                                ended[0],
                            ));
                            assert(shift_ready(
                                machine,
                                before.stack@,
                                candidate.terminal,
                                settled,
                            ));
                        }
                        return Err(error);
                    },
                }
                self.stack = stack;
                self.stats.shifts = self.stats.shifts.saturating_add(1);
                self.stats.reductions = self.stats.reductions.saturating_add(candidate.reductions);
                self.stats.max_stack_depth = count::larger(
                    self.stats.max_stack_depth,
                    usize_to_u64(self.stack.len()),
                );
                proof {
                    assert(self.stack@.drop_last() =~= settled);
                    assert(ended_ok(
                        machine,
                        terminals,
                        before.stack@,
                        rest.push(byte),
                        ended[0],
                    ));
                    assert(self.shifted(&before, candidate.terminal, candidate.reductions));
                    assert forall|h: Seq<u8>| #[trigger] before.recognizes(h) implies self.recognizes(
                        h.push(byte),
                    ) by {
                        let (u, k) = choose|u: Seq<u32>, k: int| before.split(h, u, k);
                        self.lemma_shifted(&before, started, h, u, k, byte, ended, going);
                    }
                    assert(self.recognizes(h0.push(byte)));
                }
            },
            None => {
                let empty = next.len() == 0;
                self.candidates = next;
                if empty {
                    proof {
                        self.lemma_dropped(&before, h0, u0, k0);
                        if before.faithful() {
                            assert forall|h: Seq<u8>, rest: Seq<u8>|
                                before.recognizes(
                                    h,
                                ) implies !#[trigger] before.compiled.grammar.generates(
                                #[trigger] h.push(byte) + rest,
                            ) by {
                                let (u, k) = choose|u: Seq<u32>, k: int| before.split(h, u, k);
                                before.lemma_stuck(started, h, u, k, byte, rest, ended, going);
                            }
                        }
                    }
                    return Ok(false);
                }
                proof {
                    assert forall|h: Seq<u8>| #[trigger] before.recognizes(h) implies self.recognizes(
                        h.push(byte),
                    ) by {
                        let (u, k) = choose|u: Seq<u32>, k: int| before.split(h, u, k);
                        self.lemma_read_on(&before, started, h, u, k, byte, ended, going);
                    }
                    assert(self.recognizes(h0.push(byte)));
                }
            },
        }
        if self.byte_position == u32::MAX {
            return Err(
                RuntimeError::ResourceLimitExceeded {
                    resource: RuntimeResource::InputBytes,
                    observed: next_position,
                    limit: u32::MAX as usize,
                },
            );
        }
        let ghost read = *self;
        assert(read.candidates@.len() == 0 ==> exists|terminal: u32, reductions: u64| #[trigger]
            read.shifted(&before, terminal, reductions));
        self.byte_position = self.byte_position + 1;
        self.stats.bytes = self.stats.bytes.saturating_add(1);
        proof {
            if read.candidates@.len() == 0 {
                let (terminal, reductions) = choose|terminal: u32, reductions: u64| #[trigger]
                    read.shifted(&before, terminal, reductions);
                assert(self.shifted(&before, terminal, reductions));
            }
            assert forall|h: Seq<u8>| #[trigger] read.recognizes(h) implies self.recognizes(h) by {
                let (u, k) = choose|u: Seq<u32>, k: int| read.split(h, u, k);
                assert(self.split(h, u, k));
            }
            assert(self.recognizes(h0.push(byte)));
        }
        Ok(true)
    }

    /// The part of the input behind its tokens.
    spec fn rest_of(&self, h: Seq<u8>, k: int) -> Seq<u8> {
        if self.candidates@.len() == 0 {
            Seq::empty()
        } else {
            h.skip(k)
        }
    }

    /// Whether candidates are those of the recognizer, or if it has none, the ones that can start.
    spec fn ready(&self, candidates: Seq<TerminalCandidate>) -> bool {
        if self.candidates@.len() == 0 {
            candidates_exact(
                self.compiled.machine(),
                self.terminals(),
                self.stack@,
                Seq::empty(),
                candidates,
            )
        } else {
            candidates == self.candidates@
        }
    }

    proof fn lemma_ready(
        &self,
        candidates: Seq<TerminalCandidate>,
        h: Seq<u8>,
        u: Seq<u32>,
        k: int,
    )
        requires
            self.ready(candidates),
            self.split(h, u, k),
        ensures
            candidates_exact(
                self.compiled.machine(),
                self.terminals(),
                self.stack@,
                self.rest_of(h, k),
                candidates,
            ),
            h == h.take(k) + self.rest_of(h, k),
    {
        assert(h =~= h.take(k) + self.rest_of(h, k));
    }

    /// A token that ends is shifted.
    proof fn lemma_shifted(
        &self,
        before: &LalrRecognizer,
        started: Seq<TerminalCandidate>,
        h: Seq<u8>,
        u: Seq<u32>,
        k: int,
        byte: u8,
        accepted: Seq<TerminalCandidate>,
        next: Seq<TerminalCandidate>,
    )
        requires
            before.split(h, u, k),
            before.ready(started),
            stepped(before.terminals(), byte, started, accepted, next),
            accepted.len() == 1,
            self.compiled == before.compiled,
            self.stack@ == accepted[0].stack@.push(accepted[0].shift),
            self.candidates@.len() == 0,
        ensures
            self.recognizes(h.push(byte)),
    {
        let machine = self.compiled.machine();
        let terminals = self.terminals();
        let lex = self.compiled.grammar.lex();
        let r = before.rest_of(h, k);
        let on = h.push(byte);
        before.lemma_ready(started, h, u, k);
        lemma_stepped(machine, terminals, before.stack@, r, byte, started, accepted, next);
        let candidate = accepted[0];
        assert(ended_ok(machine, terminals, before.stack@, r.push(byte), candidate));
        let t = candidate.terminal;
        let more = u.push(t);
        assert(self.stack@.drop_last() =~= candidate.stack@);
        assert(more.drop_last() =~= u);
        assert(more.last() == t);
        assert(machine.shifts(before.stack@, more.last(), self.stack@));
        assert(machine.after(more, self.stack@));
        lemma_lexes_prefix(lex, u, h, on, 0, k);
        assert(on.subrange(k, on.len() as int) =~= r.push(byte));
        tokens::lemma_lexes_one(lex, t, on, k, on.len() as int);
        tokens::lemma_lexes_join(lex, u, seq![t], on, 0, k, on.len() as int);
        assert(u + seq![t] =~= more);
        assert(self.split(on, more, on.len() as int));
    }

    /// Tokens that go on are read on.
    proof fn lemma_read_on(
        &self,
        before: &LalrRecognizer,
        started: Seq<TerminalCandidate>,
        h: Seq<u8>,
        u: Seq<u32>,
        k: int,
        byte: u8,
        accepted: Seq<TerminalCandidate>,
        next: Seq<TerminalCandidate>,
    )
        requires
            before.compiled.exact(),
            before.split(h, u, k),
            before.ready(started),
            stepped(before.terminals(), byte, started, accepted, next),
            accepted.len() == 0,
            next.len() > 0,
            self.compiled == before.compiled,
            self.stack@ == before.stack@,
            self.candidates@ == next,
        ensures
            self.recognizes(h.push(byte)),
    {
        let machine = self.compiled.machine();
        let terminals = self.terminals();
        let lex = self.compiled.grammar.lex();
        let r = before.rest_of(h, k);
        let on = h.push(byte);
        before.lemma_ready(started, h, u, k);
        lemma_stepped(machine, terminals, before.stack@, r, byte, started, accepted, next);
        lemma_unended(machine, terminals, before.stack@, r, byte, started, accepted, next);
        lemma_lexes_prefix(lex, u, h, on, 0, k);
        assert(on.skip(k) =~= r.push(byte));
        assert(self.split(on, u, k));
    }

    /// If no token ends or goes on, nothing that is generated begins with what was read.
    proof fn lemma_stuck(
        &self,
        started: Seq<TerminalCandidate>,
        h: Seq<u8>,
        u: Seq<u32>,
        k: int,
        byte: u8,
        rest: Seq<u8>,
        accepted: Seq<TerminalCandidate>,
        next: Seq<TerminalCandidate>,
    )
        requires
            self.compiled.exact(),
            self.faithful(),
            self.split(h, u, k),
            self.ready(started),
            stepped(self.terminals(), byte, started, accepted, next),
            accepted.len() == 0,
            next.len() == 0,
        ensures
            !self.compiled.grammar.generates(h.push(byte) + rest),
    {
        let machine = self.compiled.machine();
        let terminals = self.terminals();
        let r = self.rest_of(h, k);
        let g = h.push(byte) + rest;
        let read = r.push(byte);
        self.lemma_ready(started, h, u, k);
        lemma_stepped(machine, terminals, self.stack@, r, byte, started, accepted, next);
        lemma_unended(machine, terminals, self.stack@, r, byte, started, accepted, next);
        if self.compiled.grammar.generates(g) {
            assert forall|x: int| 0 <= x < h.len() implies h[x] == g[x] by {}
            let on = lemma_continues(&*self.compiled, self.stack@, h, u, k, g);
            if let Some((t, c)) = on {
                let word = g.subrange(k, c);
                let n = read.len() as int;
                assert(g.subrange(k, k + n) =~= read);
                if c - k <= n {
                    assert(read.take(c - k) =~= word);
                } else {
                    assert(terminals[t as int].wf());
                    terminals[t as int].lemma_match_live(word, n);
                    assert(word.take(n) =~= read);
                    assert(among(next, t));
                }
            }
        }
    }
}

/// If no token ends with a byte, those that go on are the ones that can.
proof fn lemma_unended(
    machine: Machine,
    terminals: Seq<CompiledTerminal>,
    stack: Seq<u32>,
    r: Seq<u8>,
    byte: u8,
    started: Seq<TerminalCandidate>,
    accepted: Seq<TerminalCandidate>,
    next: Seq<TerminalCandidate>,
)
    requires
        forall|t: int| 0 <= t < terminals.len() ==> (#[trigger] terminals[t]).wf(),
        candidates_exact(machine, terminals, stack, r, started),
        read_exact(machine, terminals, stack, r.push(byte), started, accepted, next),
        terminals_ascend(next),
        accepted.len() == 0,
    ensures
        candidates_exact(machine, terminals, stack, r.push(byte), next),
{
    let on = r.push(byte);
    assert(on.drop_last() =~= r);
    assert forall|t: u32|
        #![trigger startable(machine, stack, t)]
        t < terminals.len() && startable(machine, stack, t) && terminals[t as int].read(on) is Some
            && (terminals[t as int].spec_live(terminals[t as int].read(on)->0) || terminals[
        t as int].matches(on)) implies among(started, t) by {
        let terminal = terminals[t as int];
        assert(terminal.wf());
        if r.len() > 0 {
            if terminal.matches(on) {
                terminal.lemma_match_live(on, r.len() as int);
                assert(on.take(r.len() as int) =~= r);
            } else {
                terminal.lemma_live_before(on);
            }
        }
    }
    assert(unmatched(machine, terminals, stack, on)) by {
        assert forall|t: u32, c: int|
            #![trigger startable(machine, stack, t), on.take(c)]
            t < terminals.len() && startable(machine, stack, t) && 0 < c
                <= on.len() implies !terminals[t as int].matches(on.take(c)) by {
            if c < on.len() {
                assert(on.take(c) =~= r.take(c));
            } else {
                assert(on.take(c) =~= on);
                if terminals[t as int].matches(on) {
                    assert(among(started, t));
                    let x = choose|x: int|
                        0 <= x < started.len() && (#[trigger] started[x]).terminal == t;
                    assert(went(terminals, on, started[x].terminal, accepted, next));
                    assert(among(accepted, t));
                }
            }
        }
    }
    assert forall|t: u32|
        #![trigger startable(machine, stack, t)]
        t < terminals.len() && startable(machine, stack, t) && terminals[t as int].read(on) is Some
            && (on.len() > 0 ==> terminals[t as int].spec_live(
            terminals[t as int].read(on)->0,
        )) implies among(next, t) by {
        assert(among(started, t));
        let x = choose|x: int| 0 <= x < started.len() && (#[trigger] started[x]).terminal == t;
        assert(went(terminals, on, started[x].terminal, accepted, next));
        assert(on.take(on.len() as int) =~= on);
        assert(!terminals[t as int].matches(on.take(on.len() as int)));
    }
}

impl LalrCheckpoint {
    /// Whether the checkpoint is of the recognizer as it is.
    pub open spec fn captures(&self, recognizer: &LalrRecognizer) -> bool {
        &&& self.generation == recognizer.generation
        &&& self.stack@ == recognizer.stack@
        &&& same_candidates(self.candidates@, recognizer.candidates@)
        &&& self.byte_position == recognizer.byte_position
        &&& self.stats == recognizer.stats
    }

    /// Whether the checkpoint was taken of a recognizer with the same tables.
    pub open spec fn fits(&self, recognizer: &LalrRecognizer) -> bool {
        exists|other: LalrRecognizer|
            {
                &&& #[trigger] other.wf()
                &&& other.compiled == recognizer.compiled
                &&& self.stack@ == other.stack@
                &&& same_candidates(self.candidates@, other.candidates@)
            }
    }
}

/// Recognizers in the same state recognize the same.
pub proof fn lemma_same_state(a: &LalrRecognizer, b: &LalrRecognizer, h: Seq<u8>)
    requires
        a.compiled == b.compiled,
        a.stack@ == b.stack@,
        same_candidates(a.candidates@, b.candidates@),
        a.recognizes(h),
    ensures
        b.recognizes(h),
{
    let (u, k) = choose|u: Seq<u32>, k: int| a.split(h, u, k);
    if a.candidates@.len() > 0 {
        let machine = a.compiled.machine();
        let terminals = a.terminals();
        let r = h.skip(k);
        assert forall|x: int| 0 <= x < b.candidates@.len() implies candidate_ok(
            machine,
            terminals,
            b.stack@,
            r,
            #[trigger] b.candidates@[x],
        ) by {
            assert(same_candidate(a.candidates@[x], b.candidates@[x]));
            assert(candidate_ok(machine, terminals, a.stack@, r, a.candidates@[x]));
        }
        assert forall|t: u32| among(a.candidates@, t) implies #[trigger] among(
            b.candidates@,
            t,
        ) by {
            let x = choose|x: int|
                0 <= x < a.candidates@.len() && (#[trigger] a.candidates@[x]).terminal == t;
            assert(same_candidate(a.candidates@[x], b.candidates@[x]));
            assert(b.candidates@[x].terminal == t);
        }
        assert forall|x: int, y: int| 0 <= x < y < b.candidates@.len() implies (
        #[trigger] b.candidates@[x]).terminal < (#[trigger] b.candidates@[y]).terminal by {
            assert(same_candidate(a.candidates@[x], b.candidates@[x]));
            assert(same_candidate(a.candidates@[y], b.candidates@[y]));
        }
    }
    assert(b.split(h, u, k));
}

impl LalrRecognizer {
    /// Whether the input so far is accepted.
    #[must_use]
    pub fn is_accepting(&self) -> (accepting: bool)
        requires
            self.wf(),
        ensures
            accepting == self.accepting(),
    {
        if self.candidates.len() > 0 {
            return false;
        }
        let ghost machine = self.compiled.machine();
        let ghost mut u0: Seq<u32> = Seq::empty();
        proof {
            let h = choose|h: Seq<u8>| self.recognizes(h);
            let (u, k) = choose|u: Seq<u32>, k: int| self.split(h, u, k);
            u0 = u;
        }
        let stack = self.stack.clone();
        assert(stack@ =~= self.stack@);
        match self.action_after_reductions(stack, Lookahead::Eof, Ghost(u0)) {
            Ok((settled, action, _)) => {
                let accepted = match action {
                    Some(Action::Accept) => true,
                    _ => false,
                };
                proof {
                    if accepts_now(machine, self.stack@) {
                        let end = choose|end: Seq<u32>| #[trigger]
                            machine.settles(self.stack@, Lookahead::Eof, end) && machine.act(
                                end,
                                Lookahead::Eof,
                            ) == Some(Action::Accept);
                        machine.lemma_settles_unique(
                            self.stack@,
                            Lookahead::Eof,
                            end,
                            settled@,
                        );
                    }
                }
                accepted
            },
            Err(_) => false,
        }
    }

    /// Whether the input so far is accepted or can be read on.
    pub open spec fn live(&self) -> bool {
        ||| self.candidates@.len() > 0
        ||| self.accepting()
        ||| self.can_start() && exists|list: Seq<TerminalCandidate>|
            list.len() <= self.limits.max_active_scans && #[trigger] candidates_exact(
                self.compiled.machine(),
                self.terminals(),
                self.stack@,
                Seq::empty(),
                list,
            )
    }

    /// Whether the input so far is accepted or can be read on.
    #[must_use]
    pub fn is_live(&self) -> (live: bool)
        requires
            self.wf(),
            self.terminals().len() <= u32::MAX,
        ensures
            live == self.live(),
    {
        if self.candidates.len() > 0 {
            return true;
        }
        if self.is_accepting() {
            return true;
        }
        let ghost machine = self.compiled.machine();
        let ghost mut u0: Seq<u32> = Seq::empty();
        proof {
            let h = choose|h: Seq<u8>| self.recognizes(h);
            let (u, k) = choose|u: Seq<u32>, k: int| self.split(h, u, k);
            u0 = u;
        }
        match self.start_candidates(Ghost(u0)) {
            Ok(candidates) => {
                let some = candidates.len() > 0;
                proof {
                    if some {
                        let t = candidates@[0].terminal;
                        assert(candidate_ok(
                            machine,
                            self.terminals(),
                            self.stack@,
                            Seq::empty(),
                            candidates@[0],
                        ));
                        assert(shift_ready(machine, self.stack@, t, candidates@[0].stack@));
                        assert(startable(machine, self.stack@, t));
                    }
                    if self.can_start() {
                        let t = choose|t: u32|
                            t < self.terminals().len() && #[trigger] startable(
                                machine,
                                self.stack@,
                                t,
                            );
                        assert(self.terminals()[t as int].read(Seq::empty()) is Some);
                        assert(among(candidates@, t));
                    }
                }
                some
            },
            Err(error) => {
                proof {
                    if self.live() {
                        let list = choose|list: Seq<TerminalCandidate>|
                            list.len() <= self.limits.max_active_scans
                                && #[trigger] candidates_exact(
                                machine,
                                self.terminals(),
                                self.stack@,
                                Seq::empty(),
                                list,
                            );
                        if exists|t: u32|
                            t < self.terminals().len() && #[trigger] overrun_error(
                                machine,
                                self.limits,
                                self.stack@,
                                Lookahead::Terminal(t),
                                error,
                            ) {
                            let t = choose|t: u32|
                                t < self.terminals().len() && #[trigger] overrun_error(
                                    machine,
                                    self.limits,
                                    self.stack@,
                                    Lookahead::Terminal(t),
                                    error,
                                );
                            assert(overruns(
                                machine,
                                self.limits,
                                self.stack@,
                                Lookahead::Terminal(t),
                            ));
                        } else {
                            let other = choose|other: Seq<TerminalCandidate>|
                                other.len() > self.limits.max_active_scans
                                    && #[trigger] candidates_exact(
                                    machine,
                                    self.terminals(),
                                    self.stack@,
                                    Seq::empty(),
                                    other,
                                );
                            lemma_candidate_count(
                                machine,
                                self.terminals(),
                                self.stack@,
                                other,
                                list,
                            );
                        }
                    }
                }
                false
            },
        }
    }

    /// The present state.
    #[must_use]
    pub fn checkpoint(&self) -> (checkpoint: LalrCheckpoint)
        ensures
            checkpoint.captures(self),
    {
        let stack = self.stack.clone();
        assert(stack@ =~= self.stack@);
        LalrCheckpoint {
            generation: self.generation,
            stack,
            candidates: clone_candidates(&self.candidates),
            byte_position: self.byte_position,
            stats: self.stats,
        }
    }

    /// Goes back to an earlier state.
    pub fn restore(&mut self, checkpoint: &LalrCheckpoint) -> (result: Result<(), RuntimeError>)
        requires
            old(self).wf(),
            checkpoint.generation == old(self).generation ==> checkpoint.fits(old(self)),
        ensures
            final(self).wf(),
            final(self).compiled == old(self).compiled,
            final(self).limits == old(self).limits,
            final(self).generation == old(self).generation,
            checkpoint.generation != old(self).generation ==> result == Err::<(), _>(
                RuntimeError::InvalidCheckpoint {
                    expected_generation: old(self).generation,
                    found_generation: checkpoint.generation,
                },
            ) && *final(self) == *old(self),
            checkpoint.generation == old(self).generation ==> result is Ok && checkpoint.captures(
                final(self),
            ),
    {
        if checkpoint.generation != self.generation {
            return Err(
                RuntimeError::InvalidCheckpoint {
                    expected_generation: self.generation,
                    found_generation: checkpoint.generation,
                },
            );
        }
        let ghost other = choose|other: LalrRecognizer|
            {
                &&& #[trigger] other.wf()
                &&& other.compiled == self.compiled
                &&& checkpoint.stack@ == other.stack@
                &&& same_candidates(checkpoint.candidates@, other.candidates@)
            };
        let stack = checkpoint.stack.clone();
        assert(stack@ =~= checkpoint.stack@);
        self.stack = stack;
        self.candidates = clone_candidates(&checkpoint.candidates);
        self.byte_position = checkpoint.byte_position;
        self.stats = checkpoint.stats;
        proof {
            lemma_same_turn(self.candidates@, checkpoint.candidates@);
            lemma_same_join(other.candidates@, checkpoint.candidates@, self.candidates@);
            let h = choose|h: Seq<u8>| other.recognizes(h);
            lemma_same_state(&other, self, h);
        }
        Ok(())
    }

    /// What the recognizer has done.
    #[must_use]
    pub fn stats(&self) -> (stats: &LalrRuntimeStats)
        ensures
            *stats == self.stats,
    {
        &self.stats
    }
}

proof fn lemma_same_turn(a: Seq<TerminalCandidate>, b: Seq<TerminalCandidate>)
    requires
        same_candidates(a, b),
    ensures
        same_candidates(b, a),
{
    assert forall|x: int| 0 <= x < b.len() implies same_candidate(#[trigger] b[x], a[x]) by {
        assert(same_candidate(a[x], b[x]));
    }
}

proof fn lemma_same_join(
    a: Seq<TerminalCandidate>,
    b: Seq<TerminalCandidate>,
    c: Seq<TerminalCandidate>,
)
    requires
        same_candidates(b, a),
        same_candidates(b, c),
    ensures
        same_candidates(a, c),
{
    assert forall|x: int| 0 <= x < a.len() implies same_candidate(#[trigger] a[x], c[x]) by {
        assert(same_candidate(b[x], a[x]));
    }
}

/// There are as many candidates as terminals that can start, however they are listed.
proof fn lemma_candidate_count(
    machine: Machine,
    terminals: Seq<CompiledTerminal>,
    stack: Seq<u32>,
    a: Seq<TerminalCandidate>,
    b: Seq<TerminalCandidate>,
)
    requires
        candidates_exact(machine, terminals, stack, Seq::empty(), a),
        candidates_exact(machine, terminals, stack, Seq::empty(), b),
    ensures
        a.len() <= b.len(),
    decreases a.len(),
{
    // Each candidate of the one list has a place in the other, in the same order.
    assert forall|x: int| 0 <= x < a.len() implies among(b, (#[trigger] a[x]).terminal) by {
        assert(candidate_ok(machine, terminals, stack, Seq::empty(), a[x]));
        assert(shift_ready(machine, stack, a[x].terminal, a[x].stack@));
        assert(startable(machine, stack, a[x].terminal));
        assert(terminals[a[x].terminal as int].read(Seq::empty()) is Some);
    }
    lemma_ascend_count(a, b);
}

proof fn lemma_ascend_count(a: Seq<TerminalCandidate>, b: Seq<TerminalCandidate>)
    requires
        terminals_ascend(a),
        terminals_ascend(b),
        forall|x: int| 0 <= x < a.len() ==> among(b, (#[trigger] a[x]).terminal),
    ensures
        a.len() <= b.len(),
    decreases a.len(),
{
    if a.len() > 0 {
        let last = a.last().terminal;
        assert(among(b, a[a.len() - 1].terminal));
        let y = choose|y: int| 0 <= y < b.len() && (#[trigger] b[y]).terminal == last;
        let front = a.drop_last();
        let part = b.take(y);
        assert forall|x: int| 0 <= x < front.len() implies among(
            part,
            (#[trigger] front[x]).terminal,
        ) by {
            assert(front[x] == a[x]);
            assert(among(b, a[x].terminal));
            let z = choose|z: int| 0 <= z < b.len() && (#[trigger] b[z]).terminal == a[x].terminal;
            assert(a[x].terminal < a[a.len() - 1].terminal);
            if z > y {
                assert(b[y].terminal < b[z].terminal);
            }
            assert(part[z].terminal == a[x].terminal);
        }
        assert(terminals_ascend(part)) by {
            assert forall|i: int, j: int| 0 <= i < j < part.len() implies (
            #[trigger] part[i]).terminal < (#[trigger] part[j]).terminal by {
                assert(part[i] == b[i] && part[j] == b[j]);
            }
        }
        assert(terminals_ascend(front)) by {
            assert forall|i: int, j: int| 0 <= i < j < front.len() implies (
            #[trigger] front[i]).terminal < (#[trigger] front[j]).terminal by {
                assert(front[i] == a[i] && front[j] == a[j]);
            }
        }
        lemma_ascend_count(front, part);
    }
}

/// What a recognizer accepts is generated by its grammar.
pub proof fn law_accepted_is_generated(recognizer: &LalrRecognizer, h: Seq<u8>)
    requires
        recognizer.wf(),
        recognizer.recognizes(h),
        recognizer.accepting(),
    ensures
        recognizer.compiled.grammar.generates(h),
{
    let compiled = recognizer.compiled;
    lemma_machine(&*compiled);
    let machine = compiled.machine();
    let grammar = compiled.grammar;
    let lex = grammar.lex();
    let (u, k) = choose|u: Seq<u32>, k: int| recognizer.split(h, u, k);
    assert(machine.accepts(u));
    machine.lemma_accepts_sound(u);
    let symbol = Symbol::Nonterminal(grammar.start);
    assert(machine.start() == grammar.start);
    let n = choose|n: nat| tokens::spells(machine.rules, n, symbol, u);
    tokens::lemma_spells_derives(machine.rules, lex, n, symbol, u, h, 0, k);
    lemma_plain_derives(&*grammar, n, symbol, h, 0, k);
}

/// With tables without conflicts, and tokens whose ends can be told, what is generated is accepted,
/// unless reductions at the end overrun the limits.
pub proof fn law_generated_is_accepted(recognizer: &LalrRecognizer, h: Seq<u8>)
    requires
        recognizer.wf(),
        recognizer.faithful(),
        recognizer.recognizes(h),
        recognizer.compiled.grammar.generates(h),
    ensures
        recognizer.candidates@.len() == 0,
        recognizer.accepting() || overruns(
            recognizer.compiled.machine(),
            recognizer.limits,
            recognizer.stack@,
            Lookahead::Eof,
        ),
{
    let (u, k) = choose|u: Seq<u32>, k: int| recognizer.split(h, u, k);
    let on = lemma_continues(&*recognizer.compiled, recognizer.stack@, h, u, k, h);
    if let Some((t, c)) = on {
        let r = h.skip(k);
        assert(r.take(c - k) =~= h.subrange(k, c));
        assert(unmatched(
            recognizer.compiled.machine(),
            recognizer.terminals(),
            recognizer.stack@,
            r,
        ));
        assert(!recognizer.terminals()[t as int].matches(r.take(c - k)));
    }
}

/// With tables without conflicts, and tokens whose ends can be told, a recognizer from which
/// something generated can still be reached is live, unless limits are overrun.
pub proof fn law_viable_is_live(recognizer: &LalrRecognizer, h: Seq<u8>, rest: Seq<u8>)
    requires
        recognizer.wf(),
        recognizer.faithful(),
        recognizer.recognizes(h),
        recognizer.compiled.grammar.generates(h + rest),
    ensures
        recognizer.candidates@.len() > 0 || accepts_now(
            recognizer.compiled.machine(),
            recognizer.stack@,
        ) || exists|t: u32|
            t < recognizer.terminals().len() && #[trigger] startable(
                recognizer.compiled.machine(),
                recognizer.stack@,
                t,
            ),
{
    let (u, k) = choose|u: Seq<u32>, k: int| recognizer.split(h, u, k);
    let on = lemma_continues(&*recognizer.compiled, recognizer.stack@, h, u, k, h + rest);
}

/// Going back to a checkpoint makes the recognizer recognize what it did when it was taken.
pub proof fn law_restore_returns(
    then: &LalrRecognizer,
    checkpoint: &LalrCheckpoint,
    now: &LalrRecognizer,
    h: Seq<u8>,
)
    requires
        checkpoint.captures(then),
        checkpoint.captures(now),
        now.compiled == then.compiled,
        now.limits == then.limits,
    ensures
        then.recognizes(h) <==> now.recognizes(h),
        then.accepting() == now.accepting(),
        then.byte_position == now.byte_position,
        then.stats == now.stats,
{
    lemma_same_join(then.candidates@, checkpoint.candidates@, now.candidates@);
    lemma_same_turn(then.candidates@, now.candidates@);
    if then.recognizes(h) {
        lemma_same_state(then, now, h);
    }
    if now.recognizes(h) {
        lemma_same_state(now, then, h);
    }
}

} // verus!
