//! Compiles schemas, and selects the backend that serves each.

use std::sync::Arc;

use vstd::prelude::*;

use crate::automaton::CompiledByteDfa;
use crate::builder;
use crate::certificate;
use crate::certificate::{certify_regular_with_sccs, RegularAnalysis};
use crate::collapse;
use crate::count;
use crate::dense;
use crate::earley;
use crate::earley::{CompiledEarley, EarleyRecognizer};
use crate::error::{CompileError, CompileStage, Error, RuntimeError, RuntimeResource};
use crate::fault;
use crate::grammar;
use crate::grammar::Grammar;
use crate::guide::{BackendKind, Guide, GuideRuntime};
use crate::index;
use crate::index::Index;
use crate::json;
use crate::json::JsonValue;
use crate::lalr;
use crate::lalr::CompiledLalr;
use crate::lalr_recognizer;
use crate::language;
use crate::lowering;
use crate::lowering::lower;
use crate::lr::Lookahead;
use crate::normalize;
use crate::normalize::normalize_schema;
use crate::recognizer::{DfaRecognizer, RecognizerState};
use crate::reduction;
use crate::reduction::reduce;
use crate::regular;
use crate::report;
use crate::report::{build_report, semantic_contract, SemanticContract, StructuralMetrics, TierReport};
use crate::residual::ResidualGrammar;
use crate::residual_build;
use crate::residual_build::build_residual;
use crate::scc::analyze_sccs;
use crate::schema::{CompileLimits, CompileOptions, RuntimeLimits, SchemaArena};
use crate::tabulate;
use crate::text;
use crate::trie;
use crate::trie::DerivedVocabulary;
use crate::vocabulary::{TokenEntry, Vocabulary};

verus! {

/// Which backends may serve a schema.
#[derive(Clone, Copy, Debug, PartialEq, Eq, Structural)]
pub enum BackendPolicy {
    Auto,
    ForceDfa,
    ForceLalr,
    ForceEarley,
}

impl Default for BackendPolicy {
    fn default() -> (policy: Self)
        ensures
            policy == BackendPolicy::Auto,
    {
        BackendPolicy::Auto
    }
}

/// What serves a schema, without a vocabulary.
pub enum PreparedBackend {
    Dfa(CompiledByteDfa),
    Lalr(Arc<CompiledLalr>),
    Earley(Arc<CompiledEarley>),
}

/// Whether a text conforms to the schema of an arena.
pub open spec fn accepted(arena: &SchemaArena, w: Seq<u8>) -> bool {
    language::conforms(arena.nodes@, arena.root.0 as int, w)
}

/// Whether a grammar has the language of the schema, by texts and plain patterns.
pub open spec fn grammar_serves(grammar: &Grammar, arena: &SchemaArena) -> bool {
    &&& grammar.wf()
    &&& residual_build::textual(grammar)
    &&& certificate::clean(grammar)
    &&& reduction::sown(grammar)
    &&& forall|w: Seq<u8>| #[trigger]
        grammar.language(grammar::terminal_kinds(), w) <==> accepted(arena, w)
}

/// Whether an automaton accepts the texts that conform to the schema.
pub open spec fn dfa_serves(dfa: &CompiledByteDfa, arena: &SchemaArena) -> bool {
    &&& dfa.wf()
    &&& forall|w: Seq<u8>| #[trigger] dfa.accepts(w) <==> accepted(arena, w)
}

/// Whether a residual grammar generates the texts that conform to the schema.
pub open spec fn residual_serves(residual: &ResidualGrammar, arena: &SchemaArena) -> bool {
    &&& residual.wf()
    &&& residual.nullable_exact()
    &&& residual.fertile()
    &&& residual.worded()
    &&& residual.terminals@.len() <= u32::MAX
    &&& forall|w: Seq<u8>| #[trigger] residual.generates(w) <==> accepted(arena, w)
}

/// Whether tables are those of the schema, without conflicts, and with tokens whose ends can be
/// told.
pub open spec fn lalr_serves(lalr: &CompiledLalr, arena: &SchemaArena) -> bool {
    &&& lalr.exact()
    &&& lalr.conflicts@.len() == 0
    &&& lalr.lexical_safe
    &&& residual_serves(&*lalr.grammar, arena)
}

/// Whether dotted rules are those of the schema.
pub open spec fn earley_serves(earley: &CompiledEarley, arena: &SchemaArena) -> bool {
    &&& earley.wf()
    &&& residual_serves(&*earley.grammar, arena)
}

impl PreparedBackend {
    /// Whether the backend recognizes the texts that conform to the schema, and no others.
    pub open spec fn serves(&self, arena: &SchemaArena) -> bool {
        match self {
            PreparedBackend::Dfa(dfa) => dfa_serves(dfa, arena),
            PreparedBackend::Lalr(lalr) => lalr_serves(&**lalr, arena),
            PreparedBackend::Earley(earley) => earley_serves(&**earley, arena),
        }
    }

    /// The kind of the backend.
    pub open spec fn spec_kind(&self) -> BackendKind {
        match self {
            PreparedBackend::Dfa(_) => BackendKind::WholeDfa,
            PreparedBackend::Lalr(_) => BackendKind::Lalr,
            PreparedBackend::Earley(_) => BackendKind::Earley,
        }
    }

    /// The kind of the backend.
    pub fn kind(&self) -> (kind: BackendKind)
        ensures
            kind == self.spec_kind(),
    {
        match self {
            PreparedBackend::Dfa(_) => BackendKind::WholeDfa,
            PreparedBackend::Lalr(_) => BackendKind::Lalr,
            PreparedBackend::Earley(_) => BackendKind::Earley,
        }
    }
}

/// Whether a policy admits a backend for a grammar that has a regular certificate or not.
pub open spec fn admitted(policy: BackendPolicy, regular: bool, kind: BackendKind) -> bool {
    match policy {
        BackendPolicy::Auto => regular <==> kind == BackendKind::WholeDfa,
        BackendPolicy::ForceDfa => regular && kind == BackendKind::WholeDfa,
        BackendPolicy::ForceLalr => kind == BackendKind::Lalr,
        BackendPolicy::ForceEarley => kind == BackendKind::Earley,
    }
}

/// Whether tables of a residual grammar can drive a recognizer.
pub open spec fn usable(lalr: &CompiledLalr) -> bool {
    lalr.conflicts@.len() == 0 && lalr.lexical_safe
}

/// Whether a residual grammar has no usable tables: they cannot be built within the limits, or those
/// that are built cannot be used.
pub open spec fn without_tables(residual: &ResidualGrammar, limits: CompileLimits) -> bool {
    ||| exists|error: CompileError| #[trigger] lalr::build_error(error, residual, &limits)
    ||| exists|lalr: CompiledLalr| #[trigger]
        lalr::built(&lalr, &limits) && *lalr.grammar == *residual && !usable(&lalr)
}

/// Whether a backend is the one that a policy takes for a grammar: an automaton where the grammar has
/// a certificate, else tables where they can be built and used, else charts. A policy that asks for
/// one backend takes that.
pub open spec fn chosen(
    policy: BackendPolicy,
    limits: CompileLimits,
    grammar: &Grammar,
    regular: bool,
    backend: &PreparedBackend,
) -> bool {
    &&& admitted(policy, regular, backend.spec_kind())
    &&& match backend {
        PreparedBackend::Dfa(_) => true,
        PreparedBackend::Lalr(lalr) => residual_build::residual_exact(grammar, &*lalr.grammar)
            && lalr::built(&**lalr, &limits) && usable(&**lalr),
        PreparedBackend::Earley(earley) => residual_build::residual_exact(grammar, &*earley.grammar)
            && (policy == BackendPolicy::Auto ==> without_tables(&*earley.grammar, limits)),
    }
}

/// Whether an error says that a grammar with a certificate has no automaton within the limits.
pub open spec fn automaton_refused(
    grammar: &Grammar,
    analysis: &RegularAnalysis,
    limits: CompileLimits,
    error: CompileError,
) -> bool {
    analysis.whole_language matches Some(e) && {
        let pointer = grammar.nonterminals@[grammar.start as int].provenance.pointer;
        tabulate::automaton_refused(e, limits, error, pointer)
    }
}

/// Whether an automaton is the one of a grammar with a certificate, if there is one: that which the
/// expression of the whole language comes to within the limits.
pub open spec fn automaton_made(
    grammar: &Grammar,
    analysis: &RegularAnalysis,
    limits: CompileLimits,
    dfa: Option<CompiledByteDfa>,
) -> bool {
    dfa matches Some(table) ==> (analysis.whole_language matches Some(e) && {
        let pointer = grammar.nonterminals@[grammar.start as int].provenance.pointer;
        &&& tabulate::nfa_fits(e, limits)
        &&& regular::spec_pattern(e) is None || tabulate::determined(e, limits, pointer, Ok(table))
    })
}

/// Whether an error says that a backend that was asked for cannot serve a grammar.
pub open spec fn unavailable(
    grammar: &Grammar,
    analysis: &RegularAnalysis,
    limits: CompileLimits,
    policy: BackendPolicy,
    error: CompileError,
) -> bool {
    error matches CompileError::BackendUnavailable { backend, location, reason } && location
        == grammar.nonterminals@[grammar.start as int].provenance.spec_location() && match policy {
        BackendPolicy::ForceDfa => backend@ == "whole_dfa"@ && analysis.whole_language is None
            && reason@ == "the whole grammar has no exact regular certificate"@,
        BackendPolicy::ForceLalr => backend@ == "lalr"@ && exists|lalr: CompiledLalr| #[trigger]
            unusable(grammar, &lalr, limits) && reason@ == conflict_text(&lalr),
        _ => false,
    }
}

/// Whether an error says that the parser of a residual grammar could not be built: with tables
/// where they are asked for, else with charts.
pub open spec fn residual_refused(
    grammar: &Grammar,
    residual: &ResidualGrammar,
    limits: CompileLimits,
    policy: BackendPolicy,
    error: CompileError,
) -> bool {
    &&& residual_build::residual_exact(grammar, residual)
    &&& match policy {
        BackendPolicy::ForceLalr => lalr::build_error(error, residual, &limits),
        _ => earley::preparation_error(residual, limits.max_lr_items, error),
    }
}

/// Whether an error says that no parser could be built: a terminal could not be compiled, the
/// parser of the residual grammar could not be built, or there are too many symbols or productions
/// to count.
pub open spec fn parser_refused(
    grammar: &Grammar,
    analysis: &RegularAnalysis,
    limits: CompileLimits,
    policy: BackendPolicy,
    error: CompileError,
) -> bool {
    ||| collapse::refused(grammar, analysis, limits, error)
    ||| exists|residual: ResidualGrammar| #[trigger]
        residual_refused(grammar, &residual, limits, policy, error)
    ||| (grammar.productions@.len() > u32::MAX && error is ResourceLimitExceeded)
    ||| (grammar.nonterminals@.len() + grammar.terminals@.len() > usize::MAX
        && error is InternalInvariant)
}

/// Why tables cannot be used.
pub open spec fn conflict_text(lalr: &CompiledLalr) -> Seq<char> {
    text::digits(lalr.conflicts@.len()) + " parser conflicts; lexical safety="@
        + if lalr.lexical_safe {
        "true"@
    } else {
        "false"@
    }
}

/// Whether tables of a grammar cannot be used.
pub open spec fn unusable(grammar: &Grammar, lalr: &CompiledLalr, limits: CompileLimits) -> bool {
    &&& residual_build::residual_exact(grammar, &*lalr.grammar)
    &&& lalr::built(lalr, &limits)
    &&& !usable(lalr)
}

/// Compiles the automaton of a grammar with a certificate.
fn compile_whole(
    grammar: &Grammar,
    analysis: &RegularAnalysis,
    limits: &CompileLimits,
    Ghost(arena): Ghost<&SchemaArena>,
) -> (result: Result<Option<CompiledByteDfa>, CompileError>)
    requires
        grammar_serves(grammar, arena),
        analysis.exact(grammar),
    ensures
        result matches Ok(dfa) ==> dfa is Some == analysis.whole_language is Some,
        result matches Ok(Some(dfa)) ==> dfa_serves(&dfa, arena),
        result matches Ok(dfa) ==> automaton_made(grammar, analysis, *limits, dfa),
        result matches Err(error) ==> automaton_refused(grammar, analysis, *limits, error),
{
    let expression = match &analysis.whole_language {
        Some(expression) => expression,
        None => {
            return Ok(None);
        },
    };
    let pointer = &grammar.nonterminals[grammar.start as usize].provenance.pointer;
    let dfa = match CompiledByteDfa::compile(expression, limits, pointer) {
        Ok(dfa) => dfa,
        Err(error) => {
            return Err(error);
        },
    };
    proof {
        certificate::lemma_clean_expressions(grammar, analysis);
        residual_build::lemma_same_lex(grammar);
        assert forall|w: Seq<u8>| #[trigger] dfa.accepts(w) <==> accepted(arena, w) by {
            certificate::law_whole_language(grammar, analysis, dense::pattern_lex(), w);
            assert(grammar.language(grammar::terminal_kinds(), w) <==> accepted(arena, w));
        }
    }
    Ok(Some(dfa))
}

/// Why tables cannot be used.
fn conflict_reason(lalr: &CompiledLalr) -> (reason: String)
    ensures
        reason@ == conflict_text(lalr),
{
    let mut reason = text::decimal(lalr.conflicts.len());
    reason.append(" parser conflicts; lexical safety=");
    if lalr.lexical_safe {
        reason.append("true");
    } else {
        reason.append("false");
    }
    reason
}

/// Whether counts beside charts are those of the tables that were tried before: of tables that were
/// built and cannot be used, with their conflicts, or of none where none could be built or where
/// charts were asked for.
pub open spec fn counts_tried(
    counts: &StructuralMetrics,
    residual: &ResidualGrammar,
    limits: CompileLimits,
    policy: BackendPolicy,
) -> bool {
    if policy == BackendPolicy::Auto {
        ||| exists|lalr: CompiledLalr| #[trigger]
            lalr::built(&lalr, &limits) && *lalr.grammar == *residual && !usable(&lalr)
                && report::counts_tables(counts, Some(lalr))
        ||| report::counts_tables(counts, None) && exists|error: CompileError| #[trigger]
            lalr::build_error(error, residual, &limits)
    } else {
        report::counts_tables(counts, None)
    }
}

/// Whether counts are those of a backend that a policy took.
pub open spec fn measured(
    backend: &PreparedBackend,
    limits: CompileLimits,
    policy: BackendPolicy,
    metrics: Option<StructuralMetrics>,
) -> bool {
    match backend {
        PreparedBackend::Dfa(_) => metrics is None,
        PreparedBackend::Lalr(lalr) => metrics matches Some(counts) && report::counts_residual(
            &counts,
            &*lalr.grammar,
        ) && report::counts_tables(&counts, Some(**lalr)) && counts.nullable_nonterminals
            == count::count_true(lalr.grammar.nullable@) && counts.leo_eligible_rules == 0,
        PreparedBackend::Earley(earley) => metrics matches Some(counts) && report::counts_residual(
            &counts,
            &*earley.grammar,
        ) && counts_tried(&counts, &*earley.grammar, limits, policy)
            && counts.nullable_nonterminals == earley.nullable_nonterminals
            && counts.leo_eligible_rules == earley.leo_eligible_rules,
    }
}

/// Prepares a residual grammar for charts.
fn chart_backend(
    residual: &Arc<ResidualGrammar>,
    limits: &CompileLimits,
    lalr: Option<&CompiledLalr>,
    Ghost(arena): Ghost<&SchemaArena>,
) -> (result: Result<(PreparedBackend, StructuralMetrics), CompileError>)
    requires
        residual_serves(&**residual, arena),
    ensures
        result matches Ok(found) ==> found.0.serves(arena) && found.0.spec_kind()
            == BackendKind::Earley && (found.0 matches PreparedBackend::Earley(earley)
            && earley.grammar == *residual && found.1.nullable_nonterminals
            == earley.nullable_nonterminals && found.1.leo_eligible_rules
            == earley.leo_eligible_rules),
        result matches Ok(found) ==> report::counts_residual(&found.1, &**residual)
            && report::counts_tables(
            &found.1,
            match lalr {
                Some(lalr) => Some(*lalr),
                None => None,
            },
        ),
        result matches Err(error) ==> earley::preparation_error(
            &**residual,
            limits.max_lr_items,
            error,
        ),
{
    let earley = match CompiledEarley::build(Arc::clone(residual), limits) {
        Ok(earley) => earley,
        Err(error) => {
            return Err(error);
        },
    };
    let metrics = StructuralMetrics::from_earley(&**residual, &earley, lalr);
    Ok((PreparedBackend::Earley(Arc::new(earley)), metrics))
}

/// Builds the parser of a grammar: with tables where they can be used, else with charts.
fn build_parser(
    grammar: &Grammar,
    analysis: &RegularAnalysis,
    limits: &CompileLimits,
    policy: BackendPolicy,
    Ghost(arena): Ghost<&SchemaArena>,
) -> (result: Result<(PreparedBackend, StructuralMetrics), CompileError>)
    requires
        grammar_serves(grammar, arena),
        analysis.exact(grammar),
        policy != BackendPolicy::ForceDfa,
        policy == BackendPolicy::Auto ==> analysis.whole_language is None,
    ensures
        result matches Ok(found) ==> {
            &&& found.0.serves(arena)
            &&& chosen(policy, *limits, grammar, analysis.whole_language is Some, &found.0)
            &&& measured(&found.0, *limits, policy, Some(found.1))
        },
        result matches Err(error) ==> parser_refused(grammar, analysis, *limits, policy, error) || (
        policy == BackendPolicy::ForceLalr && unavailable(grammar, analysis, *limits, policy, error)),
{
    let residual = match build_residual(grammar, analysis, limits) {
        Ok(residual) => Arc::new(residual),
        Err(error) => {
            return Err(error);
        },
    };
    assert(residual_serves(&*residual, arena)) by {
        assert forall|w: Seq<u8>| #[trigger] residual.generates(w) <==> accepted(arena, w) by {
            assert(grammar.language(grammar::terminal_kinds(), w) <==> accepted(arena, w));
        }
    }
    if policy == BackendPolicy::ForceEarley {
        let result = chart_backend(&residual, limits, None, Ghost(arena));
        assert(result matches Err(error) ==> residual_refused(
            grammar,
            &*residual,
            *limits,
            policy,
            error,
        ));
        return result;
    }
    match CompiledLalr::build(Arc::clone(&residual), limits) {
        Ok(lalr) => {
            if lalr.is_usable() {
                let metrics = StructuralMetrics::from_lalr(&*residual, &lalr);
                return Ok((PreparedBackend::Lalr(Arc::new(lalr)), metrics));
            }
            if policy == BackendPolicy::ForceLalr {
                assert(unusable(grammar, &lalr, *limits));
                return Err(
                    CompileError::BackendUnavailable {
                        backend: "lalr",
                        location: grammar.nonterminals[grammar.start as usize].provenance.location(),
                        reason: conflict_reason(&lalr),
                    },
                );
            }
            let result = chart_backend(&residual, limits, Some(&lalr), Ghost(arena));
            assert(lalr::built(&lalr, limits) && *lalr.grammar == *residual);
            assert(without_tables(&*residual, *limits));
            assert(result matches Err(error) ==> residual_refused(
                grammar,
                &*residual,
                *limits,
                policy,
                error,
            ));
            result
        },
        Err(error) => {
            if policy == BackendPolicy::ForceLalr {
                assert(residual_refused(grammar, &*residual, *limits, policy, error));
                return Err(error);
            }
            assert(lalr::build_error(error, &*residual, limits));
            let result = chart_backend(&residual, limits, None, Ghost(arena));
            assert(without_tables(&*residual, *limits));
            assert(result matches Err(error) ==> residual_refused(
                grammar,
                &*residual,
                *limits,
                policy,
                error,
            ));
            result
        },
    }
}

/// Lowers a schema, and removes what its grammar does not need.
fn lower_reduced(arena: &SchemaArena, limits: &CompileLimits) -> (result: Result<
    Grammar,
    CompileError,
>)
    requires
        arena.wf(),
    ensures
        result matches Ok(grammar) ==> grammar_serves(&grammar, arena) && all_supported(arena)
            && lowers_to(arena, *limits, &grammar),
        result matches Err(error) ==> lowering_refused(arena, *limits, error),
{
    let mut grammar = match lower(arena, limits) {
        Ok(grammar) => grammar,
        Err(error) => {
            return Err(error);
        },
    };
    let ghost lowered = grammar;
    assert(lowers_within(arena, *limits, &lowered));
    match reduce(&mut grammar) {
        Ok(_) => {},
        Err(error) => {
            assert(unreduced(arena, *limits, &lowered));
            return Err(error);
        },
    }
    proof {
        lemma_reduced(arena, &lowered, &grammar);
    }
    Ok(grammar)
}

/// Whether every schema has a grammar.
pub open spec fn all_supported(arena: &SchemaArena) -> bool {
    forall|id: int|
        0 <= id < arena.nodes@.len() ==> language::unsupported(arena.nodes@, id) is None
}

/// Whether a grammar is that of a schema, within the limits, before it is reduced.
pub open spec fn lowers_within(arena: &SchemaArena, limits: CompileLimits, lowered: &Grammar) -> bool {
    lowering::lowers(arena, lowered) && lowering::keeps(limits, lowered)
}

/// Whether a grammar is that of a schema, within the limits, without what is not useful.
pub open spec fn lowers_to(arena: &SchemaArena, limits: CompileLimits, grammar: &Grammar) -> bool {
    exists|lowered: Grammar| #[trigger]
        lowers_within(arena, limits, &lowered) && reduction::reduced_to(&lowered, grammar)
}

/// Whether a grammar is that of a schema, and has a text, so that reducing it takes memory.
pub open spec fn unreduced(arena: &SchemaArena, limits: CompileLimits, lowered: &Grammar) -> bool {
    lowers_within(arena, limits, lowered) && reduction::productive(lowered.rules(), lowered.start)
}

/// Whether an error says why a schema has no grammar: the first schema without one, a limit below
/// what the schemas may need, or no memory to reduce a grammar that there is.
pub open spec fn lowering_refused(
    arena: &SchemaArena,
    limits: CompileLimits,
    error: CompileError,
) -> bool {
    ||| lowering::first_refused(arena, error)
    ||| builder::exceeded(
        limits,
        arena.nodes@,
        error,
        (arena.nodes@.len() + lowering::total_cost(arena.nodes@, arena.nodes@.len())) as int,
    )
    ||| (error matches CompileError::ResourceLimitExceeded { stage, .. } && stage
        == CompileStage::GrammarReduction && exists|lowered: Grammar| #[trigger]
        unreduced(arena, limits, &lowered))
}

proof fn lemma_reduced(arena: &SchemaArena, lowered: &Grammar, grammar: &Grammar)
    requires
        arena.wf(),
        lowering::lowers(arena, lowered),
        grammar.wf(),
        reduction::same_language(grammar, lowered),
        reduction::terminals_kept(lowered, grammar),
        reduction::sown(grammar),
    ensures
        grammar_serves(grammar, arena),
{
    assert forall|w: Seq<u8>| #[trigger]
        grammar.language(grammar::terminal_kinds(), w) <==> accepted(arena, w) by {
        assert(lowered.language(grammar::terminal_kinds(), w) == lowered.generates(
            grammar::terminal_kinds(),
            arena.root.0,
            w,
        ));
    }
    assert forall|t: int| 0 <= t < grammar.terminals@.len() implies (
    #[trigger] grammar.terminals@[t].kind@ matches grammar::TerminalKind::Literal(bytes)
        ==> vstd::utf8::valid_utf8(bytes)) by {
        let u = choose|u: int|
            0 <= u < lowered.terminals@.len() && grammar.terminals@[t].kind@ == (
            #[trigger] lowered.terminals@[u]).kind@;
        assert(grammar.terminals@[t].kind@ == lowered.terminals@[u].kind@);
    }
    assert(certificate::clean(grammar)) by {
        reveal(certificate::clean);
        assert forall|t: int| 0 <= t < grammar.terminals@.len() implies certificate::clean_kind(
            #[trigger] grammar.terminals@[t].kind@,
        ) by {
            let u = choose|u: int|
                0 <= u < lowered.terminals@.len() && grammar.terminals@[t].kind@ == (
                #[trigger] lowered.terminals@[u]).kind@;
            assert(certificate::clean_kind(lowered.terminals@[u].kind@));
        }
    }
}

/// A compiled schema, without a vocabulary.
pub struct PreparedCompilation {
    pub arena: SchemaArena,
    pub grammar: Grammar,
    pub report: TierReport,
    pub backend: PreparedBackend,
}

/// The automaton of a backend, if it is one.
pub open spec fn whole_dfa(backend: &PreparedBackend) -> Option<CompiledByteDfa> {
    match backend {
        PreparedBackend::Dfa(dfa) => Some(*dfa),
        _ => None,
    }
}

/// Whether an analysis explains a report and a backend.
pub open spec fn explained(
    prepared: &PreparedCompilation,
    limits: CompileLimits,
    policy: BackendPolicy,
    analysis: RegularAnalysis,
    metrics: Option<StructuralMetrics>,
) -> bool {
    &&& analysis.exact(&prepared.grammar)
    &&& chosen(
        policy,
        limits,
        &prepared.grammar,
        analysis.whole_language is Some,
        &prepared.backend,
    )
    &&& measured(&prepared.backend, limits, policy, metrics)
    &&& automaton_made(&prepared.grammar, &analysis, limits, whole_dfa(&prepared.backend))
    &&& report::report_exact(&prepared.report, &prepared.arena, &prepared.grammar, &analysis)
    &&& report::backend_exact(
        &prepared.report,
        prepared.backend.spec_kind(),
        whole_dfa(&prepared.backend),
        metrics,
    )
}

/// Whether an arena is the normal form of a document.
pub open spec fn normalizes(root: JsonValue, limits: CompileLimits, arena: SchemaArena) -> bool {
    &&& arena.wf()
    &&& normalize::normal_form(root, limits) matches Ok((list, shapes)) && normalize::arena_shows(
        arena,
        list,
        shapes,
    )
}

/// Whether a compilation is one of a document: its backend recognizes the texts that conform to the
/// schema, and no others, and its report says what was found.
pub open spec fn prepares(
    prepared: &PreparedCompilation,
    root: JsonValue,
    limits: CompileLimits,
    policy: BackendPolicy,
) -> bool {
    &&& normalizes(root, limits, prepared.arena)
    &&& all_supported(&prepared.arena)
    &&& lowers_to(&prepared.arena, limits, &prepared.grammar)
    &&& serves_from(prepared, limits, policy)
}

/// Whether a compilation is one of its grammar.
pub open spec fn serves_from(
    prepared: &PreparedCompilation,
    limits: CompileLimits,
    policy: BackendPolicy,
) -> bool {
    &&& grammar_serves(&prepared.grammar, &prepared.arena)
    &&& prepared.backend.serves(&prepared.arena)
    &&& exists|analysis: RegularAnalysis, metrics: Option<StructuralMetrics>| #[trigger]
        explained(prepared, limits, policy, analysis, metrics)
}

/// Whether an error says why a grammar has no backend.
pub open spec fn backend_refused(
    grammar: &Grammar,
    analysis: &RegularAnalysis,
    limits: CompileLimits,
    policy: BackendPolicy,
    error: CompileError,
) -> bool {
    &&& analysis.exact(grammar)
    &&& {
        ||| automaton_refused(grammar, analysis, limits, error)
        ||| unavailable(grammar, analysis, limits, policy, error)
        ||| parser_refused(grammar, analysis, limits, policy, error)
    }
}

/// Whether an error comes from a step behind the normal form.
pub open spec fn refused_from(
    root: JsonValue,
    limits: CompileLimits,
    policy: BackendPolicy,
    error: CompileError,
    arena: SchemaArena,
    grammar: Grammar,
    analysis: RegularAnalysis,
) -> bool {
    &&& normalizes(root, limits, arena)
    &&& lowering_refused(&arena, limits, error) || (all_supported(&arena) && lowers_to(
        &arena,
        limits,
        &grammar,
    ) && grammar_serves(&grammar, &arena) && backend_refused(
        &grammar,
        &analysis,
        limits,
        policy,
        error,
    ))
}

/// Whether an error says why a document was not compiled.
pub open spec fn prepare_refused(
    root: JsonValue,
    limits: CompileLimits,
    policy: BackendPolicy,
    error: CompileError,
) -> bool {
    match normalize::normal_form(root, limits) {
        Err(fault) => fault::says(error, fault),
        Ok(_) => exists|arena: SchemaArena, grammar: Grammar, analysis: RegularAnalysis| #[trigger]
            refused_from(root, limits, policy, error, arena, grammar, analysis),
    }
}

/// Compiles a schema up to the vocabulary.
pub fn prepare(root: &JsonValue, options: &CompileOptions, policy: BackendPolicy) -> (result: Result<
    PreparedCompilation,
    CompileError,
>)
    requires
        json::sorted(*root),
    ensures
        normalize::normal_form(*root, options.limits) is Err ==> result is Err,
        result matches Ok(prepared) ==> prepares(&prepared, *root, options.limits, policy),
        result matches Err(error) ==> prepare_refused(*root, options.limits, policy, error),
{
    let limits = &options.limits;
    let arena = match normalize_schema(root, options) {
        Ok(arena) => arena,
        Err(error) => {
            return Err(error);
        },
    };
    let ghost any_grammar: Grammar = arbitrary();
    let ghost any_analysis: RegularAnalysis = arbitrary();
    let grammar = match lower_reduced(&arena, limits) {
        Ok(grammar) => grammar,
        Err(error) => {
            assert(refused_from(*root, *limits, policy, error, arena, any_grammar, any_analysis));
            return Err(error);
        },
    };
    let ghost normal = arena;
    let ghost reduced = grammar;
    match prepare_from(arena, grammar, limits, policy) {
        Ok(prepared) => Ok(prepared),
        Err(error) => {
            proof {
                let analysis = choose|analysis: RegularAnalysis| #[trigger]
                    backend_refused(&reduced, &analysis, *limits, policy, error);
                assert(refused_from(*root, *limits, policy, error, normal, reduced, analysis));
            }
            Err(error)
        },
    }
}

/// Finds the backend of a schema that was lowered to a grammar and reduced.
pub fn prepare_from(
    arena: SchemaArena,
    grammar: Grammar,
    limits: &CompileLimits,
    policy: BackendPolicy,
) -> (result: Result<PreparedCompilation, CompileError>)
    requires
        grammar_serves(&grammar, &arena),
    ensures
        result matches Ok(prepared) ==> {
            &&& prepared.arena == arena
            &&& prepared.grammar == grammar
            &&& serves_from(&prepared, *limits, policy)
        },
        result matches Err(error) ==> exists|analysis: RegularAnalysis| #[trigger]
            backend_refused(&grammar, &analysis, *limits, policy, error),
{
    let sccs = match analyze_sccs(&grammar) {
        Ok(sccs) => sccs,
        Err(error) => {
            return Err(error);
        },
    };
    let analysis = match certify_regular_with_sccs(&grammar, sccs) {
        Ok(analysis) => analysis,
        Err(error) => {
            return Err(error);
        },
    };
    let whole = match compile_whole(&grammar, &analysis, limits, Ghost(&arena)) {
        Ok(whole) => whole,
        Err(error) => {
            assert(backend_refused(&grammar, &analysis, *limits, policy, error));
            return Err(error);
        },
    };
    let wanted = policy == BackendPolicy::Auto || policy == BackendPolicy::ForceDfa;
    let (backend, metrics) = match whole {
        Some(dfa) if wanted => (PreparedBackend::Dfa(dfa), None),
        _ => {
            if policy == BackendPolicy::ForceDfa {
                let error = CompileError::BackendUnavailable {
                    backend: "whole_dfa",
                    location: grammar.nonterminals[grammar.start as usize].provenance.location(),
                    reason: "the whole grammar has no exact regular certificate".to_owned(),
                };
                assert(backend_refused(&grammar, &analysis, *limits, policy, error));
                return Err(error);
            }
            match build_parser(&grammar, &analysis, limits, policy, Ghost(&arena)) {
                Ok((backend, metrics)) => (backend, Some(metrics)),
                Err(error) => {
                    assert(backend_refused(&grammar, &analysis, *limits, policy, error));
                    return Err(error);
                },
            }
        },
    };
    let dfa = match &backend {
        PreparedBackend::Dfa(dfa) => Some(dfa),
        _ => None,
    };
    let ghost counts = metrics;
    let report = match build_report(&arena, &grammar, &analysis, backend.kind(), dfa, metrics) {
        Ok(report) => report,
        Err(error) => {
            assert(parser_refused(&grammar, &analysis, *limits, policy, error));
            assert(backend_refused(&grammar, &analysis, *limits, policy, error));
            return Err(error);
        },
    };
    let prepared = PreparedCompilation { arena, grammar, report, backend };
    assert(explained(&prepared, *limits, policy, analysis, counts));
    Ok(prepared)
}

/// What serves a schema, over a vocabulary.
#[derive(Debug)]
pub enum CompiledBackend {
    Dfa(Arc<Index>),
    Lalr(Arc<CompiledLalr>),
    Earley(Arc<CompiledEarley>),
}

/// A compiled schema.
#[derive(Debug)]
pub struct CompiledSchema {
    pub semantic_contract: SemanticContract,
    pub normalized: SchemaArena,
    pub grammar: Grammar,
    pub report: TierReport,
    pub backend: CompiledBackend,
    pub byte_dfa: Option<Arc<CompiledByteDfa>>,
    pub vocabulary: Option<Arc<DerivedVocabulary>>,
}

/// Whether an index is that of an automaton over a vocabulary.
pub open spec fn index_serves(
    index: &Index,
    dfa: &CompiledByteDfa,
    entries: Seq<TokenEntry>,
) -> bool {
    &&& index.initial_state == 0
    &&& index::width_of(entries, index.eos_token_id, index.vocab_size as int)
    &&& if dfa.live_at(0) {
        index.exact(dfa, entries)
    } else {
        index.empty()
    }
}

impl CompiledSchema {
    /// Whether the backend serves the schema over a vocabulary: it recognizes the texts that conform
    /// to the schema, and no others.
    pub open spec fn serves(&self, entries: Seq<TokenEntry>) -> bool {
        &&& self.normalized.wf()
        &&& all_supported(&self.normalized)
        &&& grammar_serves(&self.grammar, &self.normalized)
        &&& match self.backend {
            CompiledBackend::Dfa(index) => self.byte_dfa matches Some(dfa) && dfa_serves(
                &*dfa,
                &self.normalized,
            ) && index_serves(&*index, &*dfa, entries),
            CompiledBackend::Lalr(lalr) => lalr_serves(&*lalr, &self.normalized) && (
            self.vocabulary matches Some(vocabulary) && vocabulary.derives(entries)),
            CompiledBackend::Earley(earley) => earley_serves(&*earley, &self.normalized) && (
            self.vocabulary matches Some(vocabulary) && vocabulary.derives(entries)),
        }
    }

    /// What holds of every compiled schema.
    pub open spec fn wf(&self) -> bool {
        exists|entries: Seq<TokenEntry>| #[trigger] self.serves(entries)
    }

    /// The kind of the backend.
    pub open spec fn kind(&self) -> BackendKind {
        match self.backend {
            CompiledBackend::Dfa(_) => BackendKind::WholeDfa,
            CompiledBackend::Lalr(_) => BackendKind::Lalr,
            CompiledBackend::Earley(_) => BackendKind::Earley,
        }
    }

    /// Reports on a schema.
    pub fn analyze(root: &JsonValue, options: &CompileOptions) -> (result: Result<
        TierReport,
        CompileError,
    >)
        requires
            json::sorted(*root),
        ensures
            normalize::normal_form(*root, options.limits) is Err ==> result is Err,
            result matches Ok(report) ==> exists|prepared: PreparedCompilation|
                #[trigger] prepares(&prepared, *root, options.limits, BackendPolicy::Auto)
                    && prepared.report == report,
            result matches Err(error) ==> prepare_refused(
                *root,
                options.limits,
                BackendPolicy::Auto,
                error,
            ),
    {
        match prepare(root, options, BackendPolicy::Auto) {
            Ok(prepared) => {
                let ghost all = prepared;
                assert(prepares(&all, *root, options.limits, BackendPolicy::Auto));
                Ok(prepared.report)
            },
            Err(error) => Err(error),
        }
    }

    /// Compiles a schema over a vocabulary.
    pub fn compile(
        root: &JsonValue,
        vocabulary: &Vocabulary,
        options: &CompileOptions,
    ) -> (result: Result<Self, Error>)
        requires
            json::sorted(*root),
        ensures
            compiles(result, *root, vocabulary, options.limits, BackendPolicy::Auto),
    {
        CompiledSchema::compile_with_policy(root, vocabulary, options, BackendPolicy::Auto)
    }

    /// Compiles a schema over a vocabulary, with a backend that the policy admits.
    pub fn compile_with_policy(
        root: &JsonValue,
        vocabulary: &Vocabulary,
        options: &CompileOptions,
        policy: BackendPolicy,
    ) -> (result: Result<Self, Error>)
        requires
            json::sorted(*root),
        ensures
            compiles(result, *root, vocabulary, options.limits, policy),
    {
        let prepared = match prepare(root, options, policy) {
            Ok(prepared) => prepared,
            Err(error) => {
                return Err(Error::Compile(error));
            },
        };
        CompiledSchema::attach(prepared, vocabulary, options, Ghost(*root), Ghost(policy))
    }

    /// Puts a compiled schema and a vocabulary together.
    fn attach(
        prepared: PreparedCompilation,
        vocabulary: &Vocabulary,
        options: &CompileOptions,
        Ghost(root): Ghost<JsonValue>,
        Ghost(policy): Ghost<BackendPolicy>,
    ) -> (result: Result<Self, Error>)
        requires
            prepares(&prepared, root, options.limits, policy),
        ensures
            compiles(result, root, vocabulary, options.limits, policy),
    {
        let ghost given = prepared;
        let PreparedCompilation { arena, grammar, report, backend } = prepared;
        let (backend, byte_dfa, derived) = match backend {
            PreparedBackend::Dfa(dfa) => {
                let index = match Index::from_certified_dfa(&dfa, vocabulary) {
                    Ok(index) => index,
                    Err(error) => {
                        assert(attach_refused(&given, vocabulary, options.limits, error));
                        return Err(error);
                    },
                };
                (CompiledBackend::Dfa(Arc::new(index)), Some(Arc::new(dfa)), None)
            },
            PreparedBackend::Lalr(lalr) => {
                let derived = match DerivedVocabulary::build(vocabulary, &options.limits) {
                    Ok(derived) => derived,
                    Err(error) => {
                        assert(attach_refused(&given, vocabulary, options.limits, error));
                        return Err(error);
                    },
                };
                (CompiledBackend::Lalr(lalr), None, Some(Arc::new(derived)))
            },
            PreparedBackend::Earley(earley) => {
                let derived = match DerivedVocabulary::build(vocabulary, &options.limits) {
                    Ok(derived) => derived,
                    Err(error) => {
                        assert(attach_refused(&given, vocabulary, options.limits, error));
                        return Err(error);
                    },
                };
                (CompiledBackend::Earley(earley), None, Some(Arc::new(derived)))
            },
        };
        let compiled = CompiledSchema {
            semantic_contract: semantic_contract(),
            normalized: arena,
            grammar,
            report,
            backend,
            byte_dfa,
            vocabulary: derived,
        };
        assert(compiled.serves(vocabulary.entries@));
        assert(comes_of(&compiled, &given));
        Ok(compiled)
    }
}

/// Whether a compiled schema is what was prepared.
pub open spec fn comes_of(compiled: &CompiledSchema, prepared: &PreparedCompilation) -> bool {
    &&& compiled.normalized == prepared.arena
    &&& compiled.grammar == prepared.grammar
    &&& compiled.report == prepared.report
    &&& compiled.kind() == prepared.backend.spec_kind()
}

/// Whether an error says why a vocabulary does not go with what was prepared.
pub open spec fn attach_refused(
    prepared: &PreparedCompilation,
    vocabulary: &Vocabulary,
    limits: CompileLimits,
    error: Error,
) -> bool {
    match prepared.backend {
        PreparedBackend::Dfa(dfa) => {
            ||| index::project_error(
                &dfa,
                vocabulary.entries@,
                index::ProjectionPolicy::Exact,
                "certified byte DFA"@,
                error,
            )
            ||| error is Compile && index::width_of(
                vocabulary.entries@,
                vocabulary.eos,
                usize::MAX + 1,
            )
        },
        _ => trie::refused(vocabulary.entries@, vocabulary.eos, limits, error),
    }
}

/// What is promised of a compilation over a vocabulary: the schema is served by a backend that the
/// policy admits, or the error says which step refused it.
pub open spec fn compiles(
    result: Result<CompiledSchema, Error>,
    root: JsonValue,
    vocabulary: &Vocabulary,
    limits: CompileLimits,
    policy: BackendPolicy,
) -> bool {
    match result {
        Ok(compiled) => {
            &&& compiled.serves(vocabulary.entries@)
            &&& exists|prepared: PreparedCompilation| #[trigger]
                prepares(&prepared, root, limits, policy) && comes_of(&compiled, &prepared)
        },
        Err(error) => {
            ||| error matches Error::Compile(cause) && prepare_refused(root, limits, policy, cause)
            ||| exists|prepared: PreparedCompilation| #[trigger]
                prepares(&prepared, root, limits, policy) && attach_refused(
                    &prepared,
                    vocabulary,
                    limits,
                    error,
                )
        },
    }
}

/// Whether an error says why charts could not be started, and it is so.
pub open spec fn start_refused(
    earley: &CompiledEarley,
    limits: RuntimeLimits,
    error: RuntimeError,
) -> bool {
    if limits.max_chart_columns == 0 {
        error == (RuntimeError::ResourceLimitExceeded {
            resource: RuntimeResource::ChartColumns,
            observed: 1,
            limit: 0,
        })
    } else {
        exists|first: EarleyRecognizer| #[trigger]
            earley.start_refused(&first, limits, true, error)
    }
}

/// Whether a recognizer recognizes the texts that conform to a schema, and no others.
pub open spec fn recognizes_schema(recognizer: &RecognizerState, arena: &SchemaArena) -> bool {
    &&& recognizer.wf()
    &&& recognizer.faithful()
    &&& recognizer.fruitful()
    &&& forall|w: Seq<u8>| #[trigger] recognizer.generates(w) <==> accepted(arena, w)
}

impl CompiledSchema {
    /// The index over the vocabulary, where an automaton serves the schema.
    pub fn index(&self) -> (result: Result<&Index, CompileError>)
        requires
            self.wf(),
        ensures
            match self.backend {
                CompiledBackend::Dfa(index) => result matches Ok(found) && *found == *index,
                _ => result matches Err(CompileError::StructuralBackendRequired { location })
                    && location
                    == self.grammar.nonterminals@[self.grammar.start as int].provenance.spec_location(),
            },
    {
        match &self.backend {
            CompiledBackend::Dfa(index) => Ok(&**index),
            _ => Err(
                CompileError::StructuralBackendRequired {
                    location: self.grammar.nonterminals[self.grammar.start as usize].provenance.location(),
                },
            ),
        }
    }

    /// A recognizer at the start of the input. The generation tells its checkpoints from those of
    /// others.
    pub fn recognizer(&self, limits: RuntimeLimits, generation: u64) -> (result: Result<
        RecognizerState,
        RuntimeError,
    >)
        requires
            self.wf(),
        ensures
            result matches Ok(recognizer) ==> {
                &&& recognizes_schema(&recognizer, &self.normalized)
                &&& recognizer.recognizes(Seq::empty())
                &&& match self.backend {
                    CompiledBackend::Dfa(_) => recognizer matches RecognizerState::Dfa(found)
                        && found.limits == limits && found.generation == generation,
                    CompiledBackend::Lalr(lalr) => recognizer matches RecognizerState::Lalr(found)
                        && found.compiled == lalr && found.limits == limits && found.generation
                        == generation,
                    CompiledBackend::Earley(earley) => recognizer matches RecognizerState::Earley(
                        found,
                    ) && found.compiled == earley && found.limits == limits && found.generation
                        == generation,
                }
            },
            result matches Err(error) ==> (self.backend matches CompiledBackend::Earley(earley)
                && start_refused(&*earley, limits, error)),
            self.backend is Earley && limits.max_chart_columns == 0 ==> result is Err,
    {
        match &self.backend {
            CompiledBackend::Dfa(_) => {
                let dfa = match &self.byte_dfa {
                    Some(dfa) => Arc::clone(dfa),
                    None => {
                        return Err(
                            RuntimeError::InternalInvariant {
                                message: "whole-DFA backend has no byte automaton",
                            },
                        );
                    },
                };
                let recognizer = DfaRecognizer { dfa, state: 0, position: 0, generation, limits };
                assert(recognizer.recognizes(Seq::empty()));
                Ok(RecognizerState::Dfa(recognizer))
            },
            CompiledBackend::Lalr(lalr) => Ok(
                RecognizerState::Lalr(lalr.recognizer(limits, generation)),
            ),
            CompiledBackend::Earley(earley) => match earley.recognizer(limits, true, generation) {
                Ok(recognizer) => Ok(RecognizerState::Earley(recognizer)),
                Err(error) => Err(error),
            },
        }
    }

    /// A guide that has committed nothing.
    pub fn guide(&self, max_rollback: usize, limits: RuntimeLimits, generation: u64) -> (result:
        Result<Guide, RuntimeError>)
        requires
            self.wf(),
        ensures
            result matches Ok(guide) ==> {
                &&& guide.wf()
                &&& guide.max_rollback == max_rollback
                &&& guide.limits == limits
                &&& guide.committed_token_ids@.len() == 0
                &&& guide.history@.len() == 0
                &&& match self.backend {
                    CompiledBackend::Dfa(index) => guide.runtime == (GuideRuntime::Dfa {
                        index,
                        state: index.initial_state,
                    }),
                    _ => (guide.runtime matches GuideRuntime::Parser { recognizer }
                        && recognizes_schema(&*recognizer, &self.normalized)
                        && recognizer.recognizes(Seq::empty())) && guide.vocabulary
                        == self.vocabulary,
                }
            },
            result is Ok ==> max_rollback <= limits.max_checkpoint_history,
            !(self.backend is Earley) && max_rollback <= limits.max_checkpoint_history
                ==> result is Ok,
            result matches Err(error) ==> (max_rollback > limits.max_checkpoint_history && error
                == (RuntimeError::ResourceLimitExceeded {
                resource: RuntimeResource::CheckpointHistory,
                observed: max_rollback,
                limit: limits.max_checkpoint_history,
            })) || (self.backend matches CompiledBackend::Earley(earley) && start_refused(
                &*earley,
                limits,
                error,
            )),
    {
        let ghost entries = choose|entries: Seq<TokenEntry>| #[trigger] self.serves(entries);
        match &self.backend {
            CompiledBackend::Dfa(index) => {
                proof {
                    lemma_rows(&**index, &*self.byte_dfa->0, entries);
                }
                Guide::from_index(Arc::clone(index), max_rollback, limits)
            },
            _ => {
                let recognizer = match self.recognizer(limits, generation) {
                    Ok(recognizer) => recognizer,
                    Err(error) => {
                        return Err(error);
                    },
                };
                match &self.vocabulary {
                    Some(vocabulary) => {
                        assert(vocabulary.derives(entries));
                        Guide::from_recognizer(
                            recognizer,
                            Arc::clone(vocabulary),
                            max_rollback,
                            limits,
                        )
                    },
                    None => Err(
                        RuntimeError::InternalInvariant {
                            message: "structural backend has no vocabulary trie",
                        },
                    ),
                }
            },
        }
    }
}

/// The tokens of an index are those of its vocabulary.
proof fn lemma_rows(index: &Index, dfa: &CompiledByteDfa, entries: Seq<TokenEntry>)
    requires
        index_serves(index, dfa, entries),
    ensures
        index.eos_token_id < index.vocab_size <= u32::MAX + 1,
        forall|s: u32, id: u32|
            #![trigger index.transitions@[s]@.dom().contains(id)]
            index.transitions@.dom().contains(s) && index.transitions@[s]@.dom().contains(id)
                ==> id < index.vocab_size,
{
    assert forall|s: u32, id: u32|
        #![trigger index.transitions@[s]@.dom().contains(id)]
        index.transitions@.dom().contains(s) && index.transitions@[s]@.dom().contains(
            id,
        ) implies id < index.vocab_size by {
        if dfa.live_at(0) && id != index.eos_token_id {
            let row = index.transitions@[s]@;
            assert(index::row_exact(dfa, entries, index.eos_token_id, s, row));
            assert(index::leads(dfa, entries, s, id, row[id]));
        }
    }
}

/// What a recognizer of a schema accepts conforms to the schema.
pub proof fn law_accepted_conforms(arena: &SchemaArena, recognizer: &RecognizerState, h: Seq<u8>)
    requires
        recognizes_schema(recognizer, arena),
        recognizer.recognizes(h),
        recognizer.accepting(),
    ensures
        accepted(arena, h),
{
    match recognizer {
        RecognizerState::Dfa(found) => {
            assert(found.dfa.accepts(h));
        },
        RecognizerState::Lalr(found) => {
            lalr_recognizer::law_accepted_is_generated(found, h);
        },
        RecognizerState::Earley(found) => {
            earley::law_accepting_is_generated(found, h);
        },
    }
    assert(recognizer.generates(h));
}

/// What conforms to a schema is accepted by a recognizer of it that has read it, unless the
/// reductions at the end overrun the limits.
pub proof fn law_conforming_is_accepted(
    arena: &SchemaArena,
    recognizer: &RecognizerState,
    h: Seq<u8>,
)
    requires
        recognizes_schema(recognizer, arena),
        recognizer.recognizes(h),
        accepted(arena, h),
    ensures
        recognizer.accepting() || (recognizer matches RecognizerState::Lalr(found)
            && lalr_recognizer::overruns(
            found.compiled.machine(),
            found.limits,
            found.stack@,
            Lookahead::Eof,
        )),
{
    assert(recognizer.generates(h));
    match recognizer {
        RecognizerState::Dfa(found) => {
            assert(found.dfa.accepts(h));
        },
        RecognizerState::Lalr(found) => {
            lalr_recognizer::law_generated_is_accepted(found, h);
        },
        RecognizerState::Earley(found) => {
            earley::law_accepting_is_generated(found, h);
        },
    }
}

/// All backends that serve a schema recognize the same texts.
pub proof fn law_backends_agree(
    arena: &SchemaArena,
    one: &RecognizerState,
    other: &RecognizerState,
    w: Seq<u8>,
)
    requires
        recognizes_schema(one, arena),
        recognizes_schema(other, arena),
    ensures
        one.generates(w) == other.generates(w),
{
    assert(one.generates(w) <==> accepted(arena, w));
    assert(other.generates(w) <==> accepted(arena, w));
}

} // verus!
