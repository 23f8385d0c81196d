//! Reports of a compilation: what was found of a schema, and which backend serves it.

use vstd::prelude::*;

use crate::automaton::CompiledByteDfa;
use crate::certificate::{CertificateFailureReason, RegularAnalysis, RegularCertificateKind};
use crate::count;
use crate::earley::CompiledEarley;
use crate::error::CompileError;
use crate::grammar::Grammar;
use crate::guide::BackendKind;
use crate::lalr::CompiledLalr;
use crate::residual::ResidualGrammar;
use crate::scc;
use crate::schema::{
    DiagnosticLocation,
    ResourceId,
    SchemaArena,
    SchemaPointer,
    CANONICAL_POLICY_ID,
    COMPILED_FORMAT_VERSION,
    DRAFT_2020_12,
    PROFILE_ID,
};
use crate::symbol::{NonterminalId, SccId};
use crate::table;
use crate::table::LalrConflict;
use crate::text;

verus! {

/// A remark on a schema.
#[derive(Debug, PartialEq, Eq)]
pub struct Diagnostic {
    pub code: String,
    pub message: String,
    pub location: DiagnosticLocation,
}

/// What was found of a component.
#[derive(Debug, PartialEq, Eq)]
pub struct SccReport {
    pub id: SccId,
    pub members: Vec<NonterminalId>,
    pub source_pointers: Vec<SchemaPointer>,
    pub certificate: Option<RegularCertificateKind>,
    pub failure_reason: Option<CertificateFailureReason>,
}

/// What was found of a schema.
#[derive(Debug, PartialEq, Eq)]
pub struct TierReport {
    pub format_version: u32,
    pub dialect: String,
    pub profile: String,
    pub canonical_policy: String,
    pub schema_nodes: usize,
    pub reference_edges: usize,
    pub grammar_symbols: usize,
    pub grammar_productions: usize,
    pub sccs: Vec<SccReport>,
    pub selected_backend: BackendKind,
    pub nfa_states: Option<usize>,
    pub nfa_transitions: Option<usize>,
    pub dfa_states: Option<usize>,
    pub dfa_bytes: Option<usize>,
    pub collapsed_regular_regions: usize,
    pub compiled_terminals: usize,
    pub terminal_dfa_states: usize,
    pub terminal_dfa_bytes: usize,
    pub canonical_lr_states: usize,
    pub lalr_states: usize,
    pub action_entries: usize,
    pub goto_entries: usize,
    pub conflicts: usize,
    pub conflict_summaries: Vec<LalrConflict>,
    pub nullable_nonterminals: usize,
    pub leo_eligible_rules: usize,
    pub diagnostics: Vec<Diagnostic>,
}

/// How long each part of a compilation took, in nanoseconds.
#[derive(Clone, Debug, PartialEq, Eq)]
pub struct CompileProfile {
    pub schema_parse_ns: u64,
    pub normalization_ns: u64,
    pub grammar_lowering_ns: u64,
    pub grammar_reduction_ns: u64,
    pub scc_analysis_ns: u64,
    pub regular_certification_ns: u64,
    pub nfa_construction_ns: u64,
    pub dfa_determinization_ns: u64,
    pub vocabulary_projection_ns: u64,
    pub residual_grammar_ns: u64,
    pub lalr_construction_ns: u64,
    pub earley_preparation_ns: u64,
    pub vocabulary_trie_ns: u64,
    pub total_ns: u64,
}

impl Default for CompileProfile {
    /// The profile of nothing.
    fn default() -> (profile: Self)
        ensures
            profile == (CompileProfile {
                schema_parse_ns: 0,
                normalization_ns: 0,
                grammar_lowering_ns: 0,
                grammar_reduction_ns: 0,
                scc_analysis_ns: 0,
                regular_certification_ns: 0,
                nfa_construction_ns: 0,
                dfa_determinization_ns: 0,
                vocabulary_projection_ns: 0,
                residual_grammar_ns: 0,
                lalr_construction_ns: 0,
                earley_preparation_ns: 0,
                vocabulary_trie_ns: 0,
                total_ns: 0,
            }),
    {
        CompileProfile {
            schema_parse_ns: 0,
            normalization_ns: 0,
            grammar_lowering_ns: 0,
            grammar_reduction_ns: 0,
            scc_analysis_ns: 0,
            regular_certification_ns: 0,
            nfa_construction_ns: 0,
            dfa_determinization_ns: 0,
            vocabulary_projection_ns: 0,
            residual_grammar_ns: 0,
            lalr_construction_ns: 0,
            earley_preparation_ns: 0,
            vocabulary_trie_ns: 0,
            total_ns: 0,
        }
    }
}

/// The rules by which a schema was compiled.
#[derive(Debug, PartialEq, Eq)]
pub struct SemanticContract {
    pub format_version: u32,
    pub dialect: String,
    pub profile: String,
    pub canonical_policy: String,
}

/// The rules by which schemas are compiled.
pub fn semantic_contract() -> (contract: SemanticContract)
    ensures
        contract.format_version == COMPILED_FORMAT_VERSION,
        contract.dialect@ == DRAFT_2020_12@,
        contract.profile@ == PROFILE_ID@,
        contract.canonical_policy@ == CANONICAL_POLICY_ID@,
{
    SemanticContract {
        format_version: COMPILED_FORMAT_VERSION,
        dialect: DRAFT_2020_12.to_owned(),
        profile: PROFILE_ID.to_owned(),
        canonical_policy: CANONICAL_POLICY_ID.to_owned(),
    }
}

/// What a failure means.
pub open spec fn failure_text(reason: CertificateFailureReason) -> Seq<char> {
    match reason {
        CertificateFailureReason::MultipleRecursiveOccurrences =>
            "a production has multiple recursive occurrences"@,
        CertificateFailureReason::MixedLinearOrientation =>
            "the component mixes left-linear and right-linear recursion"@,
        CertificateFailureReason::RecursiveSymbolInInterior =>
            "a recursive symbol occurs inside a production"@,
        CertificateFailureReason::UncertifiedDependency =>
            "a dependency has no exact regular certificate"@,
        CertificateFailureReason::UnsupportedRegularOperation =>
            "an exact regular operation is unavailable"@,
    }
}

/// What a failure means.
pub fn certificate_failure_message(reason: CertificateFailureReason) -> (message: &'static str)
    ensures
        message@ == failure_text(reason),
{
    match reason {
        CertificateFailureReason::MultipleRecursiveOccurrences =>
            "a production has multiple recursive occurrences",
        CertificateFailureReason::MixedLinearOrientation =>
            "the component mixes left-linear and right-linear recursion",
        CertificateFailureReason::RecursiveSymbolInInterior =>
            "a recursive symbol occurs inside a production",
        CertificateFailureReason::UncertifiedDependency =>
            "a dependency has no exact regular certificate",
        CertificateFailureReason::UnsupportedRegularOperation =>
            "an exact regular operation is unavailable",
    }
}

/// Counts of a backend that parses.
pub struct StructuralMetrics {
    pub collapsed_regular_regions: usize,
    pub compiled_terminals: usize,
    pub terminal_dfa_states: usize,
    pub terminal_dfa_bytes: usize,
    pub canonical_lr_states: usize,
    pub lalr_states: usize,
    pub action_entries: usize,
    pub goto_entries: usize,
    pub conflicts: usize,
    pub conflict_summaries: Vec<LalrConflict>,
    pub nullable_nonterminals: usize,
    pub leo_eligible_rules: usize,
}

/// A count as a machine integer.
pub open spec fn narrowed(count: u64) -> usize {
    if count <= usize::MAX {
        count as usize
    } else {
        usize::MAX
    }
}

/// A count as a machine integer.
fn narrow(count: u64) -> (narrow: usize)
    ensures
        narrow == narrowed(count),
{
    if count <= usize::MAX as u64 {
        count as usize
    } else {
        usize::MAX
    }
}

/// Whether counts are those of a residual grammar.
pub open spec fn counts_residual(metrics: &StructuralMetrics, residual: &ResidualGrammar) -> bool {
    &&& metrics.collapsed_regular_regions == residual.collapsed_regions
    &&& metrics.compiled_terminals == residual.terminals@.len()
    &&& metrics.terminal_dfa_states == residual.terminal_dfa_states
    &&& metrics.terminal_dfa_bytes == residual.terminal_dfa_bytes
}

/// Whether counts are those of parser tables, or there are none.
pub open spec fn counts_tables(metrics: &StructuralMetrics, lalr: Option<CompiledLalr>) -> bool {
    match lalr {
        Some(lalr) => {
            &&& metrics.canonical_lr_states == narrowed(lalr.stats.canonical_states)
            &&& metrics.lalr_states == narrowed(lalr.stats.merged_states)
            &&& metrics.action_entries == narrowed(lalr.stats.action_entries)
            &&& metrics.goto_entries == narrowed(lalr.stats.goto_entries)
            &&& metrics.conflicts == lalr.conflicts@.len()
            &&& table::same_conflicts(lalr.conflicts@, metrics.conflict_summaries@)
        },
        None => {
            &&& metrics.canonical_lr_states == 0
            &&& metrics.lalr_states == 0
            &&& metrics.action_entries == 0
            &&& metrics.goto_entries == 0
            &&& metrics.conflicts == 0
            &&& metrics.conflict_summaries@.len() == 0
        },
    }
}

impl StructuralMetrics {
    /// The counts of a residual grammar with tables.
    pub fn from_lalr(residual: &ResidualGrammar, lalr: &CompiledLalr) -> (metrics: Self)
        ensures
            counts_residual(&metrics, residual),
            counts_tables(&metrics, Some(*lalr)),
            metrics.nullable_nonterminals == count::count_true(residual.nullable@),
            metrics.leo_eligible_rules == 0,
    {
        StructuralMetrics {
            collapsed_regular_regions: residual.collapsed_regions,
            compiled_terminals: residual.terminals.len(),
            terminal_dfa_states: residual.terminal_dfa_states,
            terminal_dfa_bytes: residual.terminal_dfa_bytes,
            canonical_lr_states: narrow(lalr.stats.canonical_states),
            lalr_states: narrow(lalr.stats.merged_states),
            action_entries: narrow(lalr.stats.action_entries),
            goto_entries: narrow(lalr.stats.goto_entries),
            conflicts: lalr.conflicts.len(),
            conflict_summaries: table::clone_conflicts(&lalr.conflicts),
            nullable_nonterminals: count::count_marks(&residual.nullable),
            leo_eligible_rules: 0,
        }
    }

    /// The counts of a residual grammar that is prepared for charts, with those of tables that
    /// could not be used.
    pub fn from_earley(
        residual: &ResidualGrammar,
        earley: &CompiledEarley,
        lalr: Option<&CompiledLalr>,
    ) -> (metrics: Self)
        ensures
            counts_residual(&metrics, residual),
            counts_tables(
                &metrics,
                match lalr {
                    Some(lalr) => Some(*lalr),
                    None => None,
                },
            ),
            metrics.nullable_nonterminals == earley.nullable_nonterminals,
            metrics.leo_eligible_rules == earley.leo_eligible_rules,
    {
        match lalr {
            Some(lalr) => {
                let mut metrics = StructuralMetrics::from_lalr(residual, lalr);
                metrics.nullable_nonterminals = earley.nullable_nonterminals;
                metrics.leo_eligible_rules = earley.leo_eligible_rules;
                metrics
            },
            None => StructuralMetrics {
                collapsed_regular_regions: residual.collapsed_regions,
                compiled_terminals: residual.terminals.len(),
                terminal_dfa_states: residual.terminal_dfa_states,
                terminal_dfa_bytes: residual.terminal_dfa_bytes,
                canonical_lr_states: 0,
                lalr_states: 0,
                action_entries: 0,
                goto_entries: 0,
                conflicts: 0,
                conflict_summaries: Vec::new(),
                nullable_nonterminals: earley.nullable_nonterminals,
                leo_eligible_rules: earley.leo_eligible_rules,
            },
        }
    }
}

/// The pointers of the first `n` members of a component.
pub open spec fn member_pointers(
    grammar: &Grammar,
    members: Seq<NonterminalId>,
    n: nat,
) -> Set<Seq<char>>
    decreases n,
{
    if n == 0 || n > members.len() {
        Set::empty()
    } else {
        member_pointers(grammar, members, (n - 1) as nat).insert(
            grammar.nonterminals@[members[n - 1] as int].provenance.pointer.0@,
        )
    }
}

/// The texts of pointers.
pub open spec fn pointer_texts(list: Seq<SchemaPointer>) -> Seq<Seq<char>> {
    list.map_values(|pointer: SchemaPointer| pointer.0@)
}

/// Whether a report is that of a component: its pointers are those of its members, in ascending
/// order.
pub open spec fn scc_shows(
    report: SccReport,
    grammar: &Grammar,
    analysis: &RegularAnalysis,
    c: int,
) -> bool {
    let component = analysis.sccs.components@[c];
    &&& report.id == component.id
    &&& report.members@ == component.members@
    &&& report.certificate == analysis.certificates@[c].kind
    &&& report.failure_reason == analysis.certificates@[c].failure_reason
    &&& text::ascending(pointer_texts(report.source_pointers@))
    &&& pointer_texts(report.source_pointers@).to_set() == member_pointers(
        grammar,
        component.members@,
        component.members@.len(),
    )
}

/// What a remark says, and where.
pub struct Remark {
    pub pointer: Seq<char>,
    pub message: Seq<char>,
}

/// The remark on a component without a certificate: at the first of its pointers.
pub open spec fn remark_of(report: SccReport) -> Option<Remark> {
    match report.failure_reason {
        Some(reason) => Some(
            Remark {
                pointer: if report.source_pointers@.len() > 0 {
                    report.source_pointers@[0].0@
                } else {
                    Seq::empty()
                },
                message: failure_text(reason),
            },
        ),
        None => None,
    }
}

/// A remark put behind those that do not follow it.
pub open spec fn put_remark(list: Seq<Remark>, remark: Remark) -> Seq<Remark>
    decreases list.len(),
{
    if list.len() == 0 || !text::text_before(remark.pointer, list.last().pointer) {
        list.push(remark)
    } else {
        put_remark(list.drop_last(), remark).push(list.last())
    }
}

/// The remarks on the first `n` components, in the order of their pointers.
pub open spec fn remarks(sccs: Seq<SccReport>, n: nat) -> Seq<Remark>
    decreases n,
{
    if n == 0 || n > sccs.len() {
        Seq::empty()
    } else {
        let before = remarks(sccs, (n - 1) as nat);
        match remark_of(sccs[n - 1]) {
            Some(remark) => put_remark(before, remark),
            None => before,
        }
    }
}

/// What diagnostics say.
pub open spec fn said(list: Seq<Diagnostic>) -> Seq<Remark> {
    list.map_values(
        |diagnostic: Diagnostic|
            Remark { pointer: diagnostic.location.pointer.0@, message: diagnostic.message@ },
    )
}

/// Whether a diagnostic is one of a component without a certificate.
pub open spec fn coded(diagnostic: Diagnostic) -> bool {
    &&& diagnostic.code@ == "regular_certificate_failed"@
    &&& diagnostic.location.resource.0 == 0
    &&& diagnostic.location.keyword is None
}

/// Whether a report says what was found of a schema, its grammar and its components.
pub open spec fn report_exact(
    report: &TierReport,
    arena: &SchemaArena,
    grammar: &Grammar,
    analysis: &RegularAnalysis,
) -> bool {
    &&& report.format_version == COMPILED_FORMAT_VERSION
    &&& report.dialect@ == DRAFT_2020_12@
    &&& report.profile@ == PROFILE_ID@
    &&& report.canonical_policy@ == CANONICAL_POLICY_ID@
    &&& report.schema_nodes == arena.nodes@.len()
    &&& report.reference_edges == arena.reference_edges@.len()
    &&& report.grammar_symbols == grammar.nonterminals@.len() + grammar.terminals@.len()
    &&& report.grammar_productions == grammar.productions@.len()
    &&& report.sccs@.len() == analysis.sccs.components@.len()
    &&& forall|c: int|
        0 <= c < report.sccs@.len() ==> scc_shows(
            #[trigger] report.sccs@[c],
            grammar,
            analysis,
            c,
        )
    &&& said(report.diagnostics@) == remarks(report.sccs@, report.sccs@.len())
    &&& forall|d: int|
        0 <= d < report.diagnostics@.len() ==> coded(#[trigger] report.diagnostics@[d])
}

/// Whether a report says which backend serves a schema, and the counts of it.
pub open spec fn backend_exact(
    report: &TierReport,
    kind: BackendKind,
    dfa: Option<CompiledByteDfa>,
    metrics: Option<StructuralMetrics>,
) -> bool {
    &&& report.selected_backend == kind
    &&& match dfa {
        Some(dfa) => {
            &&& report.nfa_states == Some(dfa.nfa_states)
            &&& report.nfa_transitions == Some(dfa.nfa_transitions)
            &&& report.dfa_states == Some(dfa.states() as usize)
            &&& report.dfa_bytes == Some(dfa.spec_memory_bytes() as usize)
        },
        None => {
            &&& report.nfa_states is None
            &&& report.nfa_transitions is None
            &&& report.dfa_states is None
            &&& report.dfa_bytes is None
        },
    }
    &&& match metrics {
        Some(metrics) => {
            &&& report.collapsed_regular_regions == metrics.collapsed_regular_regions
            &&& report.compiled_terminals == metrics.compiled_terminals
            &&& report.terminal_dfa_states == metrics.terminal_dfa_states
            &&& report.terminal_dfa_bytes == metrics.terminal_dfa_bytes
            &&& report.canonical_lr_states == metrics.canonical_lr_states
            &&& report.lalr_states == metrics.lalr_states
            &&& report.action_entries == metrics.action_entries
            &&& report.goto_entries == metrics.goto_entries
            &&& report.conflicts == metrics.conflicts
            &&& report.conflict_summaries@ == metrics.conflict_summaries@
            &&& report.nullable_nonterminals == metrics.nullable_nonterminals
            &&& report.leo_eligible_rules == metrics.leo_eligible_rules
        },
        None => {
            &&& report.collapsed_regular_regions == 0
            &&& report.compiled_terminals == 0
            &&& report.terminal_dfa_states == 0
            &&& report.terminal_dfa_bytes == 0
            &&& report.canonical_lr_states == 0
            &&& report.lalr_states == 0
            &&& report.action_entries == 0
            &&& report.goto_entries == 0
            &&& report.conflicts == 0
            &&& report.conflict_summaries@.len() == 0
            &&& report.nullable_nonterminals == 0
            &&& report.leo_eligible_rules == 0
        },
    }
}

/// Collects the pointers of the members of a component, in ascending order.
fn collect_pointers(grammar: &Grammar, members: &Vec<NonterminalId>) -> (list: Vec<SchemaPointer>)
    requires
        forall|i: int|
            0 <= i < members@.len() ==> (#[trigger] members@[i]) < grammar.nonterminals@.len(),
    ensures
        text::ascending(pointer_texts(list@)),
        pointer_texts(list@).to_set() == member_pointers(grammar, members@, members@.len()),
{
    let mut texts: Vec<String> = Vec::new();
    let mut index: usize = 0;
    proof {
        assert(text::texts(texts@) =~= Seq::<Seq<char>>::empty());
        assert(text::texts(texts@).to_set() =~= Set::<Seq<char>>::empty());
    }
    while index < members.len()
        invariant
            forall|i: int|
                0 <= i < members@.len() ==> (#[trigger] members@[i]) < grammar.nonterminals@.len(),
            index <= members@.len(),
            text::ascending(text::texts(texts@)),
            text::texts(texts@).to_set() == member_pointers(grammar, members@, index as nat),
        decreases members@.len() - index,
    {
        let member = members[index];
        text::insert_text(
            &mut texts,
            grammar.nonterminals[member as usize].provenance.pointer.0.clone(),
        );
        index += 1;
    }
    let mut list: Vec<SchemaPointer> = Vec::new();
    let mut next: usize = 0;
    while next < texts.len()
        invariant
            next <= texts@.len(),
            pointer_texts(list@) =~= text::texts(texts@).take(next as int),
        decreases texts@.len() - next,
    {
        let ghost before = list@;
        list.push(SchemaPointer(texts[next].clone()));
        assert(pointer_texts(list@) =~= pointer_texts(before).push(texts@[next as int]@));
        next += 1;
    }
    assert(pointer_texts(list@) =~= text::texts(texts@));
    list
}

proof fn lemma_put_remark(list: Seq<Remark>, remark: Remark, position: int)
    requires
        0 <= position <= list.len(),
        forall|i: int|
            position <= i < list.len() ==> text::text_before(
                remark.pointer,
                (#[trigger] list[i]).pointer,
            ),
        position > 0 ==> !text::text_before(remark.pointer, list[position - 1].pointer),
    ensures
        put_remark(list, remark) == list.insert(position, remark),
    decreases list.len(),
{
    if position < list.len() {
        lemma_put_remark(list.drop_last(), remark, position);
        assert(list.drop_last().insert(position, remark).push(list.last()) =~= list.insert(
            position,
            remark,
        ));
    } else {
        assert(list.push(remark) =~= list.insert(position, remark));
    }
}

/// Puts a diagnostic behind those that do not follow it.
fn put_diagnostic(list: &mut Vec<Diagnostic>, pointer: SchemaPointer, message: &str)
    requires
        forall|d: int| 0 <= d < old(list)@.len() ==> coded(#[trigger] old(list)@[d]),
    ensures
        forall|d: int| 0 <= d < final(list)@.len() ==> coded(#[trigger] final(list)@[d]),
        said(final(list)@) == put_remark(
            said(old(list)@),
            (Remark { pointer: pointer.0@, message: message@ }),
        ),
{
    let ghost before = list@;
    let ghost remark = Remark { pointer: pointer.0@, message: message@ };
    let mut position: usize = list.len();
    while position > 0 && text::is_text_before(
        pointer.0.as_str(),
        list[position - 1].location.pointer.0.as_str(),
    )
        invariant
            list@ == before,
            position <= list@.len(),
            forall|i: int|
                position <= i < list@.len() ==> text::text_before(
                    pointer.0@,
                    (#[trigger] said(list@)[i]).pointer,
                ),
        decreases position,
    {
        position -= 1;
    }
    proof {
        lemma_put_remark(said(list@), remark, position as int);
    }
    list.insert(
        position,
        Diagnostic {
            code: "regular_certificate_failed".to_owned(),
            message: message.to_owned(),
            location: DiagnosticLocation { resource: ResourceId(0), pointer, keyword: None },
        },
    );
    proof {
        assert(said(list@) =~= said(before).insert(position as int, remark));
        assert forall|d: int| 0 <= d < list@.len() implies coded(#[trigger] list@[d]) by {
            if d < position {
                assert(list@[d] == before[d]);
            } else if d > position {
                assert(list@[d] == before[d - 1]);
            }
        }
    }
}

/// Earlier components keep their remarks.
proof fn lemma_remarks(sccs: Seq<SccReport>, last: SccReport, n: nat)
    requires
        n <= sccs.len(),
    ensures
        remarks(sccs.push(last), n) == remarks(sccs, n),
    decreases n,
{
    if n > 0 {
        lemma_remarks(sccs, last, (n - 1) as nat);
        assert(sccs.push(last)[n - 1] == sccs[n - 1]);
    }
}

/// Reports on the components of a grammar.
fn report_components(grammar: &Grammar, analysis: &RegularAnalysis) -> (found: (
    Vec<SccReport>,
    Vec<Diagnostic>,
))
    requires
        grammar.wf(),
        analysis.exact(grammar),
    ensures
        found.0@.len() == analysis.sccs.components@.len(),
        forall|c: int|
            0 <= c < found.0@.len() ==> scc_shows(#[trigger] found.0@[c], grammar, analysis, c),
        said(found.1@) == remarks(found.0@, found.0@.len()),
        forall|d: int| 0 <= d < found.1@.len() ==> coded(#[trigger] found.1@[d]),
{
    let mut sccs: Vec<SccReport> = Vec::new();
    let mut diagnostics: Vec<Diagnostic> = Vec::new();
    assert(said(diagnostics@) =~= Seq::<Remark>::empty());
    while sccs.len() < analysis.sccs.components.len()
        invariant
            grammar.wf(),
            analysis.exact(grammar),
            sccs@.len() <= analysis.sccs.components@.len(),
            forall|c: int|
                0 <= c < sccs@.len() ==> scc_shows(#[trigger] sccs@[c], grammar, analysis, c),
            said(diagnostics@) == remarks(sccs@, sccs@.len()),
            forall|d: int| 0 <= d < diagnostics@.len() ==> coded(#[trigger] diagnostics@[d]),
        decreases analysis.sccs.components@.len() - sccs@.len(),
    {
        let place: usize = sccs.len();
        let component = &analysis.sccs.components[place];
        let certificate = &analysis.certificates[place];
        proof {
            lemma_members(grammar, analysis, place as int);
        }
        let source_pointers = collect_pointers(grammar, &component.members);
        let members = component.members.clone();
        assert(members@ =~= component.members@);
        let first = if source_pointers.len() > 0 {
            source_pointers[0].clone()
        } else {
            let top = String::new();
            assert(top@ =~= Seq::<char>::empty());
            SchemaPointer(top)
        };
        let ghost before = sccs@;
        sccs.push(
            SccReport {
                id: component.id,
                members,
                source_pointers,
                certificate: certificate.kind,
                failure_reason: certificate.failure_reason,
            },
        );
        proof {
            lemma_remarks(before, sccs@[place as int], place as nat);
            assert(sccs@ =~= before.push(sccs@[place as int]));
        }
        if let Some(reason) = certificate.failure_reason {
            put_diagnostic(&mut diagnostics, first, certificate_failure_message(reason));
        }
    }
    (sccs, diagnostics)
}

/// The members of a component are nonterminals.
proof fn lemma_members(grammar: &Grammar, analysis: &RegularAnalysis, c: int)
    requires
        analysis.exact(grammar),
        0 <= c < analysis.sccs.components@.len(),
    ensures
        forall|i: int|
            0 <= i < analysis.sccs.components@[c].members@.len() ==> (
            #[trigger] analysis.sccs.components@[c].members@[i]) < grammar.nonterminals@.len(),
{
    let graph = choose|graph: Seq<Vec<u32>>|
        scc::graph_of(grammar, graph) && #[trigger] analysis.sccs.exact(graph);
    assert(analysis.sccs.component_exact(graph, c));
    let members = analysis.sccs.components@[c].members@;
    assert forall|i: int| 0 <= i < members.len() implies (#[trigger] members[i])
        < grammar.nonterminals@.len() by {
        assert(members.contains(members[i]));
    }
}

/// Puts a report together.
pub fn build_report(
    arena: &SchemaArena,
    grammar: &Grammar,
    analysis: &RegularAnalysis,
    kind: BackendKind,
    dfa: Option<&CompiledByteDfa>,
    metrics: Option<StructuralMetrics>,
) -> (result: Result<TierReport, CompileError>)
    requires
        grammar.wf(),
        analysis.exact(grammar),
        dfa matches Some(found) ==> found.wf(),
    ensures
        result is Ok <==> grammar.nonterminals@.len() + grammar.terminals@.len() <= usize::MAX,
        result matches Ok(report) ==> report_exact(&report, arena, grammar, analysis)
            && backend_exact(
            &report,
            kind,
            match dfa {
                Some(found) => Some(*found),
                None => None,
            },
            metrics,
        ),
        result matches Err(error) ==> error is InternalInvariant,
{
    let grammar_symbols: usize = match grammar.nonterminals.len().checked_add(
        grammar.terminals.len(),
    ) {
        Some(count) => count,
        None => {
            return Err(
                CompileError::InternalInvariant { message: "grammar symbol count overflowed" },
            );
        },
    };
    let (sccs, diagnostics) = report_components(grammar, analysis);
    let counts = match metrics {
        Some(metrics) => metrics,
        None => StructuralMetrics {
            collapsed_regular_regions: 0,
            compiled_terminals: 0,
            terminal_dfa_states: 0,
            terminal_dfa_bytes: 0,
            canonical_lr_states: 0,
            lalr_states: 0,
            action_entries: 0,
            goto_entries: 0,
            conflicts: 0,
            conflict_summaries: Vec::new(),
            nullable_nonterminals: 0,
            leo_eligible_rules: 0,
        },
    };
    let (nfa_states, nfa_transitions, dfa_states, dfa_bytes) = match dfa {
        Some(dfa) => (
            Some(dfa.nfa_states),
            Some(dfa.nfa_transitions),
            Some(dfa.state_count()),
            Some(dfa.memory_bytes()),
        ),
        None => (None, None, None, None),
    };
    Ok(
        TierReport {
            format_version: COMPILED_FORMAT_VERSION,
            dialect: DRAFT_2020_12.to_owned(),
            profile: PROFILE_ID.to_owned(),
            canonical_policy: CANONICAL_POLICY_ID.to_owned(),
            schema_nodes: arena.nodes.len(),
            reference_edges: arena.reference_edges.len(),
            grammar_symbols,
            grammar_productions: grammar.productions.len(),
            sccs,
            selected_backend: kind,
            nfa_states,
            nfa_transitions,
            dfa_states,
            dfa_bytes,
            collapsed_regular_regions: counts.collapsed_regular_regions,
            compiled_terminals: counts.compiled_terminals,
            terminal_dfa_states: counts.terminal_dfa_states,
            terminal_dfa_bytes: counts.terminal_dfa_bytes,
            canonical_lr_states: counts.canonical_lr_states,
            lalr_states: counts.lalr_states,
            action_entries: counts.action_entries,
            goto_entries: counts.goto_entries,
            conflicts: counts.conflicts,
            conflict_summaries: counts.conflict_summaries,
            nullable_nonterminals: counts.nullable_nonterminals,
            leo_eligible_rules: counts.leo_eligible_rules,
            diagnostics,
        },
    )
}

/// Whether remarks come in the order of their pointers.
pub open spec fn remarks_ordered(list: Seq<Remark>) -> bool {
    forall|i: int, j: int|
        0 <= i < j < list.len() ==> !text::text_before(
            (#[trigger] list[j]).pointer,
            (#[trigger] list[i]).pointer,
        )
}

/// A remark that is put among others is there with them, and they stay in order.
proof fn lemma_put_keeps(list: Seq<Remark>, remark: Remark)
    requires
        remarks_ordered(list),
    ensures
        remarks_ordered(put_remark(list, remark)),
        put_remark(list, remark).to_multiset() == list.to_multiset().insert(remark),
        forall|other: Remark| #[trigger]
            put_remark(list, remark).contains(other) <==> list.contains(other) || other == remark,
    decreases list.len(),
{
    broadcast use vstd::seq_lib::group_to_multiset_ensures;

    let all = put_remark(list, remark);
    if list.len() == 0 || !text::text_before(remark.pointer, list.last().pointer) {
        assert forall|i: int, j: int| 0 <= i < j < all.len() implies !text::text_before(
            (#[trigger] all[j]).pointer,
            (#[trigger] all[i]).pointer,
        ) by {
            if j == list.len() {
                let last = list.last();
                if text::text_before(remark.pointer, list[i].pointer) {
                    text::lemma_text_total(list[i].pointer, last.pointer);
                    if i < list.len() - 1 {
                        assert(!text::text_before(
                            list[list.len() - 1].pointer,
                            list[i].pointer,
                        ));
                        if text::text_before(list[i].pointer, last.pointer) {
                            text::lemma_text_transitive(
                                remark.pointer,
                                list[i].pointer,
                                last.pointer,
                            );
                        }
                    }
                }
            }
        }
        assert forall|other: Remark| #[trigger] all.contains(other) <==> list.contains(other)
            || other == remark by {
            if list.contains(other) {
                let i = choose|i: int| 0 <= i < list.len() && list[i] == other;
                assert(all[i] == other);
            }
            assert(all[list.len() as int] == remark);
        }
    } else {
        let front = list.drop_last();
        let last = list.last();
        lemma_put_keeps(front, remark);
        let put = put_remark(front, remark);
        assert(list =~= front.push(last));
        assert(front.push(last).to_multiset() =~= front.to_multiset().insert(last));
        assert(all.to_multiset() =~= list.to_multiset().insert(remark));
        assert forall|i: int, j: int| 0 <= i < j < all.len() implies !text::text_before(
            (#[trigger] all[j]).pointer,
            (#[trigger] all[i]).pointer,
        ) by {
            if j == put.len() {
                assert(put.contains(put[i]));
                if put[i] == remark {
                    text::lemma_text_total(remark.pointer, last.pointer);
                } else {
                    assert(front.contains(put[i]));
                    let k = choose|k: int| 0 <= k < front.len() && front[k] == put[i];
                    assert(list[k] == put[i] && list[list.len() - 1] == last);
                }
            }
        }
        assert forall|other: Remark| #[trigger] all.contains(other) <==> list.contains(other)
            || other == remark by {
            if put.contains(other) {
                let i = choose|i: int| 0 <= i < put.len() && put[i] == other;
                assert(all[i] == other);
            }
            if front.contains(other) {
                let i = choose|i: int| 0 <= i < front.len() && front[i] == other;
                assert(list[i] == other);
            }
            if list.contains(other) {
                let i = choose|i: int| 0 <= i < list.len() && list[i] == other;
                if i < front.len() {
                    assert(front[i] == other);
                } else {
                    assert(all[put.len() as int] == last);
                }
            }
            if all.contains(other) && !put.contains(other) {
                let i = choose|i: int| 0 <= i < all.len() && all[i] == other;
                if i < put.len() {
                    assert(put[i] == other);
                }
                assert(list[list.len() - 1] == other);
            }
        }
    }
}

/// The number of components without a certificate among the first `n`.
pub open spec fn failures(sccs: Seq<SccReport>, n: nat) -> nat
    decreases n,
{
    if n == 0 {
        0
    } else {
        failures(sccs, (n - 1) as nat) + if sccs[n - 1].failure_reason is Some {
            1nat
        } else {
            0nat
        }
    }
}

/// There is a remark on each component without a certificate, and on no other, in the order of the
/// pointers.
pub proof fn law_remarks_are_on_failures(sccs: Seq<SccReport>, n: nat)
    requires
        n <= sccs.len(),
    ensures
        remarks_ordered(remarks(sccs, n)),
        remarks(sccs, n).len() == failures(sccs, n),
        forall|remark: Remark| #[trigger]
            remarks(sccs, n).contains(remark) <==> exists|c: int|
                0 <= c < n && (#[trigger] sccs[c]).failure_reason is Some && remark_of(sccs[c])
                    == Some(remark),
    decreases n,
{
    broadcast use vstd::seq_lib::group_to_multiset_ensures;

    if n > 0 {
        let m = (n - 1) as nat;
        law_remarks_are_on_failures(sccs, m);
        let before = remarks(sccs, m);
        if let Some(remark) = remark_of(sccs[n - 1]) {
            lemma_put_keeps(before, remark);
            assert(remarks(sccs, n).to_multiset().len() == before.to_multiset().len() + 1);
        }
        assert forall|remark: Remark| #[trigger]
            remarks(sccs, n).contains(remark) <==> exists|c: int|
                0 <= c < n && (#[trigger] sccs[c]).failure_reason is Some && remark_of(sccs[c])
                    == Some(remark) by {
            if before.contains(remark) {
                let c = choose|c: int|
                    0 <= c < m && (#[trigger] sccs[c]).failure_reason is Some && remark_of(sccs[c])
                        == Some(remark);
                assert(sccs[c].failure_reason is Some);
            }
            assert(sccs[n - 1] == sccs[n - 1]);
        }
    }
}

/// The pointers of a component are those of its members.
pub proof fn law_pointers_are_of_members(
    grammar: &Grammar,
    members: Seq<NonterminalId>,
    n: nat,
    pointer: Seq<char>,
)
    requires
        n <= members.len(),
    ensures
        member_pointers(grammar, members, n).contains(pointer) <==> exists|i: int|
            0 <= i < n && grammar.nonterminals@[#[trigger] members[i] as int].provenance.pointer.0@
                == pointer,
    decreases n,
{
    if n > 0 {
        law_pointers_are_of_members(grammar, members, (n - 1) as nat, pointer);
        assert(members[n - 1] == members[n - 1]);
    }
}

} // verus!
