//! The command line: its arguments, its reports and its exit codes.

use vstd::prelude::*;
use vstd::string::*;

use crate::certificate::{CertificateFailureReason, RegularCertificateKind};
use crate::error::CompileError;
use crate::guide::BackendKind;
use crate::message;
use crate::report::{Diagnostic, SccReport, TierReport};
use crate::schema::SchemaPointer;
use crate::text;

verus! {

/// The exit code of a fault of the program.
pub const EXIT_INTERNAL: i32 = 1;

/// The exit code of a schema or a command that is refused.
pub const EXIT_SCHEMA: i32 = 2;

/// The exit code of a limit that was passed.
pub const EXIT_RESOURCE: i32 = 3;

/// The exit code of a schema that only a parser can serve.
pub const EXIT_STRUCTURAL: i32 = 4;

/// The form of a report.
#[derive(Clone, Copy, Debug, PartialEq, Eq, Structural)]
pub enum OutputFormat {
    Text,
    Json,
}

/// What is asked of the program. A schema is the path of its file.
#[derive(Debug, PartialEq, Eq)]
pub enum Command {
    TierReport { schema: String, format: OutputFormat },
    Compile { schema: String, format: OutputFormat },
    Help,
}

/// Whether a name asks for help.
pub open spec fn asks_help(name: Seq<char>) -> bool {
    name == "help"@ || name == "--help"@ || name == "-h"@
}

/// Whether a name is that of a command on a schema.
pub open spec fn names_command(name: Seq<char>) -> bool {
    name == "tier-report"@ || name == "compile"@
}

/// The format that the options from an index on ask for, or what is wrong with them. The last
/// option counts.
pub open spec fn options(arguments: Seq<String>, index: int, format: OutputFormat) -> Result<
    OutputFormat,
    Seq<char>,
>
    decreases arguments.len() - index,
{
    if index < 0 || index >= arguments.len() {
        Ok(format)
    } else if arguments[index]@ != "--format"@ {
        Err("unexpected argument `"@ + arguments[index]@ + "`"@)
    } else if index + 1 >= arguments.len() {
        Err("`--format` requires `text` or `json`"@)
    } else if arguments[index + 1]@ == "text"@ {
        options(arguments, index + 2, OutputFormat::Text)
    } else if arguments[index + 1]@ == "json"@ {
        options(arguments, index + 2, OutputFormat::Json)
    } else {
        Err("unsupported report format `"@ + arguments[index + 1]@ + "`"@)
    }
}

/// Whether a result refuses arguments, for a reason.
pub open spec fn refuses(result: Result<Command, String>, reason: Seq<char>) -> bool {
    result matches Err(found) && found@ == reason
}

/// Whether a result is a command on a schema.
pub open spec fn commands(
    result: Result<Command, String>,
    name: Seq<char>,
    path: Seq<char>,
    wanted: OutputFormat,
) -> bool {
    if name == "tier-report"@ {
        result matches Ok(Command::TierReport { schema, format }) && schema@ == path && format
            == wanted
    } else {
        result matches Ok(Command::Compile { schema, format }) && schema@ == path && format
            == wanted
    }
}

/// Whether arguments are read as a result.
pub open spec fn reads(arguments: Seq<String>, result: Result<Command, String>) -> bool {
    if arguments.len() == 0 {
        refuses(result, "missing command"@)
    } else {
        let name = arguments[0]@;
        if asks_help(name) {
            if arguments.len() == 1 {
                result matches Ok(Command::Help)
            } else {
                refuses(result, "help does not accept arguments"@)
            }
        } else if !names_command(name) {
            refuses(result, "unknown command `"@ + name + "`"@)
        } else if arguments.len() == 1 || (arguments[1]@.len() > 0 && arguments[1]@[0] == '-') {
            refuses(result, "`"@ + name + "` requires a schema path"@)
        } else {
            match options(arguments, 2, OutputFormat::Text) {
                Ok(format) => commands(result, name, arguments[1]@, format),
                Err(reason) => refuses(result, reason),
            }
        }
    }
}

/// A text between two others.
fn between(before: &str, middle: &str, after: &str) -> (whole: String)
    ensures
        whole@ == before@ + middle@ + after@,
{
    let mut whole = before.to_owned();
    whole.append(middle);
    whole.append(after);
    whole
}

/// The format that the options behind a schema ask for.
fn parse_options(arguments: &[String]) -> (result: Result<OutputFormat, String>)
    ensures
        match options(arguments@, 2, OutputFormat::Text) {
            Ok(format) => result matches Ok(found) && found == format,
            Err(reason) => result matches Err(found) && found@ == reason,
        },
{
    let mut format = OutputFormat::Text;
    let mut index: usize = 2;
    while index < arguments.len()
        invariant
            2 <= index,
            options(arguments@, 2, OutputFormat::Text) == options(
                arguments@,
                index as int,
                format,
            ),
        decreases arguments@.len() - index,
    {
        if !text::same_text(arguments[index].as_str(), "--format") {
            return Err(between("unexpected argument `", arguments[index].as_str(), "`"));
        }
        if arguments.len() - index < 2 {
            return Err("`--format` requires `text` or `json`".to_owned());
        }
        let value = arguments[index + 1].as_str();
        if text::same_text(value, "text") {
            format = OutputFormat::Text;
        } else if text::same_text(value, "json") {
            format = OutputFormat::Json;
        } else {
            return Err(between("unsupported report format `", value, "`"));
        }
        if arguments.len() - index == 2 {
            assert(options(arguments@, 2, OutputFormat::Text) == options(
                arguments@,
                index + 2,
                format,
            ));
            return Ok(format);
        }
        index += 2;
    }
    Ok(format)
}

/// Reads the arguments of the program.
pub fn parse_command(arguments: &[String]) -> (result: Result<Command, String>)
    ensures
        reads(arguments@, result),
{
    if arguments.len() == 0 {
        return Err("missing command".to_owned());
    }
    let name = arguments[0].as_str();
    if text::same_text(name, "help") || text::same_text(name, "--help") || text::same_text(
        name,
        "-h",
    ) {
        return if arguments.len() == 1 {
            Ok(Command::Help)
        } else {
            Err("help does not accept arguments".to_owned())
        };
    }
    let reports = text::same_text(name, "tier-report");
    if !reports && !text::same_text(name, "compile") {
        return Err(between("unknown command `", name, "`"));
    }
    if arguments.len() == 1 {
        return Err(between("`", name, "` requires a schema path"));
    }
    let path = arguments[1].as_str();
    if path.unicode_len() > 0 && path.get_char(0) == '-' {
        return Err(between("`", name, "` requires a schema path"));
    }
    let format = match parse_options(arguments) {
        Ok(format) => format,
        Err(reason) => {
            return Err(reason);
        },
    };
    let schema = path.to_owned();
    if reports {
        Ok(Command::TierReport { schema, format })
    } else {
        Ok(Command::Compile { schema, format })
    }
}

/// A line of a report.
pub open spec fn line(name: Seq<char>, value: Seq<char>) -> Seq<char> {
    name + ": "@ + value + "\n"@
}

/// A line with a count.
pub open spec fn count_line(name: Seq<char>, value: usize) -> Seq<char> {
    line(name, text::digits(value as nat))
}

/// A line with a count, if there is one.
pub open spec fn optional_line(name: Seq<char>, value: Option<usize>) -> Seq<char> {
    match value {
        Some(value) => count_line(name, value),
        None => line(name, "not-applicable"@),
    }
}

/// The name of a backend.
pub open spec fn backend_text(backend: BackendKind) -> Seq<char> {
    match backend {
        BackendKind::WholeDfa => "whole-dfa"@,
        BackendKind::Lalr => "lalr"@,
        BackendKind::Earley => "earley"@,
    }
}

/// The name of a certificate.
pub open spec fn certificate_text(certificate: Option<RegularCertificateKind>) -> Seq<char> {
    match certificate {
        Some(RegularCertificateKind::Acyclic) => "acyclic"@,
        Some(RegularCertificateKind::RightLinear) => "right-linear"@,
        Some(RegularCertificateKind::LeftLinear) => "left-linear"@,
        None => "none"@,
    }
}

/// The name of a failure.
pub open spec fn failure_name(reason: CertificateFailureReason) -> Seq<char> {
    match reason {
        CertificateFailureReason::MultipleRecursiveOccurrences => "multiple-recursive-occurrences"@,
        CertificateFailureReason::MixedLinearOrientation => "mixed-linear-orientation"@,
        CertificateFailureReason::RecursiveSymbolInInterior => "recursive-symbol-in-interior"@,
        CertificateFailureReason::UncertifiedDependency => "uncertified-dependency"@,
        CertificateFailureReason::UnsupportedRegularOperation => "unsupported-regular-operation"@,
    }
}

/// The first `n` numbers, with commas between them.
pub open spec fn number_list(list: Seq<u32>, n: nat) -> Seq<char>
    decreases n,
{
    if n == 0 || n > list.len() {
        Seq::empty()
    } else {
        number_list(list, (n - 1) as nat) + (if n == 1 {
            Seq::empty()
        } else {
            ","@
        }) + text::digits(list[n - 1] as nat)
    }
}

/// The first `n` pointers, with commas between them.
pub open spec fn pointer_list(list: Seq<SchemaPointer>, n: nat) -> Seq<char>
    decreases n,
{
    if n == 0 || n > list.len() {
        Seq::empty()
    } else {
        pointer_list(list, (n - 1) as nat) + (if n == 1 {
            Seq::empty()
        } else {
            ","@
        }) + message::pointer_text(list[n - 1])
    }
}

/// What a report says of a component.
pub open spec fn scc_text(report: SccReport) -> Seq<char> {
    "scc "@ + text::digits(report.id as nat) + ": members="@ + number_list(
        report.members@,
        report.members@.len(),
    ) + " certificate="@ + certificate_text(report.certificate) + (match report.failure_reason {
        Some(reason) => " failure="@ + failure_name(reason),
        None => Seq::empty(),
    }) + " pointers="@ + pointer_list(report.source_pointers@, report.source_pointers@.len())
        + "\n"@
}

/// What a report says of its first `n` components.
pub open spec fn sccs_text(list: Seq<SccReport>, n: nat) -> Seq<char>
    decreases n,
{
    if n == 0 || n > list.len() {
        Seq::empty()
    } else {
        sccs_text(list, (n - 1) as nat) + scc_text(list[n - 1])
    }
}

/// A remark as a line.
pub open spec fn diagnostic_text(diagnostic: Diagnostic) -> Seq<char> {
    "diagnostic "@ + diagnostic.code@ + " at "@ + message::pointer_text(
        diagnostic.location.pointer,
    ) + ": "@ + diagnostic.message@ + "\n"@
}

/// The first `n` remarks as lines.
pub open spec fn diagnostics_text(list: Seq<Diagnostic>, n: nat) -> Seq<char>
    decreases n,
{
    if n == 0 || n > list.len() {
        Seq::empty()
    } else {
        diagnostics_text(list, (n - 1) as nat) + diagnostic_text(list[n - 1])
    }
}

/// The counts of a report.
pub open spec fn counts_text(report: TierReport) -> Seq<char> {
    line("dialect"@, report.dialect@) + line("profile"@, report.profile@) + line(
        "canonical-policy"@,
        report.canonical_policy@,
    ) + line("backend"@, backend_text(report.selected_backend)) + count_line(
        "schema-nodes"@,
        report.schema_nodes,
    ) + count_line("reference-edges"@, report.reference_edges) + count_line(
        "grammar-symbols"@,
        report.grammar_symbols,
    ) + count_line("grammar-productions"@, report.grammar_productions) + optional_line(
        "nfa-states"@,
        report.nfa_states,
    ) + optional_line("nfa-transitions"@, report.nfa_transitions) + optional_line(
        "dfa-states"@,
        report.dfa_states,
    ) + optional_line("dfa-bytes"@, report.dfa_bytes) + count_line(
        "collapsed-regular-regions"@,
        report.collapsed_regular_regions,
    ) + count_line("compiled-terminals"@, report.compiled_terminals) + count_line(
        "terminal-dfa-states"@,
        report.terminal_dfa_states,
    ) + count_line("terminal-dfa-bytes"@, report.terminal_dfa_bytes) + count_line(
        "canonical-lr-states"@,
        report.canonical_lr_states,
    ) + count_line("lalr-states"@, report.lalr_states) + count_line(
        "action-entries"@,
        report.action_entries,
    ) + count_line("goto-entries"@, report.goto_entries) + count_line(
        "conflicts"@,
        report.conflicts,
    ) + count_line("nullable-nonterminals"@, report.nullable_nonterminals) + count_line(
        "leo-eligible-rules"@,
        report.leo_eligible_rules,
    )
}

/// A report as text: its counts, its components and its remarks.
pub open spec fn report_text(report: TierReport) -> Seq<char> {
    counts_text(report) + sccs_text(report.sccs@, report.sccs@.len()) + diagnostics_text(
        report.diagnostics@,
        report.diagnostics@.len(),
    )
}

/// Appends a line.
fn push_line(output: &mut String, name: &str, value: &str)
    ensures
        final(output)@ == old(output)@ + line(name@, value@),
{
    output.append(name);
    output.append(": ");
    output.append(value);
    output.append("\n");
    assert(output@ =~= old(output)@ + line(name@, value@));
}

/// Appends a line with a count.
fn push_count(output: &mut String, name: &str, value: usize)
    ensures
        final(output)@ == old(output)@ + count_line(name@, value),
{
    push_line(output, name, text::decimal(value).as_str());
}

/// Appends a line with a count, if there is one.
fn push_optional_count(output: &mut String, name: &str, value: Option<usize>)
    ensures
        final(output)@ == old(output)@ + optional_line(name@, value),
{
    match value {
        Some(value) => push_count(output, name, value),
        None => push_line(output, name, "not-applicable"),
    }
}

/// The name of a backend.
fn backend_name(backend: BackendKind) -> (name: &'static str)
    ensures
        name@ == backend_text(backend),
{
    match backend {
        BackendKind::WholeDfa => "whole-dfa",
        BackendKind::Lalr => "lalr",
        BackendKind::Earley => "earley",
    }
}

/// Appends what a report says of a component.
pub fn render_scc(output: &mut String, report: &SccReport)
    ensures
        final(output)@ == old(output)@ + scc_text(*report),
{
    let mut out = "scc ".to_owned();
    out.append(text::decimal(report.id as usize).as_str());
    out.append(": members=");
    let ghost before = out@;
    let mut index: usize = 0;
    assert(out@ =~= before + number_list(report.members@, 0));
    while index < report.members.len()
        invariant
            index <= report.members@.len(),
            out@ == before + number_list(report.members@, index as nat),
        decreases report.members@.len() - index,
    {
        if index != 0 {
            out.append(",");
        }
        out.append(text::decimal(report.members[index] as usize).as_str());
        assert(out@ =~= before + number_list(report.members@, (index + 1) as nat));
        index += 1;
    }
    out.append(" certificate=");
    out.append(
        match report.certificate {
            Some(RegularCertificateKind::Acyclic) => "acyclic",
            Some(RegularCertificateKind::RightLinear) => "right-linear",
            Some(RegularCertificateKind::LeftLinear) => "left-linear",
            None => "none",
        },
    );
    let ghost named = out@;
    if let Some(reason) = report.failure_reason {
        out.append(" failure=");
        out.append(
            match reason {
                CertificateFailureReason::MultipleRecursiveOccurrences =>
                    "multiple-recursive-occurrences",
                CertificateFailureReason::MixedLinearOrientation => "mixed-linear-orientation",
                CertificateFailureReason::RecursiveSymbolInInterior =>
                    "recursive-symbol-in-interior",
                CertificateFailureReason::UncertifiedDependency => "uncertified-dependency",
                CertificateFailureReason::UnsupportedRegularOperation =>
                    "unsupported-regular-operation",
            },
        );
    }
    assert(out@ =~= named + (match report.failure_reason {
        Some(reason) => " failure="@ + failure_name(reason),
        None => Seq::empty(),
    }));
    out.append(" pointers=");
    let ghost opened = out@;
    let mut index: usize = 0;
    assert(out@ =~= opened + pointer_list(report.source_pointers@, 0));
    while index < report.source_pointers.len()
        invariant
            index <= report.source_pointers@.len(),
            out@ == opened + pointer_list(report.source_pointers@, index as nat),
        decreases report.source_pointers@.len() - index,
    {
        if index != 0 {
            out.append(",");
        }
        out.append(report.source_pointers[index].text().as_str());
        assert(out@ =~= opened + pointer_list(report.source_pointers@, (index + 1) as nat));
        index += 1;
    }
    out.append("\n");
    assert(out@ == scc_text(*report));
    output.append(out.as_str());
}

/// Writes the counts of a report.
fn render_counts(report: &TierReport) -> (output: String)
    ensures
        output@ == counts_text(*report),
{
    let mut output = String::new();
    push_line(&mut output, "dialect", report.dialect.as_str());
    assert(output@ =~= line("dialect"@, report.dialect@));
    push_line(&mut output, "profile", report.profile.as_str());
    push_line(&mut output, "canonical-policy", report.canonical_policy.as_str());
    push_line(&mut output, "backend", backend_name(report.selected_backend));
    push_count(&mut output, "schema-nodes", report.schema_nodes);
    push_count(&mut output, "reference-edges", report.reference_edges);
    push_count(&mut output, "grammar-symbols", report.grammar_symbols);
    push_count(&mut output, "grammar-productions", report.grammar_productions);
    push_optional_count(&mut output, "nfa-states", report.nfa_states);
    push_optional_count(&mut output, "nfa-transitions", report.nfa_transitions);
    push_optional_count(&mut output, "dfa-states", report.dfa_states);
    push_optional_count(&mut output, "dfa-bytes", report.dfa_bytes);
    push_count(&mut output, "collapsed-regular-regions", report.collapsed_regular_regions);
    push_count(&mut output, "compiled-terminals", report.compiled_terminals);
    push_count(&mut output, "terminal-dfa-states", report.terminal_dfa_states);
    push_count(&mut output, "terminal-dfa-bytes", report.terminal_dfa_bytes);
    push_count(&mut output, "canonical-lr-states", report.canonical_lr_states);
    push_count(&mut output, "lalr-states", report.lalr_states);
    push_count(&mut output, "action-entries", report.action_entries);
    push_count(&mut output, "goto-entries", report.goto_entries);
    push_count(&mut output, "conflicts", report.conflicts);
    push_count(&mut output, "nullable-nonterminals", report.nullable_nonterminals);
    push_count(&mut output, "leo-eligible-rules", report.leo_eligible_rules);
    output
}

/// Writes a report as text.
pub fn render_text_report(report: &TierReport) -> (output: String)
    ensures
        output@ == report_text(*report),
{
    let mut output = render_counts(report);
    let ghost counts = output@;
    let mut index: usize = 0;
    assert(output@ =~= counts + sccs_text(report.sccs@, 0));
    while index < report.sccs.len()
        invariant
            index <= report.sccs@.len(),
            output@ == counts + sccs_text(report.sccs@, index as nat),
        decreases report.sccs@.len() - index,
    {
        render_scc(&mut output, &report.sccs[index]);
        assert(output@ =~= counts + sccs_text(report.sccs@, (index + 1) as nat));
        index += 1;
    }
    let ghost listed = output@;
    let mut index: usize = 0;
    assert(output@ =~= listed + diagnostics_text(report.diagnostics@, 0));
    while index < report.diagnostics.len()
        invariant
            index <= report.diagnostics@.len(),
            output@ == listed + diagnostics_text(report.diagnostics@, index as nat),
        decreases report.diagnostics@.len() - index,
    {
        let diagnostic = &report.diagnostics[index];
        output.append("diagnostic ");
        output.append(diagnostic.code.as_str());
        output.append(" at ");
        output.append(diagnostic.location.pointer.text().as_str());
        output.append(": ");
        output.append(diagnostic.message.as_str());
        output.append("\n");
        assert(output@ =~= listed + diagnostics_text(report.diagnostics@, (index + 1) as nat));
        index += 1;
    }
    output
}

/// The exit code of an error of the compiler.
pub fn error_exit_code(error: &CompileError) -> (code: i32)
    ensures
        code == (match error {
            CompileError::InternalInvariant { .. } => EXIT_INTERNAL,
            CompileError::ResourceLimitExceeded { .. } => EXIT_RESOURCE,
            CompileError::StructuralBackendRequired { .. } => EXIT_STRUCTURAL,
            _ => EXIT_SCHEMA,
        }),
{
    match error {
        CompileError::InternalInvariant { .. } => EXIT_INTERNAL,
        CompileError::ResourceLimitExceeded { .. } => EXIT_RESOURCE,
        CompileError::StructuralBackendRequired { .. } => EXIT_STRUCTURAL,
        _ => EXIT_SCHEMA,
    }
}

/// How the program is called.
pub fn usage() -> (lines: &'static str)
    ensures
        lines@
            == "Usage:\n  oc-earley tier-report <schema.json> [--format text|json]\n  oc-earley compile <schema.json> [--format text|json]"@,
{
    "Usage:\n  oc-earley tier-report <schema.json> [--format text|json]\n  oc-earley compile <schema.json> [--format text|json]"
}

/// Whether the arguments from an index on are options that each name a format.
pub open spec fn all_formats(arguments: Seq<String>, index: int) -> bool {
    &&& (arguments.len() - index) % 2 == 0
    &&& forall|i: int|
        index <= i < arguments.len() ==> if (i - index) % 2 == 0 {
            (#[trigger] arguments[i])@ == "--format"@
        } else {
            arguments[i]@ == "text"@ || arguments[i]@ == "json"@
        }
}

/// Options are read just where each is a format, and the last one counts.
pub proof fn law_last_format_counts(arguments: Seq<String>, index: int, format: OutputFormat)
    requires
        0 <= index <= arguments.len(),
    ensures
        options(arguments, index, format) is Ok <==> all_formats(arguments, index),
        options(arguments, index, format) matches Ok(found) ==> found == (if index
            == arguments.len() {
            format
        } else if arguments.last()@ == "json"@ {
            OutputFormat::Json
        } else {
            OutputFormat::Text
        }),
    decreases arguments.len() - index,
{
    reveal_strlit("text");
    reveal_strlit("json");
    assert("text"@[0] == 't' && "json"@[0] == 'j');
    if index + 1 < arguments.len() {
        let next = index + 2;
        let value = arguments[index + 1]@;
        if value == "text"@ || value == "json"@ {
            law_last_format_counts(
                arguments,
                next,
                if value == "text"@ {
                    OutputFormat::Text
                } else {
                    OutputFormat::Json
                },
            );
        }
        if all_formats(arguments, index) {
            assert((index - index) % 2 == 0);
            assert(arguments[index]@ == "--format"@);
            assert((index + 1 - index) % 2 == 1);
            assert(value == "text"@ || value == "json"@);
            assert(all_formats(arguments, next)) by {
                assert forall|i: int| next <= i < arguments.len() implies if (i - next) % 2 == 0 {
                    (#[trigger] arguments[i])@ == "--format"@
                } else {
                    arguments[i]@ == "text"@ || arguments[i]@ == "json"@
                } by {
                    assert((i - index) % 2 == (i - next) % 2);
                }
            }
        }
        if options(arguments, index, format) is Ok {
            assert(all_formats(arguments, index)) by {
                assert forall|i: int| index <= i < arguments.len() implies if (i - index) % 2
                    == 0 {
                    (#[trigger] arguments[i])@ == "--format"@
                } else {
                    arguments[i]@ == "text"@ || arguments[i]@ == "json"@
                } by {
                    if i >= next {
                        assert((i - index) % 2 == (i - next) % 2);
                    }
                }
            }
        }
    } else if index < arguments.len() {
        assert((arguments.len() - index) % 2 == 1);
    }
}

/// A report holds what is said of each of its components, in their order.
pub proof fn law_report_holds_every_component(list: Seq<SccReport>, n: nat, c: int) -> (parts: (
    Seq<char>,
    Seq<char>,
))
    requires
        0 <= c < n <= list.len(),
    ensures
        parts.0 == sccs_text(list, c as nat),
        sccs_text(list, n) == parts.0 + scc_text(list[c]) + parts.1,
    decreases n,
{
    if c == n - 1 {
        let parts = (sccs_text(list, c as nat), Seq::empty());
        assert(sccs_text(list, n) =~= parts.0 + scc_text(list[c]) + parts.1);
        parts
    } else {
        let inner = law_report_holds_every_component(list, (n - 1) as nat, c);
        let parts = (inner.0, inner.1 + scc_text(list[n - 1]));
        assert(sccs_text(list, n) =~= parts.0 + scc_text(list[c]) + parts.1);
        parts
    }
}

/// A report holds each of its remarks, in their order.
pub proof fn law_report_holds_every_remark(list: Seq<Diagnostic>, n: nat, c: int) -> (parts: (
    Seq<char>,
    Seq<char>,
))
    requires
        0 <= c < n <= list.len(),
    ensures
        parts.0 == diagnostics_text(list, c as nat),
        diagnostics_text(list, n) == parts.0 + diagnostic_text(list[c]) + parts.1,
    decreases n,
{
    if c == n - 1 {
        let parts = (diagnostics_text(list, c as nat), Seq::empty());
        assert(diagnostics_text(list, n) =~= parts.0 + diagnostic_text(list[c]) + parts.1);
        parts
    } else {
        let inner = law_report_holds_every_remark(list, (n - 1) as nat, c);
        let parts = (inner.0, inner.1 + diagnostic_text(list[n - 1]));
        assert(diagnostics_text(list, n) =~= parts.0 + diagnostic_text(list[c]) + parts.1);
        parts
    }
}

/// The text of a list of numbers holds each of them, with a comma on either side where another is.
pub proof fn law_list_holds_every_number(list: Seq<u32>, n: nat, c: int) -> (parts: (
    Seq<char>,
    Seq<char>,
))
    requires
        0 <= c < n <= list.len(),
    ensures
        number_list(list, n) == parts.0 + text::digits(list[c] as nat) + parts.1,
        parts.0.len() == 0 <==> c == 0,
        c > 0 ==> parts.0.last() == ',',
        parts.1.len() == 0 <==> c == n - 1,
        c < n - 1 ==> parts.1[0] == ',',
    decreases n,
{
    reveal_strlit(",");
    if c == n - 1 {
        let before = number_list(list, c as nat) + if n == 1 {
            Seq::empty()
        } else {
            ","@
        };
        let parts = (before, Seq::empty());
        assert(number_list(list, n) =~= parts.0 + text::digits(list[c] as nat) + parts.1);
        assert(n == 1 ==> before =~= Seq::empty());
        parts
    } else {
        let inner = law_list_holds_every_number(list, (n - 1) as nat, c);
        let parts = (inner.0, inner.1 + ","@ + text::digits(list[n - 1] as nat));
        assert(number_list(list, n) =~= parts.0 + text::digits(list[c] as nat) + parts.1);
        parts
    }
}

/// The text of a list of pointers holds each of them, with a comma on either side where another is.
pub proof fn law_list_holds_every_pointer(list: Seq<SchemaPointer>, n: nat, c: int) -> (parts: (
    Seq<char>,
    Seq<char>,
))
    requires
        0 <= c < n <= list.len(),
    ensures
        pointer_list(list, n) == parts.0 + message::pointer_text(list[c]) + parts.1,
        parts.0.len() == 0 <==> c == 0,
        c > 0 ==> parts.0.last() == ',',
        parts.1.len() == 0 <==> c == n - 1,
        c < n - 1 ==> parts.1[0] == ',',
    decreases n,
{
    reveal_strlit(",");
    if c == n - 1 {
        let before = pointer_list(list, c as nat) + if n == 1 {
            Seq::empty()
        } else {
            ","@
        };
        let parts = (before, Seq::empty());
        assert(pointer_list(list, n) =~= parts.0 + message::pointer_text(list[c]) + parts.1);
        assert(n == 1 ==> before =~= Seq::empty());
        parts
    } else {
        let inner = law_list_holds_every_pointer(list, (n - 1) as nat, c);
        let parts = (inner.0, inner.1 + ","@ + message::pointer_text(list[n - 1]));
        assert(pointer_list(list, n) =~= parts.0 + message::pointer_text(list[c]) + parts.1);
        parts
    }
}

} // verus!
