use std::sync::Arc;

use oc_earley::error::{CompileError, CompileStage, RuntimeError, RuntimeResource};
use oc_earley::lalr::CompiledLalr;
use oc_earley::table::ConflictKind;
use oc_earley::json::{JsonMember, JsonNumber, JsonValue};
use oc_earley::certificate::certify_regular_with_sccs;
use oc_earley::lowering::lower;
use oc_earley::normalize::normalize_schema;
use oc_earley::reduction::reduce;
use oc_earley::residual::{
    CompiledTerminal, ResidualGrammar, ResidualNonterminal, ResidualProduction,
};
use oc_earley::residual_build::build_residual;
use oc_earley::scc::analyze_sccs;
use oc_earley::schema::{
    CompileLimits, CompileOptions, Provenance, ResourceId, RuntimeLimits, SchemaPointer,
};
use oc_earley::symbol::{NonterminalId, Symbol};

fn json_value(value: &serde_json::Value) -> JsonValue {
    match value {
        serde_json::Value::Null => JsonValue::Null,
        serde_json::Value::Bool(value) => JsonValue::Bool(*value),
        serde_json::Value::Number(number) => JsonValue::Number(JsonNumber {
            text: number.to_string(),
            unsigned: number.as_u64(),
            signed: number.as_i64(),
        }),
        serde_json::Value::String(text) => JsonValue::String(text.clone()),
        serde_json::Value::Array(items) => JsonValue::Array(items.iter().map(json_value).collect()),
        serde_json::Value::Object(members) => JsonValue::object(
            members
                .iter()
                .map(|(key, value)| JsonMember { key: key.clone(), value: json_value(value) })
                .collect(),
        )
        .unwrap(),
    }
}

fn parse(text: &str) -> JsonValue {
    json_value(&serde_json::from_str(text).unwrap())
}

fn structural(schema: &str) -> ResidualGrammar {
    let options = CompileOptions::default();
    let arena = normalize_schema(&parse(schema), &options).unwrap();
    let mut grammar = lower(&arena, &options.limits).unwrap();
    reduce(&mut grammar).unwrap();
    let sccs = analyze_sccs(&grammar).unwrap();
    let analysis = certify_regular_with_sccs(&grammar, sccs).unwrap();
    build_residual(&grammar, &analysis, &options.limits).unwrap()
}

fn provenance() -> Provenance {
    Provenance {
        resource: ResourceId(0),
        pointer: SchemaPointer(String::new()),
        keyword: None,
    }
}

fn residual(
    nonterminal_count: usize,
    productions: Vec<(NonterminalId, Vec<Symbol>)>,
    literals: &[&[u8]],
) -> Arc<ResidualGrammar> {
    let productions: Vec<_> = productions
        .into_iter()
        .enumerate()
        .map(|(id, (lhs, rhs))| ResidualProduction {
            id: u32::try_from(id).unwrap(),
            original: u32::try_from(id).unwrap(),
            lhs,
            rhs,
            provenance: provenance(),
        })
        .collect();
    let mut productions_by_lhs = vec![Vec::new(); nonterminal_count];
    for production in &productions {
        productions_by_lhs[production.lhs as usize].push(production.id);
    }
    let mut nullable = vec![false; nonterminal_count];
    loop {
        let mut changed = false;
        for production in &productions {
            if !nullable[production.lhs as usize]
                && production.rhs.iter().all(|symbol| match symbol {
                    Symbol::Nonterminal(id) => nullable[*id as usize],
                    Symbol::Terminal(_) => false,
                })
            {
                nullable[production.lhs as usize] = true;
                changed = true;
            }
        }
        if !changed {
            break;
        }
    }
    let productive_suffixes = productions
        .iter()
        .map(|production| {
            let mut suffixes = vec![false; production.rhs.len() + 1];
            suffixes[production.rhs.len()] = true;
            for index in (0..production.rhs.len()).rev() {
                suffixes[index] = suffixes[index + 1]
                    && matches!(production.rhs[index], Symbol::Nonterminal(id) if nullable[id as usize]);
            }
            suffixes
        })
        .collect();
    Arc::new(ResidualGrammar {
        start: 0,
        nonterminals: (0..nonterminal_count)
            .map(|id| ResidualNonterminal {
                id: u32::try_from(id).unwrap(),
                original: u32::try_from(id).unwrap(),
                name: format!("n{id}"),
                provenance: provenance(),
            })
            .collect(),
        terminals: literals
            .iter()
            .map(|bytes| CompiledTerminal::Literal(Arc::from(*bytes)))
            .collect(),
        terminal_provenance: literals.iter().map(|_| provenance()).collect(),
        productions,
        productions_by_lhs,
        nullable,
        productive_suffixes,
        collapsed_nonterminals: 0,
        collapsed_regions: 0,
        terminal_dfa_states: 0,
        terminal_dfa_bytes: 0,
    })
}

#[test]
fn recursive_literal_array_builds_conflict_free_tables() {
    let schema = r##"{
      "$defs":{"node":{"anyOf":[{"const":null},{"type":"array","prefixItems":[{"$ref":"#/$defs/node"}],"items":false}]}},
      "$ref":"#/$defs/node"
    }"##;
    let compiled =
        CompiledLalr::build(Arc::new(structural(schema)), &CompileLimits::default()).unwrap();
    assert!(compiled.conflicts.is_empty());
    assert!(compiled.lexical_safe);
    let compiled = Arc::new(compiled);
    for value in ["null", "[null]", "[[null]]"] {
        let mut recognizer = compiled.recognizer(RuntimeLimits::default(), 1);
        for byte in value.bytes() {
            assert!(recognizer.advance_byte(byte).unwrap());
        }
        assert!(recognizer.is_accepting(), "{value}");
    }
}

#[test]
fn reports_shift_reduce_conflicts_without_precedence() {
    let grammar = residual(
        1,
        vec![
            (0, vec![Symbol::Nonterminal(0), Symbol::Terminal(0), Symbol::Nonterminal(0)]),
            (0, vec![Symbol::Terminal(1)]),
        ],
        &[b"+", b"n"],
    );
    let compiled = CompiledLalr::build(grammar, &CompileLimits::default()).unwrap();

    assert!(!compiled.is_usable());
    assert!(compiled
        .conflicts
        .iter()
        .any(|conflict| conflict.kind == ConflictKind::ShiftReduce));
    assert!(compiled
        .conflicts
        .iter()
        .all(|conflict| !conflict.provenance.is_empty()));
}

#[test]
fn reports_reduce_reduce_conflicts_with_both_productions() {
    let grammar = residual(
        3,
        vec![
            (0, vec![Symbol::Nonterminal(1)]),
            (0, vec![Symbol::Nonterminal(2)]),
            (1, vec![Symbol::Terminal(0)]),
            (2, vec![Symbol::Terminal(0)]),
        ],
        &[b"x"],
    );
    let compiled = CompiledLalr::build(grammar, &CompileLimits::default()).unwrap();
    let conflict = compiled
        .conflicts
        .iter()
        .find(|conflict| conflict.kind == ConflictKind::ReduceReduce)
        .unwrap();

    assert_eq!(conflict.productions.len(), 2);
    assert_eq!(conflict.provenance.len(), 2);
}

#[test]
fn table_and_conflict_limits_return_typed_errors() {
    let deterministic = residual(
        2,
        vec![(0, vec![Symbol::Nonterminal(1)]), (1, vec![Symbol::Terminal(0)])],
        &[b"x"],
    );
    for (limits, expected_stage) in [
        (
            CompileLimits { max_lr_items: 0, ..CompileLimits::default() },
            CompileStage::LrConstruction,
        ),
        (
            CompileLimits { max_action_entries: 0, ..CompileLimits::default() },
            CompileStage::LalrTable,
        ),
        (
            CompileLimits { max_goto_entries: 0, ..CompileLimits::default() },
            CompileStage::LalrTable,
        ),
    ] {
        assert!(matches!(
            CompiledLalr::build(Arc::clone(&deterministic), &limits),
            Err(CompileError::ResourceLimitExceeded { stage, .. })
                if stage == expected_stage
        ));
    }

    let ambiguous = residual(
        3,
        vec![
            (0, vec![Symbol::Nonterminal(1)]),
            (0, vec![Symbol::Nonterminal(2)]),
            (1, vec![Symbol::Terminal(0)]),
            (2, vec![Symbol::Terminal(0)]),
        ],
        &[b"x"],
    );
    let limits = CompileLimits { max_reported_conflicts: 0, ..CompileLimits::default() };
    assert!(matches!(
        CompiledLalr::build(ambiguous, &limits),
        Err(CompileError::ResourceLimitExceeded { stage: CompileStage::LalrTable, .. })
    ));
}

#[test]
fn runtime_stack_and_scan_limits_return_typed_errors() {
    let grammar = residual(1, vec![(0, vec![Symbol::Terminal(0)])], &[b"x"]);
    let compiled =
        Arc::new(CompiledLalr::build(Arc::clone(&grammar), &CompileLimits::default()).unwrap());
    let mut recognizer =
        compiled.recognizer(RuntimeLimits { max_parse_stack: 1, ..RuntimeLimits::default() }, 1);
    assert!(matches!(
        recognizer.advance_byte(b'x'),
        Err(RuntimeError::ResourceLimitExceeded { resource: RuntimeResource::ParseStack, .. })
    ));

    let mut recognizer =
        compiled.recognizer(RuntimeLimits { max_active_scans: 0, ..RuntimeLimits::default() }, 2);
    assert!(matches!(
        recognizer.advance_byte(b'x'),
        Err(RuntimeError::ResourceLimitExceeded { resource: RuntimeResource::ActiveScans, .. })
    ));
}

#[test]
fn tables_reject_what_the_grammar_does_not_generate() {
    let grammar = residual(
        1,
        vec![
            (0, vec![Symbol::Terminal(0), Symbol::Nonterminal(0), Symbol::Terminal(1)]),
            (0, vec![Symbol::Terminal(2)]),
        ],
        &[b"(", b")", b"x"],
    );
    let compiled = Arc::new(CompiledLalr::build(grammar, &CompileLimits::default()).unwrap());
    assert!(compiled.is_usable());
    let mut recognizer = compiled.recognizer(RuntimeLimits::default(), 7);
    for byte in b"((x)" {
        assert!(recognizer.advance_byte(*byte).unwrap());
        assert!(!recognizer.is_accepting());
        assert!(recognizer.is_live());
    }
    let checkpoint = recognizer.checkpoint();
    assert!(!recognizer.advance_byte(b'x').unwrap());
    assert!(recognizer.advance_byte(b')').unwrap());
    assert!(recognizer.is_accepting());
    assert_eq!(recognizer.stats().bytes, 5);
    recognizer.restore(&checkpoint).unwrap();
    assert!(!recognizer.is_accepting());
    let mut other = compiled.recognizer(RuntimeLimits::default(), 8);
    assert_eq!(
        other.restore(&checkpoint),
        Err(RuntimeError::InvalidCheckpoint { expected_generation: 8, found_generation: 7 })
    );
}

#[test]
fn reductions_are_counted_with_the_shift_behind_them() {
    let grammar = residual(
        2,
        vec![
            (0, vec![Symbol::Nonterminal(1), Symbol::Terminal(1)]),
            (1, vec![Symbol::Terminal(0)]),
        ],
        &[b"a", b"b"],
    );
    let compiled = Arc::new(CompiledLalr::build(grammar, &CompileLimits::default()).unwrap());
    let mut recognizer = compiled.recognizer(RuntimeLimits::default(), 1);
    assert!(recognizer.advance_byte(b'a').unwrap());
    assert_eq!((recognizer.stats().shifts, recognizer.stats().reductions), (1, 0));
    assert!(!recognizer.advance_byte(b'a').unwrap());
    assert_eq!((recognizer.stats().bytes, recognizer.stats().reductions), (1, 0));
    assert!(recognizer.advance_byte(b'b').unwrap());
    assert_eq!((recognizer.stats().shifts, recognizer.stats().reductions), (2, 1));
    assert_eq!(recognizer.stats().max_stack_depth, 3);
    assert!(recognizer.is_accepting() && recognizer.is_live());
}

#[test]
fn construction_says_how_many_states_were_found() {
    let grammar = residual(1, vec![(0, vec![Symbol::Terminal(0)])], &[b"x"]);
    let limits = CompileLimits { max_lr_states: 1, ..CompileLimits::default() };
    match CompiledLalr::build(grammar, &limits) {
        Err(CompileError::ResourceLimitExceeded {
            stage: CompileStage::LrConstruction,
            observed,
            limit,
        }) => assert_eq!((observed, limit), (2, 1)),
        other => panic!("{other:?}"),
    }
}
