use std::sync::Arc;

use oc_earley::earley::{CompiledEarley, EarleyRecognizer};
use oc_earley::error::{CompileError, CompileStage, RuntimeError, RuntimeResource};
use oc_earley::json::{JsonMember, JsonNumber, JsonValue};
use oc_earley::certificate::certify_regular_with_sccs;
use oc_earley::lowering::lower;
use oc_earley::normalize::normalize_schema;
use oc_earley::recognizer::RecognizerState;
use oc_earley::reduction::reduce;
use oc_earley::residual::{
    CompiledTerminal, ResidualGrammar, ResidualNonterminal, ResidualProduction,
};
use oc_earley::residual_build::build_residual;
use oc_earley::scc::analyze_sccs;
use oc_earley::schema::{
    CompileLimits, CompileOptions, Provenance, ResourceId, RuntimeLimits, SchemaPointer,
};
use oc_earley::symbol::{NonterminalId, Symbol};

fn json_value(value: &serde_json::Value) -> JsonValue {
    match value {
        serde_json::Value::Null => JsonValue::Null,
        serde_json::Value::Bool(value) => JsonValue::Bool(*value),
        serde_json::Value::Number(number) => JsonValue::Number(JsonNumber {
            text: number.to_string(),
            unsigned: number.as_u64(),
            signed: number.as_i64(),
        }),
        serde_json::Value::String(text) => JsonValue::String(text.clone()),
        serde_json::Value::Array(items) => JsonValue::Array(items.iter().map(json_value).collect()),
        serde_json::Value::Object(members) => JsonValue::object(
            members
                .iter()
                .map(|(key, value)| JsonMember { key: key.clone(), value: json_value(value) })
                .collect(),
        )
        .unwrap(),
    }
}

fn parse(text: &str) -> JsonValue {
    json_value(&serde_json::from_str(text).unwrap())
}

fn structural(schema: &str) -> ResidualGrammar {
    let options = CompileOptions::default();
    let arena = normalize_schema(&parse(schema), &options).unwrap();
    let mut grammar = lower(&arena, &options.limits).unwrap();
    reduce(&mut grammar).unwrap();
    let sccs = analyze_sccs(&grammar).unwrap();
    let analysis = certify_regular_with_sccs(&grammar, sccs).unwrap();
    build_residual(&grammar, &analysis, &options.limits).unwrap()
}

fn provenance() -> Provenance {
    Provenance {
        resource: ResourceId(0),
        pointer: SchemaPointer(String::new()),
        keyword: None,
    }
}

fn residual(
    nonterminal_count: usize,
    productions: Vec<(NonterminalId, Vec<Symbol>)>,
    literals: &[&[u8]],
) -> Arc<ResidualGrammar> {
    let productions: Vec<_> = productions
        .into_iter()
        .enumerate()
        .map(|(id, (lhs, rhs))| ResidualProduction {
            id: u32::try_from(id).unwrap(),
            original: u32::try_from(id).unwrap(),
            lhs,
            rhs,
            provenance: provenance(),
        })
        .collect();
    let mut productions_by_lhs = vec![Vec::new(); nonterminal_count];
    for production in &productions {
        productions_by_lhs[production.lhs as usize].push(production.id);
    }
    let mut nullable = vec![false; nonterminal_count];
    loop {
        let mut changed = false;
        for production in &productions {
            if !nullable[production.lhs as usize]
                && production.rhs.iter().all(|symbol| match symbol {
                    Symbol::Nonterminal(id) => nullable[*id as usize],
                    Symbol::Terminal(_) => false,
                })
            {
                nullable[production.lhs as usize] = true;
                changed = true;
            }
        }
        if !changed {
            break;
        }
    }
    let productive_suffixes = productions
        .iter()
        .map(|production| {
            let mut suffixes = vec![false; production.rhs.len() + 1];
            suffixes[production.rhs.len()] = true;
            for index in (0..production.rhs.len()).rev() {
                suffixes[index] = suffixes[index + 1]
                    && matches!(production.rhs[index], Symbol::Nonterminal(id) if nullable[id as usize]);
            }
            suffixes
        })
        .collect();
    Arc::new(ResidualGrammar {
        start: 0,
        nonterminals: (0..nonterminal_count)
            .map(|id| ResidualNonterminal {
                id: u32::try_from(id).unwrap(),
                original: u32::try_from(id).unwrap(),
                name: format!("n{id}"),
                provenance: provenance(),
            })
            .collect(),
        terminals: literals
            .iter()
            .map(|bytes| CompiledTerminal::Literal(Arc::from(*bytes)))
            .collect(),
        terminal_provenance: literals.iter().map(|_| provenance()).collect(),
        productions,
        productions_by_lhs,
        nullable,
        productive_suffixes,
        collapsed_nonterminals: 0,
        collapsed_regions: 0,
        terminal_dfa_states: 0,
        terminal_dfa_bytes: 0,
    })
}

fn compile(schema: &str) -> Arc<CompiledEarley> {
    Arc::new(CompiledEarley::build(Arc::new(structural(schema)), &CompileLimits::default()).unwrap())
}

fn grammar(
    nonterminal_count: usize,
    productions: Vec<(NonterminalId, Vec<Symbol>)>,
    literals: &[&[u8]],
) -> Arc<CompiledEarley> {
    let residual = residual(nonterminal_count, productions, literals);
    Arc::new(CompiledEarley::build(residual, &CompileLimits::default()).unwrap())
}

fn recognize(compiled: &Arc<CompiledEarley>, bytes: &[u8], leo: bool) -> EarleyRecognizer {
    let mut recognizer = compiled.recognizer(RuntimeLimits::default(), leo, 1).unwrap();
    for byte in bytes {
        assert!(recognizer.advance_byte(*byte).unwrap());
    }
    assert!(recognizer.is_accepting());
    recognizer
}

#[test]
fn recursive_array_recognizes_nested_values() {
    let grammar = compile(
        r##"{
          "$defs":{"node":{"anyOf":[{"type":"null"},{"type":"array","prefixItems":[{"$ref":"#/$defs/node"}],"items":false}]}},
          "$ref":"#/$defs/node"
        }"##,
    );
    for value in ["null", "[null]", "[[null]]", "[[[null]]]"] {
        let mut recognizer = grammar.recognizer(RuntimeLimits::default(), false, 1).unwrap();
        for byte in value.bytes() {
            assert!(recognizer.advance_byte(byte).unwrap(), "{value}");
        }
        assert!(recognizer.is_accepting(), "{value}");
    }
}

#[test]
fn rejected_trial_can_be_restored() {
    let grammar = compile(
        r##"{
          "$defs":{"node":{"anyOf":[{"type":"null"},{"type":"array","prefixItems":[{"$ref":"#/$defs/node"}],"items":false}]}},
          "$ref":"#/$defs/node"
        }"##,
    );
    let mut recognizer = grammar.recognizer(RuntimeLimits::default(), true, 1).unwrap();
    let checkpoint = recognizer.checkpoint();
    assert!(!recognizer.advance_byte(b'x').unwrap());
    recognizer.restore(&checkpoint).unwrap();
    for byte in b"null" {
        assert!(recognizer.advance_byte(*byte).unwrap());
    }
    assert!(recognizer.is_accepting());
}

#[test]
fn nullable_chain_and_cycle_terminate() {
    let chain = grammar(
        4,
        vec![
            (0, vec![Symbol::Nonterminal(1), Symbol::Terminal(0)]),
            (1, vec![Symbol::Nonterminal(2)]),
            (2, vec![Symbol::Nonterminal(3)]),
            (3, vec![]),
        ],
        &[b"x"],
    );
    recognize(&chain, b"x", false);

    let cycle = grammar(
        3,
        vec![
            (0, vec![Symbol::Nonterminal(1), Symbol::Terminal(0)]),
            (1, vec![Symbol::Nonterminal(2)]),
            (1, vec![]),
            (2, vec![Symbol::Nonterminal(1)]),
        ],
        &[b"x"],
    );
    let recognized = recognize(&cycle, b"x", false);
    assert!(recognized.stats().items_inserted < 32);
}

#[test]
fn left_recursion_is_recognized_without_leo() {
    let list = grammar(
        1,
        vec![(0, vec![Symbol::Nonterminal(0), Symbol::Terminal(0)]), (0, vec![])],
        &[b"a"],
    );
    recognize(&list, &vec![b'a'; 256], false);
}

#[test]
fn leo_preserves_recognition_and_linearizes_right_recursion() {
    let list = grammar(
        1,
        vec![(0, vec![Symbol::Terminal(0), Symbol::Nonterminal(0)]), (0, vec![])],
        &[b"a"],
    );
    let input = vec![b'a'; 2_000];
    let ordinary = recognize(&list, &input, false);
    let optimized = recognize(&list, &input, true);
    assert!(optimized.stats().leo_hits > 1_900);
    assert!(optimized.stats().leo_candidates < 4_100);
    assert!(optimized.stats().items_inserted < 10_100);
    assert!(ordinary.stats().items_inserted > optimized.stats().items_inserted * 10);
}

#[test]
fn leo_work_respects_runtime_limit() {
    let list = grammar(
        1,
        vec![(0, vec![Symbol::Terminal(0), Symbol::Nonterminal(0)]), (0, vec![])],
        &[b"a"],
    );
    let limits = RuntimeLimits { max_leo_items: 0, ..RuntimeLimits::default() };
    assert!(matches!(
        list.recognizer(limits, true, 1),
        Err(RuntimeError::ResourceLimitExceeded {
            resource: RuntimeResource::LeoItems,
            observed: 1,
            limit: 0,
        })
    ));
}

#[test]
fn leo_matches_baseline_on_bounded_ambiguous_inputs() {
    let grammar = grammar(
        1,
        vec![
            (0, vec![Symbol::Terminal(0), Symbol::Nonterminal(0)]),
            (0, vec![Symbol::Terminal(0)]),
            (0, vec![]),
        ],
        &[b"a"],
    );
    for length in 0..=8 {
        for bits in 0..(1_usize << length) {
            let input: Vec<_> = (0..length)
                .map(|index| if bits & (1 << index) == 0 { b'a' } else { b'b' })
                .collect();
            let outcomes = [false, true].map(|leo| {
                let mut recognizer = grammar.recognizer(RuntimeLimits::default(), leo, 1).unwrap();
                let live = input.iter().all(|byte| recognizer.advance_byte(*byte).unwrap());
                (live, recognizer.is_accepting(), recognizer.is_live())
            });
            assert_eq!(outcomes[0], outcomes[1], "input={input:?}");
        }
    }
}

#[test]
fn ambiguous_terminal_lengths_preserve_both_segmentations() {
    let choices = grammar(
        1,
        vec![(0, vec![Symbol::Terminal(0)]), (0, vec![Symbol::Terminal(1)])],
        &[b"a", b"aa"],
    );
    recognize(&choices, b"a", false);
    recognize(&choices, b"aa", false);
}

#[test]
fn initial_runtime_limits_return_typed_errors() {
    let compiled = grammar(1, vec![(0, vec![Symbol::Terminal(0)])], &[b"x"]);
    let cases = [
        (
            RuntimeLimits { max_chart_columns: 0, ..RuntimeLimits::default() },
            RuntimeResource::ChartColumns,
        ),
        (
            RuntimeLimits { max_items_per_column: 0, ..RuntimeLimits::default() },
            RuntimeResource::ItemsPerColumn,
        ),
        (
            RuntimeLimits { max_total_items: 0, ..RuntimeLimits::default() },
            RuntimeResource::TotalItems,
        ),
        (
            RuntimeLimits { max_active_scans: 0, ..RuntimeLimits::default() },
            RuntimeResource::ActiveScans,
        ),
    ];

    for (limits, resource) in cases {
        assert!(matches!(
            compiled.recognizer(limits, false, 1),
            Err(RuntimeError::ResourceLimitExceeded { resource: found, .. }) if found == resource
        ));
    }
}

#[test]
fn preparation_item_limit_returns_a_typed_error() {
    let compiled = grammar(1, vec![(0, vec![Symbol::Terminal(0)])], &[b"x"]);
    let limits = CompileLimits { max_lr_items: 0, ..CompileLimits::default() };
    assert!(matches!(
        CompiledEarley::build(Arc::clone(&compiled.grammar), &limits),
        Err(CompileError::ResourceLimitExceeded { stage: CompileStage::EarleyPreparation, .. })
    ));
}

#[test]
fn charts_come_back_to_a_checkpoint() {
    let list = grammar(
        1,
        vec![(0, vec![Symbol::Nonterminal(0), Symbol::Terminal(0)]), (0, vec![Symbol::Terminal(1)])],
        &[b"a", b"b"],
    );
    let mut recognizer = list.recognizer(RuntimeLimits::default(), true, 3).unwrap();
    assert!(!recognizer.is_accepting());
    assert!(recognizer.advance_byte(b'b').unwrap());
    let checkpoint = recognizer.checkpoint();
    let stats = recognizer.stats().clone();
    assert!(recognizer.advance_byte(b'a').unwrap());
    assert!(recognizer.advance_byte(b'a').unwrap());
    recognizer.restore(&checkpoint).unwrap();
    assert_eq!(recognizer.stats(), &stats);
    assert!(recognizer.is_accepting());
    assert!(!recognizer.advance_byte(b'b').unwrap());
}

#[test]
fn charts_count_their_work() {
    let list = grammar(
        1,
        vec![(0, vec![Symbol::Nonterminal(0), Symbol::Terminal(0)]), (0, vec![Symbol::Terminal(1)])],
        &[b"a", b"b"],
    );
    let mut recognizer = list.recognizer(RuntimeLimits::default(), false, 1).unwrap();
    let counts = |recognizer: &EarleyRecognizer| {
        let stats = recognizer.stats();
        (stats.columns, stats.items_inserted, stats.scans, stats.max_active_scans)
    };
    assert_eq!(counts(&recognizer), (1, 3, 0, 1));
    assert!(recognizer.advance_byte(b'b').unwrap());
    assert_eq!(counts(&recognizer), (2, 6, 1, 1));
    assert!(recognizer.advance_byte(b'a').unwrap());
    assert_eq!(counts(&recognizer), (3, 9, 2, 1));
    assert_eq!(recognizer.stats().max_column_items, 3);
}

#[test]
fn leo_answers_each_byte_alike() {
    let list = grammar(
        1,
        vec![(0, vec![Symbol::Terminal(0), Symbol::Nonterminal(0)]), (0, vec![Symbol::Terminal(1)])],
        &[b"a", b"bc"],
    );
    let mut plain = list.recognizer(RuntimeLimits::default(), false, 1).unwrap();
    let mut quick = list.recognizer(RuntimeLimits::default(), true, 1).unwrap();
    for byte in b"aaabcx" {
        let answers = (plain.advance_byte(*byte).unwrap(), quick.advance_byte(*byte).unwrap());
        assert_eq!(answers.0, answers.1);
        assert_eq!(plain.is_live(), quick.is_live());
        assert_eq!(plain.is_accepting(), quick.is_accepting());
    }
}

#[test]
fn checkpoints_ahead_of_the_chart_are_refused() {
    let list = grammar(1, vec![(0, vec![Symbol::Terminal(0)])], &[b"ab"]);
    let recognizer = list.recognizer(RuntimeLimits::default(), true, 1).unwrap();
    let mut state = RecognizerState::Earley(recognizer);
    let first = state.checkpoint();
    state.try_advance_bytes(b"a").unwrap();
    let second = state.checkpoint();
    state.restore(&first).unwrap();
    assert_eq!(
        state.restore(&second),
        Err(RuntimeError::InternalInvariant {
            message: "Earley checkpoint column count is invalid",
        })
    );
}
